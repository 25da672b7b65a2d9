//! A small pseudo-random generator that supplies seed material for mixers.
//!
//! The state is a nonzero 128-bit word; each step scrambles it with
//! xor-shifts and a rotation and outputs a word derived from the full
//! 128-bit product of its halves.

use vstd::prelude::*;

verus! {

/// The seed used when the operating system cannot supply one.
pub const FALLBACK_SEED: u128 = 0x9e37_79b9_7f4a_7c15_f39c_c060_5ced_c835;

/// The low half of a state.
pub open spec fn low_half(s: u128) -> u64 {
    #[verifier::truncate]
    (s as u64)
}

/// The high half of a state.
pub open spec fn high_half(s: u128) -> u64 {
    #[verifier::truncate]
    ((s >> 64u128) as u64)
}

/// The high word of the 128-bit product of two words.
pub open spec fn mul_high(x: u64, y: u64) -> u64 {
    ((x as int * y as int) / 0x1_0000_0000_0000_0000) as u64
}

/// The state that follows `s`.
pub open spec fn next_state(s: u128) -> u128 {
    let u = low_half(s);
    let v = high_half(s);
    let x = ((u >> 7u64) | (u << 57u64)) ^ v;
    let y = u ^ (u >> 19u64);
    (x as u128) | ((y as u128) << 64u128)
}

/// The word drawn from state `s`.
pub open spec fn output(s: u128) -> u64 {
    let u = low_half(s);
    let v = high_half(s);
    let x = ((u >> 7u64) | (u << 57u64)) ^ v;
    (u.wrapping_mul(v) ^ mul_high(u, v)).wrapping_add(x)
}

/// A nonzero state never steps to zero: the low half maps to a nonzero high
/// half when it is nonzero, and otherwise the high half moves to the low half.
proof fn lemma_next_state_nonzero(s: u128)
    requires
        s != 0,
    ensures
        next_state(s) != 0,
{
    let u = low_half(s);
    let v = high_half(s);
    assert(u != 0 || v != 0) by (bit_vector)
        requires
            s != 0,
            u == (s as u64),
            v == ((s >> 64u128) as u64),
    ;
    assert(next_state(s) == (((((u >> 7u64) | (u << 57u64)) ^ v) as u128) | (((u ^ (u >> 19u64))
        as u128) << 64u128)));
    assert((u != 0 || v != 0) ==> (((((u >> 7u64) | (u << 57u64)) ^ v) as u128) | (((u ^ (u
        >> 19u64)) as u128) << 64u128)) != 0) by (bit_vector);
}

fn umulh(x: u64, y: u64) -> (r: u64)
    ensures
        r == mul_high(x, y),
{
    assert(x as int * y as int <= 0xffff_ffff_ffff_ffff * 0xffff_ffff_ffff_ffff) by (nonlinear_arith);
    let p = (x as u128) * (y as u128);
    assert(p >> 64u128 == p / 0x1_0000_0000_0000_0000) by (bit_vector);
    (p >> 64u128) as u64
}

/// A pseudo-random generator with a nonzero 128-bit state.
#[derive(Clone)]
pub struct Rng {
    state: u128,
}

impl Rng {
    /// The current state.
    pub closed spec fn current(self) -> u128 {
        self.state
    }

    /// The state is never zero.
    pub closed spec fn wf(self) -> bool {
        self.state != 0
    }

    /// A generator that starts from `seed`.
    pub fn new(seed: u128) -> (r: Self)
        requires
            seed != 0,
        ensures
            r.wf(),
            r.current() == seed,
    {
        Rng { state: seed }
    }

    /// The current state, which is never zero.
    pub fn state(&self) -> (r: u128)
        requires
            self.wf(),
        ensures
            r == self.current(),
            r != 0,
    {
        self.state
    }

    /// Draws one word and steps the state.
    pub fn u64(&mut self) -> (r: u64)
        requires
            old(self).wf(),
        ensures
            final(self).wf(),
            r == output(old(self).current()),
            final(self).current() == next_state(old(self).current()),
    {
        proof {
            lemma_next_state_nonzero(self.state);
        }
        let s = self.state;
        let u = s as u64;
        let v = (s >> 64u128) as u64;
        let x = ((u >> 7u64) | (u << 57u64)) ^ v;
        let y = u ^ (u >> 19u64);
        let z = u.wrapping_mul(v) ^ umulh(u, v);
        let z = z.wrapping_add(x);
        self.state = (x as u128) | ((y as u128) << 64u128);
        z
    }

    /// Draws two words.
    pub fn array_u64(&mut self) -> (r: [u64; 2])
        requires
            old(self).wf(),
        ensures
            final(self).wf(),
            r[0] == output(old(self).current()),
            r[1] == output(next_state(old(self).current())),
            final(self).current() == next_state(next_state(old(self).current())),
    {
        let a = self.u64();
        let b = self.u64();
        [a, b]
    }

    /// A generator seeded from the operating system's entropy source, or from
    /// a fixed seed when the system gives none (or gives zero). The map stays
    /// correct either way; only its spread of fingerprints depends on the seed.
    pub fn from_system() -> (r: Self)
        ensures
            r.wf(),
    {
        let e = match os_entropy() {
            Ok(s) => Some(s),
            Err(_) => None,
        };
        Self::from_entropy(e)
    }

    /// A generator seeded from entropy `e`: its word where it has a nonzero
    /// one, and the fixed fallback seed where it has none or zero.
    pub fn from_entropy(e: Option<u128>) -> (r: Self)
        ensures
            r.wf(),
            r.current() == (match e {
                Some(s) => if s != 0 {
                    s
                } else {
                    FALLBACK_SEED
                },
                None => FALLBACK_SEED,
            }),
    {
        let seed = match e {
            Some(s) => if s != 0 {
                s
            } else {
                FALLBACK_SEED
            },
            None => FALLBACK_SEED,
        };
        Rng { state: seed }
    }
}

#[verifier::external_type_specification]
#[verifier::external_body]
pub struct ExGetrandomError(getrandom::Error);

/// Relies on getrandom::getrandom: it fills sixteen bytes from the operating
/// system's entropy source, or reports why it could not. Nothing is known of
/// the bytes, read here as one little-endian word.
#[verifier::external_body]
fn os_entropy() -> (r: Result<u128, getrandom::Error>) {
    let mut seed = [0u8; 16];
    getrandom::getrandom(&mut seed).map(|()| u128::from_le_bytes(seed))
}

} // verus!
