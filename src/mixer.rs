//! A reversible scrambler of 64-bit words.
//!
//! `mix(x) = swap_bytes(x * a) * b`, with all products taken modulo 2^64 and
//! both multipliers odd. Each step is a bijection of the 64-bit words that
//! fixes 0, so a nonzero key never mixes to the empty-slot sentinel 0, and the
//! mixer with multipliers `a / (a b)` and `b / (a b)` undoes it.

use vstd::arithmetic::div_mod::*;
use vstd::arithmetic::mul::*;
use vstd::prelude::*;

verus! {

/// 2^64, the modulus of all mixer arithmetic.
pub open spec fn word_modulus() -> int {
    0x1_0000_0000_0000_0000
}

/// The product of two words, wrapped modulo 2^64.
pub open spec fn wmul(x: u64, y: u64) -> u64 {
    ((x as int * y as int) % word_modulus()) as u64
}

/// The word `x` with its eight bytes in reverse order.
pub open spec fn byte_swap(x: u64) -> u64 {
    (x << 56u64) | ((x & 0xff00u64) << 40u64) | ((x & 0xff_0000u64) << 24u64) | ((x
        & 0xff00_0000u64) << 8u64) | ((x >> 8u64) & 0xff00_0000u64) | ((x >> 24u64)
        & 0xff_0000u64) | ((x >> 40u64) & 0xff00u64) | (x >> 56u64)
}

/// Reversing the bytes twice gives the word back.
pub proof fn lemma_byte_swap_involutive(x: u64)
    ensures
        byte_swap(byte_swap(x)) == x,
{
    assert(byte_swap(byte_swap(x)) == x) by (bit_vector);
}

/// Reverses the bytes of a word.
fn swap_bytes(x: u64) -> (r: u64)
    ensures
        r == byte_swap(x),
{
    (x << 56u64) | ((x & 0xff00u64) << 40u64) | ((x & 0xff_0000u64) << 24u64) | ((x
        & 0xff00_0000u64) << 8u64) | ((x >> 8u64) & 0xff00_0000u64) | ((x >> 24u64)
        & 0xff_0000u64) | ((x >> 40u64) & 0xff00u64) | (x >> 56u64)
}

proof fn lemma_wmul_is_wrapping_mul(x: u64, y: u64)
    ensures
        x.wrapping_mul(y) == wmul(x, y),
{
}

proof fn lemma_wmul_commutes(x: u64, y: u64)
    ensures
        wmul(x, y) == wmul(y, x),
{
    lemma_mul_is_commutative(x as int, y as int);
}

proof fn lemma_wmul_associates(x: u64, y: u64, z: u64)
    ensures
        wmul(wmul(x, y), z) == wmul(x, wmul(y, z)),
{
    let m = word_modulus();
    lemma_mul_mod_noop_left(x as int * y as int, z as int, m);
    lemma_mul_mod_noop_right(x as int, y as int * z as int, m);
    lemma_mul_is_associative(x as int, y as int, z as int);
}

/// `x * c` is `x` again when `c` is 1 modulo 2^64.
proof fn lemma_wmul_one(x: u64, c: u64)
    requires
        c == 1,
    ensures
        wmul(x, c) == x,
{
}

/// Multiplying by `a b` and then by its inverse `c` gives the word back,
/// however the four factors are grouped.
proof fn lemma_cancel(t: u64, a: u64, b: u64, c: u64)
    requires
        wmul(wmul(a, b), c) == 1,
    ensures
        wmul(wmul(t, a), wmul(c, b)) == t,
        wmul(wmul(t, b), wmul(c, a)) == t,
{
    // t a (c b) = t (a (c b)) = t ((a b) c)
    lemma_wmul_associates(t, a, wmul(c, b));
    lemma_wmul_associates(a, c, b);
    lemma_wmul_commutes(c, b);
    lemma_wmul_associates(a, b, c);
    lemma_wmul_one(t, wmul(a, wmul(c, b)));
    // t b (c a) = t (b (c a)) = t ((a b) c)
    lemma_wmul_associates(t, b, wmul(c, a));
    lemma_wmul_associates(b, c, a);
    lemma_wmul_commutes(c, a);
    lemma_wmul_commutes(a, b);
    lemma_wmul_associates(b, a, c);
    lemma_wmul_one(t, wmul(b, wmul(c, a)));
}

/// A product modulo 2^64 is odd exactly when both factors are odd.
proof fn lemma_wmul_parity(x: u64, y: u64)
    ensures
        (wmul(x, y) % 2 == 1) <==> (x % 2 == 1 && y % 2 == 1),
{
    let m = word_modulus();
    lemma_mod_mod(x as int * y as int, 2, m / 2);
    lemma_mul_mod_noop(x as int, y as int, 2);
    assert((x as int % 2) * (y as int % 2) % 2 == 1 <==> (x % 2 == 1 && y % 2 == 1)) by {
        assert(x as int % 2 == 0 || x as int % 2 == 1);
        assert(y as int % 2 == 0 || y as int % 2 == 1);
    }
}

/// `wrapping_sub(1, p)` read as an integer modulo 2^64.
proof fn lemma_one_minus(p: u64)
    ensures
        1u64.wrapping_sub(p) as int == (1 - p as int) % word_modulus(),
{
    let m = word_modulus();
    if 1 - p as int >= 0 {
        lemma_small_mod((1 - p as int) as nat, m as nat);
    } else {
        lemma_mod_add_multiples_vanish(1 - p as int, m);
        lemma_small_mod((1 - p as int + m) as nat, m as nat);
    }
}

/// `wrapping_add(y, 1)` read as an integer modulo 2^64.
proof fn lemma_plus_one(y: u64)
    ensures
        y.wrapping_add(1) as int == (y as int + 1) % word_modulus(),
{
    let m = word_modulus();
    if y as int + 1 < m {
        lemma_small_mod((y as int + 1) as nat, m as nat);
    } else {
        assert(y as int + 1 == m);
        lemma_mod_self_0(m);
    }
}

/// One round of the inverse iteration: from `a x = 1 - y` it gives
/// `a (x (1 + y)) = 1 - y^2`, and a `y` divisible by `d` has a square
/// divisible by `d^2`.
proof fn lemma_newton_step(a: u64, x: u64, y: u64, d: int)
    requires
        wmul(a, x) == 1u64.wrapping_sub(y),
        d > 0,
        y as int % d == 0,
    ensures
        wmul(a, wmul(x, y.wrapping_add(1))) == 1u64.wrapping_sub(wmul(y, y)),
        (y as int * y as int) % (d * d) == 0,
{
    let m = word_modulus();
    let (ia, ix, iy) = (a as int, x as int, y as int);
    lemma_plus_one(y);
    lemma_one_minus(y);
    lemma_one_minus(wmul(y, y));
    // a (x ((y + 1) mod m)) = (a x) (y + 1) = (1 - y) (1 + y) = 1 - y^2  (mod m)
    lemma_mul_mod_noop_right(ix, iy + 1, m);
    lemma_mul_mod_noop_right(ia, ix * (iy + 1), m);
    lemma_mul_is_associative(ia, ix, iy + 1);
    lemma_mul_mod_noop_left(ia * ix, iy + 1, m);
    lemma_mul_mod_noop_left(1 - iy, iy + 1, m);
    assert((1 - iy) * (iy + 1) == 1 - iy * iy) by (nonlinear_arith);
    lemma_sub_mod_noop_right(1, iy * iy, m);
    // y = d q, so y^2 = d^2 q^2
    let q = iy / d;
    lemma_fundamental_div_mod(iy, d);
    assert(iy * iy == (d * d) * (q * q)) by (nonlinear_arith)
        requires
            iy == d * q,
    ;
    assert(d * d > 0) by (nonlinear_arith)
        requires
            d > 0,
    ;
    lemma_mod_multiples_basic(q * q, d * d);
    lemma_mul_is_commutative(q * q, d * d);
}

/// The low five bits of the starting guess are already right.
proof fn lemma_first_guess(a: u64)
    requires
        a % 2 == 1,
    ensures
        1u64.wrapping_sub(wmul(a, a.wrapping_mul(3) ^ 2)) as int % 32 == 0,
{
    let m = word_modulus();
    let w = wmul(a, 3);
    let x0 = w ^ 2;
    let p = wmul(a, x0);
    assert(m == 32 * 576460752303423488);
    // w = 3 a mod 2^64, so w = 3 a5 modulo 32, where a5 holds the low bits of a
    let a5 = (a % 32) as u64;
    let w5 = (w % 32) as u64;
    lemma_mod_mod(a as int * 3, 32, 576460752303423488);
    lemma_mul_mod_noop_left(a as int, 3, 32);
    assert(w5 == (a5 * 3) % 32);
    assert((x0 % 32) as u64 == w5 ^ 2) by (bit_vector)
        requires
            x0 == w ^ 2,
            w5 == w % 32,
    ;
    // p = a x0 mod 2^64, so p = a5 (w5 ^ 2) modulo 32
    lemma_mod_mod(a as int * x0 as int, 32, 576460752303423488);
    lemma_mul_mod_noop(a as int, x0 as int, 32);
    lemma_mod_mod(a as int, 2, 16);
    assert((a5 * (((a5 * 3) % 32) as u64 ^ 2)) % 32 == 1) by (bit_vector)
        requires
            a5 < 32,
            a5 % 2 == 1,
    ;
    assert(p % 32 == 1);
    lemma_wmul_is_wrapping_mul(a, 3);
    lemma_one_minus(p);
    lemma_mod_mod(1 - p as int, 32, 576460752303423488);
    lemma_sub_mod_noop_right(1, p as int, 32);
}

/// The residue of `y` modulo `e` is 0 when `y`, divided by the larger power `f`
/// that `e` divides, leaves 0.
proof fn lemma_divisible_mod_word(v: int, e: int)
    requires
        e > 0,
        word_modulus() % e == 0,
        v % e == 0,
    ensures
        (v % word_modulus()) % e == 0,
{
    let m = word_modulus();
    lemma_fundamental_div_mod(m, e);
    lemma_mod_mod(v, e, m / e);
}

/// Four rounds of a Newton-style iteration for the inverse of `a` modulo
/// 2^64, from a starting guess right in its low five bits; each round doubles
/// the number of right bits.
spec fn newton_inverse(a: u64) -> u64 {
    let x0 = a.wrapping_mul(3) ^ 2;
    let y0 = 1u64.wrapping_sub(a.wrapping_mul(x0));
    let x1 = x0.wrapping_mul(y0.wrapping_add(1));
    let y1 = y0.wrapping_mul(y0);
    let x2 = x1.wrapping_mul(y1.wrapping_add(1));
    let y2 = y1.wrapping_mul(y1);
    let x3 = x2.wrapping_mul(y2.wrapping_add(1));
    let y3 = y2.wrapping_mul(y2);
    x3.wrapping_mul(y3.wrapping_add(1))
}

proof fn lemma_newton_inverse(a: u64)
    requires
        a % 2 == 1,
    ensures
        wmul(a, newton_inverse(a)) == 1,
{
    let x0 = a.wrapping_mul(3) ^ 2;
    let y0 = 1u64.wrapping_sub(a.wrapping_mul(x0));
    let x1 = x0.wrapping_mul(y0.wrapping_add(1));
    let y1 = y0.wrapping_mul(y0);
    let x2 = x1.wrapping_mul(y1.wrapping_add(1));
    let y2 = y1.wrapping_mul(y1);
    let x3 = x2.wrapping_mul(y2.wrapping_add(1));
    let y3 = y2.wrapping_mul(y2);
    let m = word_modulus();
    lemma_first_guess(a);
    lemma_newton_step(a, x0, y0, 32);
    lemma_divisible_mod_word(y0 as int * y0 as int, 1024);
    lemma_newton_step(a, x1, y1, 1024);
    lemma_divisible_mod_word(y1 as int * y1 as int, 1048576);
    lemma_newton_step(a, x2, y2, 1048576);
    lemma_divisible_mod_word(y2 as int * y2 as int, 1099511627776);
    lemma_newton_step(a, x3, y3, 1099511627776);
    // y3^2 is divisible by 2^80, hence by 2^64: the last error term vanishes
    let e = 1099511627776int * 1099511627776int;
    assert(e == m * 65536);
    lemma_mod_mod(y3 as int * y3 as int, m, 65536);
    assert(wmul(y3, y3) == 0);
}

/// The multiplicative inverse of an odd word modulo 2^64.
fn invert_u64(a: u64) -> (r: u64)
    requires
        a % 2 == 1,
    ensures
        r == newton_inverse(a),
        wmul(a, r) == 1,
{
    let x = a.wrapping_mul(3) ^ 2;
    let y = 1u64.wrapping_sub(a.wrapping_mul(x));
    let x = x.wrapping_mul(y.wrapping_add(1));
    let y = y.wrapping_mul(y);
    let x = x.wrapping_mul(y.wrapping_add(1));
    let y = y.wrapping_mul(y);
    let x = x.wrapping_mul(y.wrapping_add(1));
    let y = y.wrapping_mul(y);
    let x = x.wrapping_mul(y.wrapping_add(1));
    proof {
        lemma_newton_inverse(a);
    }
    x
}

/// A reversible scrambler of 64-bit words, given by two odd multipliers.
#[derive(Clone, Copy)]
pub struct Mixer(u64, u64);

impl Mixer {
    /// The multiplier applied before the byte swap.
    pub closed spec fn first(self) -> u64 {
        self.0
    }

    /// The multiplier applied after the byte swap.
    pub closed spec fn second(self) -> u64 {
        self.1
    }

    /// Both multipliers are odd, which makes the mixer invertible.
    #[verifier::type_invariant]
    pub open spec fn valid(self) -> bool {
        self.first() % 2 == 1 && self.second() % 2 == 1
    }

    /// What the mixer makes of the word `x`.
    pub open spec fn mix(self, x: u64) -> u64 {
        wmul(byte_swap(wmul(x, self.first())), self.second())
    }

    /// The mixer that undoes this one.
    pub closed spec fn inverse(self) -> Mixer {
        Mixer(wmul(self.inverse_factor(), self.0), wmul(self.inverse_factor(), self.1))
    }

    /// The inverse of the product of the two multipliers modulo 2^64.
    pub closed spec fn inverse_factor(self) -> u64 {
        choose|c: u64| wmul(wmul(self.0, self.1), c) == 1
    }

    /// Builds a mixer from two seed words, forcing both multipliers odd.
    pub fn new(m: [u64; 2]) -> (r: Self)
        ensures
            r.first() == m[0] | 1,
            r.second() == m[1] | 1,
    {
        let m0 = m[0];
        let m1 = m[1];
        let a = m0 | 1;
        let b = m1 | 1;
        proof {
            assert(a % 2 == 1) by (bit_vector)
                requires
                    a == m0 | 1,
            ;
            assert(b % 2 == 1) by (bit_vector)
                requires
                    b == m1 | 1,
            ;
        }
        Mixer(a, b)
    }

    /// Scrambles a nonzero key into a nonzero fingerprint.
    pub fn hash(self, x: u64) -> (r: u64)
        requires
            x != 0,
        ensures
            r == self.mix(x),
            r != 0,
    {
        proof {
            use_type_invariant(&self);
            lemma_wmul_is_wrapping_mul(x, self.0);
        }
        let y = x.wrapping_mul(self.0);
        let y = swap_bytes(y);
        proof {
            lemma_wmul_is_wrapping_mul(y, self.1);
            lemma_mix_nonzero(self, x);
        }
        y.wrapping_mul(self.1)
    }

    /// The mixer whose `mix` undoes this one's.
    pub fn invert(self) -> (r: Self)
        ensures
            r == self.inverse(),
    {
        proof {
            use_type_invariant(&self);
            lemma_wmul_parity(self.0, self.1);
        }
        let a = self.0;
        let b = self.1;
        let c = invert_u64(a.wrapping_mul(b));
        proof {
            lemma_wmul_is_wrapping_mul(a, b);
            lemma_wmul_is_wrapping_mul(c, a);
            lemma_wmul_is_wrapping_mul(c, b);
            lemma_inverse_unique(self, c);
            lemma_inverse_valid(self);
        }
        Mixer(c.wrapping_mul(a), c.wrapping_mul(b))
    }
}

/// The inverse of `a b` modulo 2^64 is the one that `inverse` chooses.
proof fn lemma_inverse_unique(m: Mixer, c: u64)
    requires
        wmul(wmul(m.first(), m.second()), c) == 1,
    ensures
        m.inverse() == Mixer(wmul(c, m.first()), wmul(c, m.second())),
{
    let ab = wmul(m.first(), m.second());
    let c2 = m.inverse_factor();
    // both are inverses of ab, so c = c (ab c2) = (c ab) c2 = c2
    lemma_wmul_associates(c, ab, c2);
    lemma_wmul_commutes(c, ab);
    lemma_wmul_one(c, wmul(ab, c2));
    lemma_wmul_one(c2, wmul(c, ab));
    lemma_wmul_commutes(wmul(c, ab), c2);
}

/// The multiplier product of a valid mixer has an inverse, and the inverse
/// mixer is valid too.
proof fn lemma_inverse_valid(m: Mixer)
    requires
        m.valid(),
    ensures
        wmul(wmul(m.first(), m.second()), m.inverse_factor()) == 1,
        m.inverse().valid(),
        m.inverse() == Mixer(
            wmul(m.inverse_factor(), m.first()),
            wmul(m.inverse_factor(), m.second()),
        ),
{
    let ab = wmul(m.first(), m.second());
    lemma_wmul_parity(m.first(), m.second());
    lemma_newton_inverse(ab);
    let c2 = m.inverse_factor();
    assert(wmul(ab, c2) == 1);
    lemma_wmul_commutes(ab, c2);
    lemma_wmul_parity(c2, ab);
    lemma_wmul_parity(c2, m.first());
    lemma_wmul_parity(c2, m.second());
}

/// The inverse mixer undoes the mixer, and the mixer undoes its inverse:
/// `inverse.mix(mix(k)) == k` and `mix(inverse.mix(f)) == f` for every word.
pub proof fn lemma_mix_bijective(m: Mixer, x: u64)
    requires
        m.valid(),
    ensures
        m.inverse().mix(m.mix(x)) == x,
        m.mix(m.inverse().mix(x)) == x,
        m.inverse().valid(),
{
    lemma_inverse_valid(m);
    let (a, b, c) = (m.first(), m.second(), m.inverse_factor());
    // inverse.mix(mix(x)) = swap(swap(x a) b (c a)) (c b)
    let t = byte_swap(wmul(x, a));
    lemma_cancel(t, a, b, c);
    lemma_wmul_commutes(wmul(t, b), wmul(c, a));
    lemma_byte_swap_involutive(wmul(x, a));
    lemma_cancel(x, a, b, c);
    // mix(inverse.mix(x)) = swap(swap(x (c a)) (c b) a) b
    let u = byte_swap(wmul(x, wmul(c, a)));
    lemma_wmul_associates(u, wmul(c, b), a);
    lemma_wmul_commutes(wmul(c, b), a);
    lemma_wmul_associates(u, a, wmul(c, b));
    lemma_cancel(u, a, b, c);
    lemma_byte_swap_involutive(wmul(x, wmul(c, a)));
    lemma_wmul_associates(x, wmul(c, a), b);
    lemma_wmul_commutes(wmul(c, a), b);
    lemma_wmul_associates(x, b, wmul(c, a));
}

/// A valid mixer never turns a nonzero key into the empty-slot sentinel 0.
pub proof fn lemma_mix_nonzero(m: Mixer, x: u64)
    requires
        m.valid(),
        x != 0,
    ensures
        m.mix(x) != 0,
{
    lemma_mix_bijective(m, x);
    assert(byte_swap(0) == 0) by (bit_vector);
    assert(m.inverse().mix(0) == 0);
}

/// Inverting a mixer twice gives it back.
pub proof fn lemma_inverse_involutive(m: Mixer)
    requires
        m.valid(),
    ensures
        m.inverse().inverse() == m,
{
    lemma_inverse_valid(m);
    let (a, b, c) = (m.first(), m.second(), m.inverse_factor());
    let n = m.inverse();
    lemma_inverse_valid(n);
    let (ca, cb) = (wmul(c, a), wmul(c, b));
    // (c a)(c b) = c ((a b) c) = c, whose inverse is a b
    lemma_wmul_associates(ca, c, b);
    lemma_wmul_associates(c, a, c);
    lemma_wmul_commutes(a, c);
    lemma_wmul_associates(c, c, a);
    lemma_wmul_associates(wmul(c, c), a, b);
    lemma_wmul_associates(c, c, wmul(a, b));
    lemma_wmul_commutes(c, wmul(a, b));
    lemma_wmul_one(c, wmul(wmul(a, b), c));
    assert(wmul(ca, cb) == c);
    let ab = wmul(a, b);
    lemma_wmul_commutes(ab, c);
    lemma_inverse_unique(n, ab);
    // (a b)(c a) = a ((a b) c) ... = a, and likewise b
    lemma_cancel(a, a, b, c);
    lemma_cancel(b, a, b, c);
    lemma_wmul_associates(ab, c, a);
    lemma_wmul_one(a, wmul(ab, c));
    lemma_wmul_commutes(wmul(ab, c), a);
    lemma_wmul_associates(ab, c, b);
    lemma_wmul_commutes(wmul(ab, c), b);
}

} // verus!
