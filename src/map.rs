//! An ordered open-addressing hash map keyed by nonzero 64-bit integers.
//!
//! The table is one vector of slots. A slot holds a fingerprint (the mixed
//! key) and a value; fingerprint 0 marks an empty slot. The table has a core
//! of `2^(64 - shift)` slots followed by an overflow tail. A fingerprint `h`
//! has its home at index `core - 1 - (h >> shift)`, so larger fingerprints
//! live nearer the front. Across the whole table the occupied slots hold
//! strictly decreasing fingerprints, every entry sits at or after its home,
//! and no empty slot lies between an entry and its home. Lookups walk
//! forward from the home while the fingerprint there is larger than the one
//! sought; insertion shifts the rest of a run one slot on; removal shifts it
//! one slot back, so no tombstones are needed.
//!
//! The table grows along two axes: the core doubles when the entries would
//! fill half of it, and the tail doubles when an entry is pushed into the
//! last slot. Growth rehashes in one forward pass with a write cursor that
//! only advances.

use crate::mixer::{lemma_mix_bijective, lemma_mix_nonzero, Mixer};
use crate::rng::{next_state, output, Rng};
use vstd::prelude::*;

pub mod internal;

verus! {


/// The shift of a fresh table, whose core has 2^4 slots.
const INITIAL_SHIFT: u64 = 60;

/// The core size of a freshly allocated table.
const INITIAL_CORE: usize = 16;

/// The tail size of a freshly allocated table.
const INITIAL_TAIL: usize = 8;

/// How many entries a fresh table takes before its core doubles.
const INITIAL_SPACE: usize = 8;

/// No map holds more entries than this, whatever the size of its values.
const CAPACITY_LIMIT: usize = usize::MAX / 32;

/// One slot of the table: a fingerprint and, when it is nonzero, a value.
struct Slot<A> {
    hash: u64,
    value: Option<A>,
}

/// A hash map from nonzero 64-bit keys to values of type `A`.
pub struct HashMapNZ64<A> {
    mixer: Mixer,
    table: Vec<Slot<A>>,
    shift: u64,
    space: usize,
    keys: Ghost<Set<u64>>,
}

// ---------------------------------------------------------------------------
// Geometry
// ---------------------------------------------------------------------------

/// The number of core slots, `2^(64 - shift)`.
pub open spec fn core_len(shift: u64) -> int {
    (1u64 << ((64 - shift) as u64)) as int
}

/// Half the number of core slots: the most entries the core may hold.
pub open spec fn half_core(shift: u64) -> int {
    (1u64 << ((63 - shift) as u64)) as int
}

/// The home index of fingerprint `h`.
pub open spec fn home(shift: u64, h: u64) -> int {
    core_len(shift) - 1 - (h >> shift) as int
}

proof fn lemma_core(shift: u64)
    requires
        3 <= shift <= 60,
    ensures
        core_len(shift) == 2 * half_core(shift),
        16 <= core_len(shift) <= 0x2000_0000_0000_0000,
        shift >= 4 ==> core_len((shift - 1) as u64) == 2 * core_len(shift),
{
    let a = 1u64 << ((64 - shift) as u64);
    let b = 1u64 << ((63 - shift) as u64);
    assert(a == 2 * b && 16 <= a <= 0x2000_0000_0000_0000) by (bit_vector)
        requires
            3 <= shift <= 60,
            a == 1u64 << ((64 - shift) as u64),
            b == 1u64 << ((63 - shift) as u64),
    ;
    if shift >= 4 {
        let c = 1u64 << ((64 - (shift - 1)) as u64);
        assert(c == 2 * a) by (bit_vector)
            requires
                4 <= shift <= 60,
                a == 1u64 << ((64 - shift) as u64),
                c == 1u64 << ((64 - (shift - 1)) as u64),
        ;
    }
}

/// The tail has 8 * 2^k slots for some `k`.
pub open spec fn tail_size(e: int) -> bool
    decreases e,
{
    if e <= 8 {
        e == 8
    } else {
        e % 2 == 0 && tail_size(e / 2)
    }
}

/// A tail of the right shape has at least 8 slots, and doubling it keeps
/// its shape.
proof fn lemma_tail_double(e: int)
    requires
        tail_size(e),
    ensures
        e >= 8,
        tail_size(2 * e),
{
    reveal_with_fuel(tail_size, 2);
}

/// A fresh table has a core of 16 slots, which takes 8 entries.
proof fn lemma_initial_core()
    ensures
        core_len(INITIAL_SHIFT) == INITIAL_CORE,
        half_core(INITIAL_SHIFT) == INITIAL_SPACE,
        INITIAL_CORE <= 4 * CAPACITY_LIMIT,
{
    assert((1u64 << 4u64) == 16 && (1u64 << 3u64) == 8) by (bit_vector);
}

/// Every fingerprint has its home inside the core.
proof fn lemma_home_in_core(shift: u64, h: u64)
    requires
        3 <= shift <= 60,
    ensures
        0 <= home(shift, h) < core_len(shift),
{
    let a = 1u64 << ((64 - shift) as u64);
    assert(h >> shift < a) by (bit_vector)
        requires
            3 <= shift <= 60,
            a == 1u64 << ((64 - shift) as u64),
    ;
}

/// Larger fingerprints have their homes no later.
proof fn lemma_home_monotone(shift: u64, h1: u64, h2: u64)
    requires
        h1 >= h2,
    ensures
        home(shift, h1) <= home(shift, h2),
{
    assert(h1 >> shift >= h2 >> shift) by (bit_vector)
        requires
            h1 >= h2,
    ;
}

/// With one more bit of core, a home moves at most one core length on.
proof fn lemma_home_refined(shift: u64, h: u64)
    requires
        4 <= shift <= 60,
    ensures
        home((shift - 1) as u64, h) <= home(shift, h) + core_len(shift),
{
    lemma_core(shift);
    lemma_home_in_core(shift, h);
    let s1 = (shift - 1) as u64;
    assert(h >> s1 >= 2 * (h >> shift)) by (bit_vector)
        requires
            4 <= shift <= 60,
            s1 == shift - 1,
    ;
}

// ---------------------------------------------------------------------------
// The table invariant
// ---------------------------------------------------------------------------

/// A slot is empty exactly when its fingerprint is 0.
spec fn slot_ok<A>(s: Slot<A>) -> bool {
    (s.hash == 0) == (s.value is None)
}

/// The ordering of a table: slots are consistent, occupied fingerprints
/// strictly decrease, each entry sits at or after its home, and no empty slot
/// lies between an entry and its home.
#[verifier::opaque]
spec fn ordered<A>(t: Seq<Slot<A>>, shift: u64) -> bool {
    &&& forall|i: int| 0 <= i < t.len() ==> slot_ok(#[trigger] t[i])
    &&& forall|i: int, j: int|
        #![trigger t[i], t[j]]
        0 <= i < j < t.len() && t[i].hash != 0 && t[j].hash != 0 ==> t[i].hash > t[j].hash
    &&& forall|i: int| 0 <= i < t.len() && #[trigger] t[i].hash != 0 ==> home(shift, t[i].hash) <= i
    &&& forall|i: int, k: int|
        #![trigger t[i], t[k]]
        0 <= k <= i < t.len() && t[i].hash != 0 && home(shift, t[i].hash) <= k ==> t[k].hash != 0
}

/// The key stored under fingerprint `h`.
pub open spec fn key_of(m: Mixer, h: u64) -> u64 {
    m.inverse().mix(h)
}

/// The table holds exactly the keys of `keys`, each under its fingerprint.
#[verifier::opaque]
spec fn holds<A>(t: Seq<Slot<A>>, m: Mixer, keys: Set<u64>) -> bool {
    &&& forall|i: int|
        0 <= i < t.len() && #[trigger] t[i].hash != 0 ==> keys.contains(key_of(m, t[i].hash))
    &&& forall|k: u64|
        #[trigger] keys.contains(k) ==> exists|i: int| 0 <= i < t.len() && t[i].hash == m.mix(k)
}

/// The index of the slot holding fingerprint `h`.
spec fn index_of<A>(t: Seq<Slot<A>>, h: u64) -> int {
    choose|i: int| 0 <= i < t.len() && t[i].hash == h
}

/// The value stored under fingerprint `h`.
spec fn value_at<A>(t: Seq<Slot<A>>, h: u64) -> A {
    t[index_of(t, h)].value->0
}

/// In an ordered table a nonzero fingerprint occupies one slot only.
proof fn lemma_index_of<A>(t: Seq<Slot<A>>, shift: u64, i: int)
    requires
        ordered(t, shift),
        0 <= i < t.len(),
        t[i].hash != 0,
    ensures
        index_of(t, t[i].hash) == i,
{
    reveal(ordered);
    let j = index_of(t, t[i].hash);
    assert(0 <= j < t.len() && t[j].hash == t[i].hash);
    if j < i {
        assert(t[j].hash > t[i].hash);
    } else if j > i {
        assert(t[i].hash > t[j].hash);
    }
}

/// The table `t` with `s` put at `p` and the slots `p..q` moved one on,
/// over the empty slot at `q`.
spec fn shifted<A>(t: Seq<Slot<A>>, p: int, q: int, s: Slot<A>) -> Seq<Slot<A>> {
    Seq::new(
        t.len(),
        |k: int|
            if k < p || k > q {
                t[k]
            } else if k == p {
                s
            } else {
                t[k - 1]
            },
    )
}

/// Puts `s` at index `p` and moves the run that starts there one slot on,
/// up to the first empty slot, whose index it returns.
fn shift_in<A>(table: &mut Vec<Slot<A>>, p: usize, s: Slot<A>) -> (q: usize)
    requires
        p < old(table)@.len(),
        old(table)@.last().hash == 0,
    ensures
        p <= q < old(table)@.len(),
        final(table)@ == shifted(old(table)@, p as int, q as int, s),
        old(table)@[q as int].hash == 0,
        forall|k: int| p <= k < q ==> #[trigger] old(table)@[k].hash != 0,
{
    let ghost t0 = table@;
    let ghost gs = s;
    let n = table.len();
    let mut o = s;
    std::mem::swap(&mut o, &mut table[p]);
    let mut q = p;
    assert(table@ =~= shifted(t0, p as int, q as int, gs));
    while o.hash != 0
        invariant
            n == t0.len(),
            table@.len() == n,
            p <= q < n,
            t0[n - 1].hash == 0,
            table@ == shifted(t0, p as int, q as int, gs),
            o == t0[q as int],
            forall|k: int| p <= k < q ==> #[trigger] t0[k].hash != 0,
        decreases n - q,
    {
        q = q + 1;
        std::mem::swap(&mut o, &mut table[q]);
        assert(table@ =~= shifted(t0, p as int, q as int, gs));
    }
    q
}

/// Placing a fingerprint where the probe for it stopped, and moving the run
/// behind it one slot on, keeps a table ordered.
proof fn lemma_insert_ordered<A>(t: Seq<Slot<A>>, shift: u64, p: int, q: int, s: Slot<A>)
    requires
        ordered(t, shift),
        s.hash != 0,
        s.value is Some,
        0 <= home(shift, s.hash) <= p <= q < t.len(),
        forall|k: int| home(shift, s.hash) <= k < p ==> #[trigger] t[k].hash > s.hash,
        t[p].hash < s.hash,
        t[q].hash == 0,
        forall|k: int| p <= k < q ==> #[trigger] t[k].hash != 0,
    ensures
        ordered(shifted(t, p, q, s), shift),
{
    reveal(ordered);
    let t2 = shifted(t, p, q, s);
    let h = s.hash;
    assert forall|i: int, j: int|
        #![trigger t2[i], t2[j]]
        0 <= i < j < t2.len() && t2[i].hash != 0 && t2[j].hash != 0 implies t2[i].hash
        > t2[j].hash by {
        let oi = if i < p || i > q { i } else { i - 1 };
        let oj = if j < p || j > q { j } else { j - 1 };
        if i == p {
            // everything after the new entry is smaller than it
            if oj == p {
            } else if t[p].hash != 0 {
                assert(t[p].hash > t[oj].hash);
            } else {
                if t[oj].hash >= h {
                    lemma_home_monotone(shift, t[oj].hash, h);
                    assert(t[p].hash != 0);
                }
            }
        } else if j == p {
            // everything before it is larger
            if i < home(shift, h) {
                if t[i].hash <= h {
                    lemma_home_monotone(shift, h, t[i].hash);
                }
            }
        } else {
            assert(oi < oj);
            assert(t[oi].hash > t[oj].hash);
        }
    }
    assert forall|i: int, k: int|
        #![trigger t2[i], t2[k]]
        0 <= k <= i < t2.len() && t2[i].hash != 0 && home(shift, t2[i].hash) <= k implies t2[k].hash
        != 0 by {
        if i == p {
            if k < p {
                assert(t[k].hash > h);
            }
        } else if p < i <= q {
            if k < p {
                assert(t[i - 1].hash != 0 && home(shift, t[i - 1].hash) <= k);
                assert(t[k].hash != 0);
            } else if k > p {
                assert(t[k - 1].hash != 0);
            }
        } else if i > q {
            if k <= q {
                assert(t[q].hash != 0);
            }
        }
    }
    assert forall|i: int| 0 <= i < t2.len() && #[trigger] t2[i].hash != 0 implies home(
        shift,
        t2[i].hash,
    ) <= i by {
        if p < i <= q {
            assert(t[i - 1].hash != 0);
        }
    }
    assert forall|i: int| 0 <= i < t2.len() implies slot_ok(#[trigger] t2[i]) by {
        if p < i <= q {
            assert(slot_ok(t[i - 1]));
        } else if i != p {
            assert(slot_ok(t[i]));
        }
    }
}

/// A run of occupied slots is no longer than the number of keys.
proof fn lemma_run_bound<A>(t: Seq<Slot<A>>, shift: u64, m: Mixer, keys: Set<u64>, i: int)
    requires
        ordered(t, shift),
        holds(t, m, keys),
        keys.finite(),
        m.valid(),
        0 <= i < t.len(),
        t[i].hash != 0,
        3 <= shift <= 60,
    ensures
        i - home(shift, t[i].hash) + 1 <= keys.len(),
{
    reveal(ordered);
    reveal(holds);
    let lo = home(shift, t[i].hash);
    lemma_home_in_core(shift, t[i].hash);
    let ks = Seq::new((i - lo + 1) as nat, |j: int| key_of(m, t[lo + j].hash));
    assert forall|j1: int, j2: int| 0 <= j1 < ks.len() && 0 <= j2 < ks.len() && j1 != j2 implies ks[j1]
        != ks[j2] by {
        assert(t[lo + j1].hash != 0 && t[lo + j2].hash != 0);
        if j1 < j2 {
            assert(t[lo + j1].hash > t[lo + j2].hash);
        } else {
            assert(t[lo + j2].hash > t[lo + j1].hash);
        }
        lemma_mix_bijective(m, t[lo + j1].hash);
        lemma_mix_bijective(m, t[lo + j2].hash);
    }
    assert(ks.no_duplicates());
    assert forall|k: u64| ks.to_set().contains(k) implies keys.contains(k) by {
        let j = choose|j: int| 0 <= j < ks.len() && ks[j] == k;
        assert(t[lo + j].hash != 0);
    }
    ks.unique_seq_to_set();
    vstd::set_lib::lemma_len_subset(ks.to_set(), keys);
}

/// After an insertion of a new key, the table holds the old keys and the new
/// one.
#[verifier::rlimit(40)]
proof fn lemma_insert_holds<A>(
    t: Seq<Slot<A>>,
    shift: u64,
    m: Mixer,
    keys: Set<u64>,
    p: int,
    q: int,
    s: Slot<A>,
    key: u64,
)
    requires
        holds(t, m, keys),
        m.valid(),
        key != 0,
        !keys.contains(key),
        !keys.contains(0),
        s.hash == m.mix(key),
        0 <= p <= q < t.len(),
        t[q].hash == 0,
        forall|k: int| p <= k < q ==> #[trigger] t[k].hash != 0,
    ensures
        holds(shifted(t, p, q, s), m, keys.insert(key)),
{
    reveal(holds);
    let t2 = shifted(t, p, q, s);
    lemma_mix_bijective(m, key);
    lemma_mix_nonzero(m, key);
    assert forall|i: int| 0 <= i < t2.len() && #[trigger] t2[i].hash != 0 implies keys.insert(
        key,
    ).contains(key_of(m, t2[i].hash)) by {
        if p < i <= q {
            assert(t[i - 1].hash != 0);
        } else if i != p {
            assert(t[i].hash != 0);
        }
    }
    assert forall|k: u64| #[trigger] keys.insert(key).contains(k) implies exists|i: int|
        0 <= i < t2.len() && t2[i].hash == m.mix(k) by {
        if k == key {
            assert(t2[p].hash == m.mix(k));
        } else {
            let i = choose|i: int| 0 <= i < t.len() && t[i].hash == m.mix(k);
            lemma_mix_nonzero(m, k);
            if i < p || i > q {
                assert(t2[i].hash == m.mix(k));
            } else {
                assert(t2[i + 1].hash == m.mix(k));
            }
        }
    }
}

/// After an insertion of a new key, the new key has the value it was given
/// and every old key keeps its value.
#[verifier::rlimit(40)]
proof fn lemma_insert_values<A>(
    t: Seq<Slot<A>>,
    shift: u64,
    m: Mixer,
    keys: Set<u64>,
    p: int,
    q: int,
    s: Slot<A>,
    key: u64,
)
    requires
        ordered(t, shift),
        holds(t, m, keys),
        m.valid(),
        !keys.contains(0),
        s.hash == m.mix(key),
        s.hash != 0,
        0 <= p <= q < t.len(),
        t[q].hash == 0,
        ordered(shifted(t, p, q, s), shift),
    ensures
        value_at(shifted(t, p, q, s), m.mix(key)) == s.value->0,
        forall|k: u64|
            #[trigger] keys.contains(k) ==> value_at(shifted(t, p, q, s), m.mix(k)) == value_at(
                t,
                m.mix(k),
            ),
{
    let t2 = shifted(t, p, q, s);
    lemma_index_of(t2, shift, p);
    assert forall|k: u64| #[trigger] keys.contains(k) implies value_at(t2, m.mix(k)) == value_at(
        t,
        m.mix(k),
    ) by {
        reveal(holds);
        let i = choose|i: int| 0 <= i < t.len() && t[i].hash == m.mix(k);
        lemma_mix_nonzero(m, k);
        lemma_index_of(t, shift, i);
        if i < p || i > q {
            lemma_index_of(t2, shift, i);
        } else {
            assert(t2[i + 1] == t[i]);
            lemma_index_of(t2, shift, i + 1);
        }
    }
}

/// Giving an entry a new value keeps the table ordered and holding the same
/// keys; every other key keeps its value.
proof fn lemma_update_value<A>(t: Seq<Slot<A>>, shift: u64, m: Mixer, keys: Set<u64>, p: int, v: A)
    requires
        ordered(t, shift),
        holds(t, m, keys),
        m.valid(),
        !keys.contains(0),
        0 <= p < t.len(),
        t[p].hash != 0,
    ensures
        ordered(t.update(p, Slot { hash: t[p].hash, value: Some(v) }), shift),
        holds(t.update(p, Slot { hash: t[p].hash, value: Some(v) }), m, keys),
        value_at(t.update(p, Slot { hash: t[p].hash, value: Some(v) }), t[p].hash) == v,
        forall|k: u64|
            #[trigger] keys.contains(k) && m.mix(k) != t[p].hash ==> value_at(
                t.update(p, Slot { hash: t[p].hash, value: Some(v) }),
                m.mix(k),
            ) == value_at(t, m.mix(k)),
{
    reveal(ordered);
    reveal(holds);
    let t2 = t.update(p, Slot { hash: t[p].hash, value: Some(v) });
    assert forall|i: int| 0 <= i < t2.len() implies slot_ok(#[trigger] t2[i]) by {
        assert(slot_ok(t[i]));
    }
    assert forall|i: int, j: int|
        #![trigger t2[i], t2[j]]
        0 <= i < j < t2.len() && t2[i].hash != 0 && t2[j].hash != 0 implies t2[i].hash
        > t2[j].hash by {
        assert(t[i].hash > t[j].hash);
    }
    assert forall|i: int, k: int|
        #![trigger t2[i], t2[k]]
        0 <= k <= i < t2.len() && t2[i].hash != 0 && home(shift, t2[i].hash) <= k implies t2[k].hash
        != 0 by {
        assert(t[k].hash != 0);
    }
    assert forall|i: int| 0 <= i < t2.len() && #[trigger] t2[i].hash != 0 implies home(
        shift,
        t2[i].hash,
    ) <= i by {
        assert(t[i].hash != 0);
    }
    assert forall|i: int| 0 <= i < t2.len() && #[trigger] t2[i].hash != 0 implies keys.contains(
        key_of(m, t2[i].hash),
    ) by {
        assert(t[i].hash != 0);
    }
    assert forall|k: u64| #[trigger] keys.contains(k) implies exists|i: int|
        0 <= i < t2.len() && t2[i].hash == m.mix(k) by {
        let i = choose|i: int| 0 <= i < t.len() && t[i].hash == m.mix(k);
        assert(t2[i].hash == m.mix(k));
    }
    lemma_index_of(t2, shift, p);
    assert forall|k: u64| #[trigger] keys.contains(k) && m.mix(k) != t[p].hash implies value_at(
        t2,
        m.mix(k),
    ) == value_at(t, m.mix(k)) by {
        let i = choose|i: int| 0 <= i < t.len() && t[i].hash == m.mix(k);
        lemma_mix_nonzero(m, k);
        lemma_index_of(t, shift, i);
        lemma_index_of(t2, shift, i);
    }
}

/// Every occupied slot among the first `j` of `f` holds a larger
/// fingerprint than every occupied slot of `t` from index `i` on.
#[verifier::opaque]
spec fn all_above<A>(f: Seq<Slot<A>>, j: int, t: Seq<Slot<A>>, i: int) -> bool {
    forall|k: int, l: int|
        #![trigger f[k], t[l]]
        0 <= k < j && i <= l < t.len() && f[k].hash != 0 && t[l].hash != 0 ==> f[k].hash > t[l].hash
}

/// The slots of `f` from index `j` on are empty.
#[verifier::opaque]
spec fn empty_from<A>(f: Seq<Slot<A>>, j: int) -> bool {
    forall|k: int| j <= k < f.len() ==> (#[trigger] f[k]).hash == 0 && f[k].value is None
}

/// One step of the rehash: the next entry of the old table goes to the write
/// cursor or to its home, whichever is later, and the new table stays
/// ordered.
proof fn lemma_rehash_place<A>(
    f0: Seq<Slot<A>>,
    shift: u64,
    t0: Seq<Slot<A>>,
    old_shift: u64,
    i: int,
    j0: int,
    j: int,
)
    requires
        ordered(f0, shift),
        ordered(t0, old_shift),
        0 <= i < t0.len(),
        t0[i].hash != 0,
        0 <= j0 <= j < f0.len(),
        empty_from(f0, j0),
        j0 > 0 ==> f0[j0 - 1].hash != 0,
        all_above(f0, j0, t0, i),
        j == j0 || j == home(shift, t0[i].hash),
        home(shift, t0[i].hash) <= j,
    ensures
        ordered(f0.update(j, t0[i]), shift),
        all_above(f0.update(j, t0[i]), j + 1, t0, i + 1),
        empty_from(f0.update(j, t0[i]), j + 1),
{
    reveal(ordered);
    reveal(all_above);
    reveal(empty_from);
    let f = f0.update(j, t0[i]);
    let x = t0[i].hash;
    assert forall|a: int, b: int|
        #![trigger f[a], f[b]]
        0 <= a < b < f.len() && f[a].hash != 0 && f[b].hash != 0 implies f[a].hash > f[b].hash by {
        if b == j {
            assert(f0[a].hash != 0);
        } else if a != j {
            assert(f0[a].hash > f0[b].hash);
        }
    }
    assert forall|a: int, k: int|
        #![trigger f[a], f[k]]
        0 <= k <= a < f.len() && f[a].hash != 0 && home(shift, f[a].hash) <= k implies f[k].hash
        != 0 by {
        if a == j && k < j {
            let y = f0[j0 - 1].hash;
            assert(y > x);
            lemma_home_monotone(shift, y, x);
            assert(f0[k].hash != 0);
        } else if a != j {
            assert(f0[a].hash != 0);
            assert(f0[k].hash != 0);
        }
    }
    assert forall|a: int| 0 <= a < f.len() && #[trigger] f[a].hash != 0 implies home(
        shift,
        f[a].hash,
    ) <= a by {
        if a != j {
            assert(f0[a].hash != 0);
        }
    }
    assert forall|a: int| 0 <= a < f.len() implies slot_ok(#[trigger] f[a]) by {
        if a != j {
            assert(slot_ok(f0[a]));
        } else {
            assert(slot_ok(t0[i]));
        }
    }
    assert forall|k: int, l: int|
        #![trigger f[k], t0[l]]
        0 <= k < j + 1 && i + 1 <= l < t0.len() && f[k].hash != 0 && t0[l].hash != 0 implies f[k].hash
        > t0[l].hash by {
        if k == j {
            assert(t0[i].hash > t0[l].hash);
        } else {
            assert(f0[k].hash != 0);
            assert(f0[k].hash > t0[l].hash);
        }
    }
}

/// When the rehash has placed every entry, the new table holds the same keys
/// with the same values.
proof fn lemma_rehash_done<A>(
    f: Seq<Slot<A>>,
    shift: u64,
    t0: Seq<Slot<A>>,
    old_shift: u64,
    m: Mixer,
    keys: Set<u64>,
    pos: Seq<int>,
)
    requires
        ordered(f, shift),
        ordered(t0, old_shift),
        holds(t0, m, keys),
        m.valid(),
        !keys.contains(0),
        forall|k: int|
            0 <= k < f.len() && #[trigger] f[k].hash != 0 ==> keys.contains(key_of(m, f[k].hash)),
        pos.len() == t0.len(),
        forall|l: int|
            0 <= l < t0.len() && #[trigger] t0[l].hash != 0 ==> 0 <= pos[l] < f.len() && f[pos[l]]
                == t0[l],
    ensures
        holds(f, m, keys),
        forall|k: u64| #[trigger] keys.contains(k) ==> value_at(f, m.mix(k)) == value_at(t0, m.mix(k)),
{
    reveal(holds);
    assert forall|k: u64| #[trigger] keys.contains(k) implies exists|a: int|
        0 <= a < f.len() && f[a].hash == m.mix(k) by {
        let l = choose|l: int| 0 <= l < t0.len() && t0[l].hash == m.mix(k);
        lemma_mix_nonzero(m, k);
        assert(f[pos[l]] == t0[l]);
    }
    assert forall|k: u64| #[trigger] keys.contains(k) implies value_at(f, m.mix(k)) == value_at(
        t0,
        m.mix(k),
    ) by {
        let l = choose|l: int| 0 <= l < t0.len() && t0[l].hash == m.mix(k);
        lemma_mix_nonzero(m, k);
        lemma_index_of(t0, old_shift, l);
        lemma_index_of(f, shift, pos[l]);
    }
}

/// The home index of fingerprint `h`.
fn home_of(shift: u64, h: u64) -> (r: usize)
    requires
        3 <= shift <= 60,
        core_len(shift) <= 4 * CAPACITY_LIMIT,
    ensures
        r == home(shift, h),
{
    proof {
        lemma_core(shift);
        lemma_home_in_core(shift, h);
    }
    let core = 1u64 << (64 - shift);
    (core - 1 - (h >> shift)) as usize
}

/// The table `t` with the entry at `p` taken out and the slots after it up to
/// `r` moved one back, leaving `r` empty.
spec fn unshifted<A>(t: Seq<Slot<A>>, p: int, r: int) -> Seq<Slot<A>> {
    Seq::new(
        t.len(),
        |k: int|
            if k < p || k > r {
                t[k]
            } else if k < r {
                t[k + 1]
            } else {
                Slot { hash: 0, value: None }
            },
    )
}

/// Takes the entry at `p` out and moves each following entry one slot back
/// for as long as that keeps it at or after its home. Returns the index left
/// empty and the entry taken out.
fn shift_out<A>(table: &mut Vec<Slot<A>>, shift: u64, p: usize) -> (res: (usize, Slot<A>))
    requires
        3 <= shift <= 60,
        core_len(shift) <= 4 * CAPACITY_LIMIT,
        p < old(table)@.len(),
        old(table)@[p as int].hash != 0,
        old(table)@.last().hash == 0,
    ensures
        res.1 == old(table)@[p as int],
        p <= res.0 < old(table)@.len() - 1,
        final(table)@ == unshifted(old(table)@, p as int, res.0 as int),
        forall|k: int|
            p < k <= res.0 ==> #[trigger] old(table)@[k].hash != 0 && home(shift, old(table)@[k].hash)
                <= k - 1,
        old(table)@[res.0 + 1].hash == 0 || home(shift, old(table)@[res.0 + 1].hash) > res.0,
{
    let ghost t0 = table@;
    let n = table.len();
    let mut e = Slot { hash: 0, value: None };
    std::mem::swap(&mut e, &mut table[p]);
    let mut at = p;
    assert(table@ =~= unshifted(t0, p as int, at as int));
    loop
        invariant
            n == t0.len(),
            table@.len() == n,
            p <= at < n - 1,
            t0[n - 1].hash == 0,
            3 <= shift <= 60,
            core_len(shift) <= 4 * CAPACITY_LIMIT,
            table@ == unshifted(t0, p as int, at as int),
            e == t0[p as int],
            forall|k: int|
                p < k <= at ==> #[trigger] t0[k].hash != 0 && home(shift, t0[k].hash) <= k - 1,
        ensures
            p <= at < n - 1,
            table@ == unshifted(t0, p as int, at as int),
            e == t0[p as int],
            forall|k: int|
                p < k <= at ==> #[trigger] t0[k].hash != 0 && home(shift, t0[k].hash) <= k - 1,
            t0[at + 1].hash == 0 || home(shift, t0[at + 1].hash) > at,
        decreases n - at,
    {
        let q = at + 1;
        let x = table[q].hash;
        if x == 0 || at < home_of(shift, x) {
            break;
        }
        let mut tmp = Slot { hash: 0, value: None };
        std::mem::swap(&mut tmp, &mut table[q]);
        std::mem::swap(&mut tmp, &mut table[at]);
        at = q;
        assert(table@ =~= unshifted(t0, p as int, at as int));
    }
    (at, e)
}

/// Taking an entry out and moving the entries behind it back keeps a table
/// ordered.
proof fn lemma_remove_ordered<A>(t: Seq<Slot<A>>, shift: u64, p: int, r: int)
    requires
        ordered(t, shift),
        0 <= p <= r < t.len() - 1,
        forall|k: int| p < k <= r ==> #[trigger] t[k].hash != 0 && home(shift, t[k].hash) <= k - 1,
        t[r + 1].hash == 0 || home(shift, t[r + 1].hash) > r,
    ensures
        ordered(unshifted(t, p, r), shift),
{
    reveal(ordered);
    let t2 = unshifted(t, p, r);
    assert forall|i: int| 0 <= i < t2.len() implies slot_ok(#[trigger] t2[i]) by {
        if p <= i < r {
            assert(slot_ok(t[i + 1]));
        } else if i != r {
            assert(slot_ok(t[i]));
        }
    }
    assert forall|i: int, j: int|
        #![trigger t2[i], t2[j]]
        0 <= i < j < t2.len() && t2[i].hash != 0 && t2[j].hash != 0 implies t2[i].hash
        > t2[j].hash by {
        let oi = if p <= i < r { i + 1 } else { i };
        let oj = if p <= j < r { j + 1 } else { j };
        assert(t[oi].hash > t[oj].hash);
    }
    assert forall|i: int| 0 <= i < t2.len() && #[trigger] t2[i].hash != 0 implies home(
        shift,
        t2[i].hash,
    ) <= i by {
        if p <= i < r {
            assert(t[i + 1].hash != 0);
        } else {
            assert(t[i].hash != 0);
        }
    }
    assert forall|i: int, k: int|
        #![trigger t2[i], t2[k]]
        0 <= k <= i < t2.len() && t2[i].hash != 0 && home(shift, t2[i].hash) <= k implies t2[k].hash
        != 0 by {
        if i < p {
            assert(t[k].hash != 0);
        } else if i < r {
            if k < p {
                assert(t[i + 1].hash != 0);
                assert(t[k].hash != 0);
            } else {
                assert(t[k + 1].hash != 0);
            }
        } else if i > r {
            if k <= r {
                assert(t[i].hash != 0);
                assert(t[r + 1].hash != 0);
                if i > r + 1 {
                    assert(t[r + 1].hash > t[i].hash);
                    lemma_home_monotone(shift, t[r + 1].hash, t[i].hash);
                }
            } else {
                assert(t[i].hash != 0);
            }
        }
    }
}

/// After a removal the table holds the other keys.
#[verifier::rlimit(40)]
proof fn lemma_remove_holds<A>(
    t: Seq<Slot<A>>,
    shift: u64,
    m: Mixer,
    keys: Set<u64>,
    p: int,
    r: int,
    key: u64,
)
    requires
        ordered(t, shift),
        holds(t, m, keys),
        m.valid(),
        !keys.contains(0),
        keys.contains(key),
        t[p].hash == m.mix(key),
        0 <= p <= r < t.len() - 1,
        forall|k: int| p < k <= r ==> #[trigger] t[k].hash != 0,
    ensures
        holds(unshifted(t, p, r), m, keys.remove(key)),
{
    reveal(holds);
    let t2 = unshifted(t, p, r);
    lemma_mix_bijective(m, key);
    lemma_mix_nonzero(m, key);
    assert forall|i: int| 0 <= i < t2.len() && #[trigger] t2[i].hash != 0 implies keys.remove(
        key,
    ).contains(key_of(m, t2[i].hash)) by {
        let oi = if p <= i < r { i + 1 } else { i };
        assert(t2[i] == t[oi]);
        assert(oi != p);
        assert(t[oi].hash != t[p].hash) by {
            reveal(ordered);
            if oi < p {
                assert(t[oi].hash > t[p].hash);
            } else {
                assert(t[p].hash > t[oi].hash);
            }
        }
        lemma_mix_bijective(m, t[oi].hash);
    }
    assert forall|k: u64| #[trigger] keys.remove(key).contains(k) implies exists|i: int|
        0 <= i < t2.len() && t2[i].hash == m.mix(k) by {
        let i = choose|i: int| 0 <= i < t.len() && t[i].hash == m.mix(k);
        lemma_mix_bijective(m, k);
        lemma_mix_nonzero(m, k);
        assert(i != p);
        if i < p || i > r {
            assert(t2[i].hash == m.mix(k));
        } else {
            assert(t2[i - 1].hash == m.mix(k));
        }
    }
}

/// After a removal every other key keeps its value.
#[verifier::rlimit(40)]
proof fn lemma_remove_values<A>(
    t: Seq<Slot<A>>,
    shift: u64,
    m: Mixer,
    keys: Set<u64>,
    p: int,
    r: int,
    key: u64,
)
    requires
        ordered(t, shift),
        holds(t, m, keys),
        m.valid(),
        !keys.contains(0),
        t[p].hash == m.mix(key),
        0 <= p <= r < t.len() - 1,
        ordered(unshifted(t, p, r), shift),
    ensures
        forall|k: u64|
            #[trigger] keys.remove(key).contains(k) ==> value_at(unshifted(t, p, r), m.mix(k))
                == value_at(t, m.mix(k)),
{
    let t2 = unshifted(t, p, r);
    assert forall|k: u64| #[trigger] keys.remove(key).contains(k) implies value_at(t2, m.mix(k))
        == value_at(t, m.mix(k)) by {
        reveal(holds);
        let i = choose|i: int| 0 <= i < t.len() && t[i].hash == m.mix(k);
        lemma_mix_bijective(m, k);
        lemma_mix_nonzero(m, k);
        lemma_mix_bijective(m, key);
        lemma_index_of(t, shift, i);
        assert(i != p);
        if i < p || i > r {
            lemma_index_of(t2, shift, i);
        } else {
            assert(t2[i - 1] == t[i]);
            lemma_index_of(t2, shift, i - 1);
        }
    }
}

/// The keys of `r` strictly increase.
pub open spec fn increasing_keys<T>(r: Seq<(u64, T)>) -> bool {
    forall|i: int, j: int| 0 <= i < j < r.len() ==> r[i].0 < r[j].0
}

/// Inserts `e` into `r`, whose keys strictly increase and do not include the
/// key of `e`, at the place that keeps the keys increasing.
fn insert_by_key<T>(r: &mut Vec<(u64, T)>, e: (u64, T))
    requires
        increasing_keys(old(r)@),
        forall|i: int| 0 <= i < old(r)@.len() ==> old(r)@[i].0 != e.0,
    ensures
        increasing_keys(final(r)@),
        final(r)@.len() == old(r)@.len() + 1,
        forall|x: (u64, T)| #[trigger] final(r)@.contains(x) <==> (old(r)@.contains(x) || x == e),
{
    let ghost r0 = r@;
    let ghost ge = e;
    let mut idx = r.len();
    while idx > 0 && r[idx - 1].0 > e.0
        invariant
            r@ == r0,
            e == ge,
            idx <= r0.len(),
            forall|j: int| idx <= j < r0.len() ==> r0[j].0 > ge.0,
        decreases idx,
    {
        idx = idx - 1;
    }
    r.insert(idx, e);
    proof {
        r0.insert_ensures(idx as int, ge);
        let r1 = r@;
        assert forall|x: (u64, T)| #[trigger] r1.contains(x) <==> (r0.contains(x) || x == ge) by {
            if r1.contains(x) {
                let k = choose|k: int| 0 <= k < r1.len() && r1[k] == x;
                if k < idx {
                    assert(r0[k] == x);
                } else if k > idx {
                    assert(r0[k - 1] == x);
                }
            }
            if r0.contains(x) {
                let k = choose|k: int| 0 <= k < r0.len() && r0[k] == x;
                if k < idx {
                    assert(r1[k] == x);
                } else {
                    assert(r1[k + 1] == x);
                }
            }
            if x == ge {
                assert(r1[idx as int] == x);
            }
        }
    }
}

/// A core that a map within its capacity can fill has room to double.
proof fn lemma_core_can_double(shift: u64)
    requires
        3 <= shift <= 60,
        half_core(shift) <= CAPACITY_LIMIT,
    ensures
        shift >= 4,
        2 * core_len(shift) <= 4 * CAPACITY_LIMIT,
{
    lemma_core(shift);
    let a = 1u64 << ((64 - shift) as u64);
    assert(a <= 0x1000_0000_0000_0000 ==> shift >= 4) by (bit_vector)
        requires
            3 <= shift <= 60,
            a == 1u64 << ((64 - shift) as u64),
    ;
}

/// The entries of a table that holds the keys `keys`.
spec fn contents<A>(m: Mixer, keys: Set<u64>, t: Seq<Slot<A>>) -> Map<u64, A> {
    Map::new(|k: u64| keys.contains(k), |k: u64| value_at(t, m.mix(k)))
}

/// A table with the same fingerprints as an ordered table that holds `keys`,
/// and a value in each occupied slot, is ordered and holds `keys` too.
proof fn lemma_same_hashes<A>(t: Seq<Slot<A>>, t2: Seq<Slot<A>>, shift: u64, m: Mixer, keys: Set<u64>)
    requires
        ordered(t, shift),
        holds(t, m, keys),
        t2.len() == t.len(),
        forall|j: int| 0 <= j < t.len() ==> (#[trigger] t2[j]).hash == t[j].hash && slot_ok(t2[j]),
    ensures
        ordered(t2, shift),
        holds(t2, m, keys),
{
    reveal(ordered);
    reveal(holds);
    assert forall|i: int, j: int|
        #![trigger t2[i], t2[j]]
        0 <= i < j < t2.len() && t2[i].hash != 0 && t2[j].hash != 0 implies t2[i].hash
        > t2[j].hash by {
        assert(t[i].hash > t[j].hash);
    }
    assert forall|i: int, k: int|
        #![trigger t2[i], t2[k]]
        0 <= k <= i < t2.len() && t2[i].hash != 0 && home(shift, t2[i].hash) <= k implies t2[k].hash
        != 0 by {
        assert(t[k].hash != 0);
    }
    assert forall|i: int| 0 <= i < t2.len() && #[trigger] t2[i].hash != 0 implies home(
        shift,
        t2[i].hash,
    ) <= i by {
        assert(t[i].hash != 0);
    }
    assert forall|i: int| 0 <= i < t2.len() && #[trigger] t2[i].hash != 0 implies keys.contains(
        key_of(m, t2[i].hash),
    ) by {
        assert(t[i].hash != 0);
    }
    assert forall|k: u64| #[trigger] keys.contains(k) implies exists|i: int|
        0 <= i < t2.len() && t2[i].hash == m.mix(k) by {
        let i = choose|i: int| 0 <= i < t.len() && t[i].hash == m.mix(k);
        assert(t2[i].hash == m.mix(k));
    }
}

/// `collect_mut` on a slice of at most one slot.
fn collect_slot_mut<A>(
    s: &mut [Slot<A>],
    inv: Mixer,
    t: Ghost<Seq<Slot<A>>>,
    lo: Ghost<int>,
    m: Ghost<Mixer>,
    shift: Ghost<u64>,
) -> (r: Vec<(u64, &mut A)>)
    requires
        ordered(t@, shift@),
        m@.valid(),
        inv == m@.inverse(),
        0 <= lo@,
        lo@ + old(s)@.len() <= t@.len(),
        forall|j: int| 0 <= j < old(s)@.len() ==> #[trigger] old(s)@[j] == t@[lo@ + j],
        old(s)@.len() <= 1,
    ensures
        final(s)@.len() == old(s)@.len(),
        forall|j: int|
            0 <= j < old(s)@.len() ==> (#[trigger] final(s)@[j]).hash == old(s)@[j].hash && slot_ok(
                final(s)@[j],
            ),
        forall|e: int|
            0 <= e < r@.len() ==> {
                let j = index_of(t@, m@.mix((#[trigger] r@[e]).0));
                &&& lo@ <= j < lo@ + old(s)@.len()
                &&& t@[j].hash != 0
                &&& r@[e].0 == key_of(m@, t@[j].hash)
                &&& t@[j].value == Some(*r@[e].1)
                &&& final(s)@[j - lo@].value == Some(*final(r@[e].1))
            },
        forall|e1: int, e2: int| 0 <= e1 < e2 < r@.len() ==> r@[e1].0 != r@[e2].0,
        forall|j: int|
            lo@ <= j < lo@ + old(s)@.len() && #[trigger] t@[j].hash != 0 ==> exists|e: int|
                0 <= e < r@.len() && r@[e].0 == key_of(m@, t@[j].hash),
{
    let ghost n = s@.len();
    let mut r: Vec<(u64, &mut A)> = Vec::new();
    match s.first_mut() {
        Some(slot) => {
            proof {
                assert(slot_ok(t@[lo@])) by {
                    reveal(ordered);
                }
            }
            let x = slot.hash;
            if x != 0 {
                let k = inv.hash(x);
                proof {
                    lemma_mix_bijective(m@, x);
                    lemma_index_of(t@, shift@, lo@);
                }
                match &mut slot.value {
                    Some(v) => {
                        r.push((k, v));
                        proof {
                            assert(r@[0].0 == key_of(m@, t@[lo@].hash));
                            assert forall|j: int|
                                lo@ <= j < lo@ + n && #[trigger] t@[j].hash != 0 implies exists|e: int|
                                0 <= e < r@.len() && r@[e].0 == key_of(m@, t@[j].hash) by {
                                assert(j == lo@);
                            }
                        }
                    },
                    None => {},
                }
            }
        },
        None => {},
    }
    r
}

/// The entries held in `s`, which holds the slots of the ordered table `t`
/// from index `lo` on, each with a reference to its value; writing through
/// a reference changes that value in `s` and nothing else. Splits `s` in
/// halves, so the recursion is only as deep as the log of its length.
#[verifier::rlimit(100)]
#[verifier::spinoff_prover]
fn collect_mut<A>(
    s: &mut [Slot<A>],
    inv: Mixer,
    t: Ghost<Seq<Slot<A>>>,
    lo: Ghost<int>,
    m: Ghost<Mixer>,
    shift: Ghost<u64>,
) -> (r: Vec<(u64, &mut A)>)
    requires
        ordered(t@, shift@),
        m@.valid(),
        inv == m@.inverse(),
        0 <= lo@,
        lo@ + old(s)@.len() <= t@.len(),
        forall|j: int| 0 <= j < old(s)@.len() ==> #[trigger] old(s)@[j] == t@[lo@ + j],
    ensures
        final(s)@.len() == old(s)@.len(),
        forall|j: int|
            0 <= j < old(s)@.len() ==> (#[trigger] final(s)@[j]).hash == old(s)@[j].hash && slot_ok(
                final(s)@[j],
            ),
        forall|e: int|
            0 <= e < r@.len() ==> {
                let j = index_of(t@, m@.mix((#[trigger] r@[e]).0));
                &&& lo@ <= j < lo@ + old(s)@.len()
                &&& t@[j].hash != 0
                &&& r@[e].0 == key_of(m@, t@[j].hash)
                &&& t@[j].value == Some(*r@[e].1)
                &&& final(s)@[j - lo@].value == Some(*final(r@[e].1))
            },
        forall|e1: int, e2: int| 0 <= e1 < e2 < r@.len() ==> r@[e1].0 != r@[e2].0,
        forall|j: int|
            lo@ <= j < lo@ + old(s)@.len() && #[trigger] t@[j].hash != 0 ==> exists|e: int|
                0 <= e < r@.len() && r@[e].0 == key_of(m@, t@[j].hash),
    decreases old(s)@.len(),
{
    let n = s.len();
    if n <= 1 {
        return collect_slot_mut(s, inv, t, lo, m, shift);
    }
    let mid = n / 2;
    let (a, b) = s.split_at_mut(mid);
    let mut ra = collect_mut(a, inv, t, lo, m, shift);
    let mut rb = collect_mut(b, inv, t, Ghost(lo@ + mid), m, shift);
    let ghost ga = ra@;
    let ghost gb = rb@;
    ra.append(&mut rb);
    proof {
        assert(ra@ == ga + gb);
        assert forall|e1: int, e2: int| 0 <= e1 < e2 < ra@.len() implies ra@[e1].0 != ra@[e2].0 by {
            if e1 < ga.len() && e2 >= ga.len() {
                assert(ra@[e2] == gb[e2 - ga.len()]);
            }
        }
        assert forall|j: int|
            lo@ <= j < lo@ + n && #[trigger] t@[j].hash != 0 implies exists|e: int|
            0 <= e < ra@.len() && ra@[e].0 == key_of(m@, t@[j].hash) by {
            if j < lo@ + mid {
                let e = choose|e: int| 0 <= e < ga.len() && ga[e].0 == key_of(m@, t@[j].hash);
                assert(ra@[e] == ga[e]);
            } else {
                let e = choose|e: int| 0 <= e < gb.len() && gb[e].0 == key_of(m@, t@[j].hash);
                assert(ra@[ga.len() + e] == gb[e]);
            }
        }
    }
    ra
}

/// `lemma_same_hashes` for every table with the fingerprints of `t`.
proof fn lemma_same_hashes_all<A>(t: Seq<Slot<A>>, shift: u64, m: Mixer, keys: Set<u64>)
    requires
        ordered(t, shift),
        holds(t, m, keys),
    ensures
        forall|t2: Seq<Slot<A>>|
            #![trigger ordered(t2, shift)]
            #![trigger holds(t2, m, keys)]
            t2.len() == t.len() && (forall|j: int|
                0 <= j < t.len() ==> (#[trigger] t2[j]).hash == t[j].hash && slot_ok(t2[j]))
                ==> ordered(t2, shift) && holds(t2, m, keys),
{
    assert forall|t2: Seq<Slot<A>>|
        t2.len() == t.len() && (forall|j: int|
            0 <= j < t.len() ==> (#[trigger] t2[j]).hash == t[j].hash && slot_ok(t2[j])) implies ordered(
        t2,
        shift,
    ) && holds(t2, m, keys) by {
        lemma_same_hashes(t, t2, shift, m, keys);
    }
}

/// `lemma_index_of` for every ordered table.
proof fn lemma_index_of_all<A>(shift: u64)
    ensures
        forall|t2: Seq<Slot<A>>, i: int|
            #![trigger index_of(t2, t2[i].hash)]
            ordered(t2, shift) && 0 <= i < t2.len() && t2[i].hash != 0 ==> index_of(t2, t2[i].hash)
                == i,
{
    assert forall|t2: Seq<Slot<A>>, i: int|
        ordered(t2, shift) && 0 <= i < t2.len() && t2[i].hash != 0 implies index_of(t2, t2[i].hash)
        == i by {
        lemma_index_of(t2, shift, i);
    }
}

/// Whatever value is written into the slot of `key`, the table stays ordered
/// and holds the same keys, and only `key` changes its value.
proof fn lemma_update_any<A>(t: Seq<Slot<A>>, shift: u64, m: Mixer, keys: Set<u64>, p: int, key: u64)
    requires
        ordered(t, shift),
        holds(t, m, keys),
        m.valid(),
        !keys.contains(0),
        keys.contains(key),
        0 <= p < t.len(),
        t[p].hash == m.mix(key),
    ensures
        forall|v: A|
            #![trigger t.update(p, Slot { hash: t[p].hash, value: Some(v) })]
            ordered(t.update(p, Slot { hash: t[p].hash, value: Some(v) }), shift) && holds(
                t.update(p, Slot { hash: t[p].hash, value: Some(v) }),
                m,
                keys,
            ) && contents(m, keys, t.update(p, Slot { hash: t[p].hash, value: Some(v) }))
                == contents(m, keys, t).insert(key, v),
{
    lemma_mix_nonzero(m, key);
    assert forall|v: A|
        #![trigger t.update(p, Slot { hash: t[p].hash, value: Some(v) })]
        ordered(t.update(p, Slot { hash: t[p].hash, value: Some(v) }), shift) && holds(
            t.update(p, Slot { hash: t[p].hash, value: Some(v) }),
            m,
            keys,
        ) && contents(m, keys, t.update(p, Slot { hash: t[p].hash, value: Some(v) })) == contents(
            m,
            keys,
            t,
        ).insert(key, v) by {
        let t2 = t.update(p, Slot { hash: t[p].hash, value: Some(v) });
        lemma_update_value(t, shift, m, keys, p, v);
        assert forall|k: u64| #[trigger] keys.contains(k) && k != key implies m.mix(k) != t[p].hash by {
            lemma_mix_bijective(m, k);
            lemma_mix_bijective(m, key);
        }
        assert(contents(m, keys, t2) =~= contents(m, keys, t).insert(key, v));
    }
}

impl<A> View for HashMapNZ64<A> {
    type V = Map<u64, A>;

    closed spec fn view(&self) -> Map<u64, A> {
        contents(self.mixer, self.keys@, self.table@)
    }
}

impl<A> HashMapNZ64<A> {
    /// The number of slots in the table, 0 before the first insertion.
    pub closed spec fn slot_count(&self) -> nat {
        self.table@.len()
    }

    /// The mixer that turns keys into fingerprints.
    pub closed spec fn mixer(&self) -> Mixer {
        self.mixer
    }

    /// The number of core slots.
    pub closed spec fn core_count(&self) -> nat {
        core_len(self.shift) as nat
    }

    /// The invariant of the map.
    pub closed spec fn wf(&self) -> bool {
        &&& self.mixer.valid()
        &&& 3 <= self.shift <= 60
        &&& core_len(self.shift) <= 4 * CAPACITY_LIMIT
        &&& self.keys@.finite()
        &&& !self.keys@.contains(0)
        &&& self.keys@.len() + self.space == half_core(self.shift)
        &&& self.space >= 1
        &&& if self.table@.len() == 0 {
            &&& self.shift == INITIAL_SHIFT
            &&& self.keys@.len() == 0
        } else {
            &&& core_len(self.shift) < self.table@.len() <= 2 * core_len(self.shift)
            &&& tail_size(self.table@.len() - core_len(self.shift))
            &&& core_len(self.shift) * Self::slot_bytes() <= usize::MAX / 8
            &&& self.table@.last().hash == 0
            &&& ordered(self.table@, self.shift)
            &&& holds(self.table@, self.mixer, self.keys@)
        }
    }

    proof fn lemma_view(&self)
        requires
            self.wf(),
        ensures
            self@.dom() == self.keys@,
            self@.len() == self.keys@.len(),
            forall|k: u64| #[trigger]
                self@.contains_key(k) ==> self@[k] == value_at(self.table@, self.mixer.mix(k)),
    {
        assert(self@.dom() =~= self.keys@);
    }

    proof fn lemma_view_raw(&self)
        ensures
            self@.dom() == self.keys@,
            forall|k: u64| #[trigger]
                self@.contains_key(k) ==> self@[k] == value_at(self.table@, self.mixer.mix(k)),
    {
        assert(self@.dom() =~= self.keys@);
    }

    /// A fingerprint `h` is in the table exactly when its key is in the map,
    /// and then its slot holds the key's value.
    proof fn lemma_slot_key(&self, i: int)
        requires
            self.wf(),
            0 <= i < self.table@.len(),
            self.table@[i].hash != 0,
        ensures
            self@.contains_key(key_of(self.mixer, self.table@[i].hash)),
            self.mixer.mix(key_of(self.mixer, self.table@[i].hash)) == self.table@[i].hash,
            self.table@[i].value == Some(self@[key_of(self.mixer, self.table@[i].hash)]),
    {
        reveal(ordered);
        reveal(holds);
        let h = self.table@[i].hash;
        self.lemma_view();
        lemma_mix_bijective(self.mixer, h);
        lemma_index_of(self.table@, self.shift, i);
    }

    /// A key of the map has its fingerprint somewhere in the table.
    proof fn lemma_key_slot(&self, k: u64) -> (i: int)
        requires
            self.wf(),
            self@.contains_key(k),
        ensures
            0 <= i < self.table@.len(),
            self.table@[i].hash == self.mixer.mix(k),
            self.table@[i].hash != 0,
    {
        reveal(holds);
        self.lemma_view();
        lemma_mix_nonzero(self.mixer, k);
        choose|i: int| 0 <= i < self.table@.len() && self.table@[i].hash == self.mixer.mix(k)
    }

    /// An empty map seeded from the operating system's entropy source.
    pub fn new() -> (r: Self)
        ensures
            r.wf(),
            r@ == Map::<u64, A>::empty(),
            r.slot_count() == 0,
    {
        let mut g = Rng::from_system();
        Self::new_seeded(&mut g)
    }

    /// An empty map whose mixer is drawn from `rng`.
    pub fn new_seeded(rng: &mut Rng) -> (r: Self)
        requires
            old(rng).wf(),
        ensures
            final(rng).wf(),
            final(rng).current() == next_state(next_state(old(rng).current())),
            r.mixer().first() == output(old(rng).current()) | 1,
            r.mixer().second() == output(next_state(old(rng).current())) | 1,
            r.wf(),
            r@ == Map::<u64, A>::empty(),
            r.slot_count() == 0,
    {
        let m = Mixer::new(rng.array_u64());
        proof {
            use_type_invariant(&m);
            lemma_initial_core();
        }
        let r = HashMapNZ64 {
            mixer: m,
            table: Vec::new(),
            shift: INITIAL_SHIFT,
            space: INITIAL_SPACE,
            keys: Ghost(Set::empty()),
        };
        proof {
            r.lemma_view();
        }
        r
    }

    /// The number of entries.
    pub fn len(&self) -> (r: usize)
        requires
            self.wf(),
        ensures
            r == self@.len(),
            self@.dom().finite(),
    {
        proof {
            self.lemma_view();
            lemma_core(self.shift);
        }
        let half = 1u64 << (63 - self.shift);
        half as usize - self.space
    }

    /// Whether the map has no entries.
    pub fn is_empty(&self) -> (r: bool)
        requires
            self.wf(),
        ensures
            r == (self@.len() == 0),
    {
        self.len() == 0
    }

    /// Walks from the home of `h` past every larger fingerprint and returns
    /// where the walk stops.
    fn probe(&self, h: u64) -> (p: usize)
        requires
            self.wf(),
            self.table@.len() > 0,
            h != 0,
        ensures
            home(self.shift, h) <= p < self.table@.len(),
            self.table@[p as int].hash <= h,
            forall|k: int| home(self.shift, h) <= k < p ==> #[trigger] self.table@[k].hash > h,
            self.table@[p as int].hash == h <==> exists|i: int|
                0 <= i < self.table@.len() && self.table@[i].hash == h,
    {
        let n = self.table.len();
        let mut p = home_of(self.shift, h);
        proof {
            reveal(ordered);
            lemma_home_in_core(self.shift, h);
        }
        while self.table[p].hash > h
            invariant
                n == self.table@.len(),
                n > 0,
                self.table@[n - 1].hash == 0,
                home(self.shift, h) <= p < n,
                forall|k: int| home(self.shift, h) <= k < p ==> #[trigger] self.table@[k].hash > h,
            decreases n - p,
        {
            p = p + 1;
        }
        proof {
            let t = self.table@;
            if t[p as int].hash != h {
                assert forall|q: int| 0 <= q < n implies t[q].hash != h by {
                    if t[q].hash == h {
                        assert(home(self.shift, h) <= q);
                        if q > p {
                            assert(t[p as int].hash != 0);
                            assert(t[p as int].hash > t[q].hash);
                        } else {
                            assert(t[q].hash > h);
                        }
                    }
                }
            }
        }
        p
    }

    /// Finds the slot of `key`, if the map has it.
    fn find(&self, key: u64) -> (r: Option<usize>)
        requires
            self.wf(),
            key != 0,
        ensures
            match r {
                Some(p) => {
                    &&& self@.contains_key(key)
                    &&& p < self.table@.len()
                    &&& self.table@[p as int].hash == self.mixer.mix(key)
                    &&& self.table@[p as int].value == Some(self@[key])
                },
                None => !self@.contains_key(key),
            },
    {
        proof {
            self.lemma_view();
        }
        if self.table.len() == 0 {
            return None;
        }
        let h = self.mixer.hash(key);
        let p = self.probe(h);
        if self.table[p].hash == h {
            proof {
                self.lemma_slot_key(p as int);
                lemma_mix_bijective(self.mixer, key);
            }
            Some(p)
        } else {
            proof {
                if self@.contains_key(key) {
                    let i = self.lemma_key_slot(key);
                }
            }
            None
        }
    }

    /// Whether the map has an entry for `key`.
    pub fn contains_key(&self, key: u64) -> (r: bool)
        requires
            self.wf(),
            key != 0,
        ensures
            r == self@.contains_key(key),
    {
        match self.find(key) {
            Some(_) => true,
            None => false,
        }
    }

    /// The value stored for `key`, if any.
    pub fn get(&self, key: u64) -> (r: Option<&A>)
        requires
            self.wf(),
            key != 0,
        ensures
            r == (if self@.contains_key(key) {
                Some(&self@[key])
            } else {
                None
            }),
    {
        match self.find(key) {
            Some(p) => self.table[p].value.as_ref(),
            None => None,
        }
    }
    /// Inserting `key` as a new key would push an entry into the last slot:
    /// every slot from the key's home up to the last one is occupied.
    pub closed spec fn fills_to_last_slot(&self, key: u64) -> bool {
        forall|k: int|
            home(self.shift, self.mixer.mix(key)) <= k < self.table@.len() - 1
                ==> #[trigger] self.table@[k].hash != 0
    }

    /// Everything of `wf` but what an insertion may have used up: room in the
    /// core and the empty last slot. One of the two is gone.
    closed spec fn grow_ready(&self) -> bool {
        &&& self.mixer.valid()
        &&& 3 <= self.shift <= 60
        &&& core_len(self.shift) <= 4 * CAPACITY_LIMIT
        &&& self.keys@.finite()
        &&& !self.keys@.contains(0)
        &&& self.keys@.len() + self.space == half_core(self.shift)
        &&& self.keys@.len() <= Self::entry_limit()
        &&& core_len(self.shift) * Self::slot_bytes() <= usize::MAX / 8
        &&& core_len(self.shift) < self.table@.len() <= 2 * core_len(self.shift)
        &&& tail_size(self.table@.len() - core_len(self.shift))
        &&& ordered(self.table@, self.shift)
        &&& holds(self.table@, self.mixer, self.keys@)
        &&& (self.space == 0 || self.table@.last().hash != 0)
    }

    /// A table of `n` empty slots.
    fn empty_table(n: usize) -> (t: Vec<Slot<A>>)
        ensures
            t@.len() == n,
            forall|k: int| 0 <= k < n ==> (#[trigger] t@[k]).hash == 0 && t@[k].value is None,
    {
        let mut t: Vec<Slot<A>> = Vec::with_capacity(n);
        while t.len() < n
            invariant
                t@.len() <= n,
                forall|k: int| 0 <= k < t@.len() ==> (#[trigger] t@[k]).hash == 0 && t@[k].value is None,
            decreases n - t@.len(),
        {
            t.push(Slot { hash: 0, value: None });
        }
        t
    }

    /// Allocates the first table and puts the first entry in it.
    fn init_table(&mut self, key: u64, value: A)
        requires
            old(self).wf(),
            0 < Self::entry_limit(),
            old(self).table@.len() == 0,
            key != 0,
        ensures
            final(self).wf(),
            final(self)@ == old(self)@.insert(key, value),
            final(self).slot_count() == INITIAL_CORE + INITIAL_TAIL,
            final(self).core_count() == INITIAL_CORE,
    {
        proof {
            self.lemma_view();
            lemma_initial_core();
            lemma_mix_bijective(self.mixer, key);
            Self::lemma_entry_limit(1);
        }
        let ghost gv = value;
        let mut t = Self::empty_table(INITIAL_CORE + INITIAL_TAIL);
        let h = self.mixer.hash(key);
        let p = home_of(INITIAL_SHIFT, h);
        proof {
            lemma_home_in_core(INITIAL_SHIFT, h);
        }
        let mut s = Slot { hash: h, value: Some(value) };
        std::mem::swap(&mut s, &mut t[p]);
        self.table = t;
        self.space = INITIAL_SPACE - 1;
        self.keys = Ghost(Set::empty().insert(key));
        proof {
            reveal(ordered);
            reveal(holds);
            let t = self.table@;
            assert(t[p as int].hash == h);
            assert forall|i: int| 0 <= i < t.len() && #[trigger] t[i].hash != 0 implies i == p by {
            }
            assert(t.last().hash == 0);
            assert(holds(t, self.mixer, self.keys@));
            assert(ordered(t, self.shift));
            lemma_index_of(t, self.shift, p as int);
            assert(self.keys@.len() == 1);
            self.lemma_view();
            assert(self@ =~= old(self)@.insert(key, gv));
        }
    }

    /// Grows the core, the tail or both, and moves every entry into the new
    /// table in one forward pass.
    #[verifier::rlimit(60)]
    fn grow(&mut self)
        requires
            old(self).grow_ready(),
        ensures
            final(self).wf(),
            final(self)@ == old(self)@,
            final(self).slot_count() > old(self).slot_count(),
            final(self).core_count() == (if old(self).space == 0 {
                2 * old(self).core_count()
            } else {
                old(self).core_count()
            }),
            final(self).slot_count() - final(self).core_count() == (if old(self).table@.last().hash
                != 0 {
                2 * (old(self).slot_count() - old(self).core_count())
            } else {
                old(self).slot_count() - old(self).core_count()
            }),
            final(self).space == (if old(self).space == 0 {
                old(self).core_count() / 2
            } else {
                old(self).space as nat
            }),
            old(self).space == 0 ==> final(self).core_count() == 4 * final(self)@.len(),
    {
        let ghost t0 = self.table@;
        let ghost old_view = self@;
        let old_n = self.table.len();
        let old_shift = self.shift;
        proof {
            lemma_core(old_shift);
        }
        let old_core = (1u64 << (64 - old_shift)) as usize;
        let old_tail = old_n - old_core;
        let core_full = self.space == 0;
        let tail_full = self.table[old_n - 1].hash != 0;
        proof {
            lemma_tail_double(old_n - old_core);
            if tail_full {
                lemma_run_bound(t0, old_shift, self.mixer, self.keys@, old_n - 1);
                lemma_home_in_core(old_shift, t0[old_n - 1].hash);
            }
            if core_full {
                lemma_core_can_double(old_shift);
                Self::lemma_entry_limit(self.keys@.len());
                let s = Self::slot_bytes();
                assert(2 * core_len(old_shift) * s == 4 * self.keys@.len() * s) by (nonlinear_arith)
                    requires
                        core_len(old_shift) == 2 * self.keys@.len(),
                ;
            }
        }
        let new_shift = if core_full {
            old_shift - 1
        } else {
            old_shift
        };
        let new_space = if core_full {
            old_core / 2
        } else {
            self.space
        };
        let new_core = if core_full {
            2 * old_core
        } else {
            old_core
        };
        let new_tail = if tail_full {
            2 * old_tail
        } else {
            old_tail
        };
        let new_n = new_core + new_tail;
        proof {
            lemma_core(new_shift);
        }
        let mut fresh = Self::empty_table(new_n);
        proof {
            reveal(ordered);
            reveal(all_above);
            reveal(empty_from);
        }
        let mut old_table: Vec<Slot<A>> = Vec::new();
        std::mem::swap(&mut old_table, &mut self.table);
        let delta = new_core - old_core;
        let ghost m = self.mixer;
        let ghost keys = self.keys@;
        let ghost mut pos: Seq<int> = Seq::new(old_n as nat, |k: int| 0int);
        let mut i: usize = 0;
        let mut j: usize = 0;
        while i < old_n
            invariant
                old_n == t0.len(),
                old_n == old_core + old_tail,
                old_tail >= 1,
                new_n == new_core + new_tail,
                new_core == core_len(new_shift),
                new_core <= 4 * CAPACITY_LIMIT,
                old_core == core_len(old_shift),
                delta == new_core - old_core,
                new_shift == old_shift || (new_shift == old_shift - 1 && old_shift >= 4),
                new_shift == old_shift ==> delta == 0,
                new_shift != old_shift ==> delta == old_core,
                3 <= new_shift <= 60,
                3 <= old_shift <= 60,
                new_tail == old_tail || new_tail == 2 * old_tail,
                new_tail == old_tail ==> t0[old_n - 1].hash == 0,
                ordered(t0, old_shift),
                holds(t0, m, keys),
                old_table@.len() == old_n,
                fresh@.len() == new_n,
                i <= old_n,
                j <= i + delta,
                i > 0 && t0[i - 1].hash == 0 ==> j + 1 <= i + delta,
                forall|k: int| i <= k < old_n ==> #[trigger] old_table@[k] == t0[k],
                empty_from(fresh@, j as int),
                j > 0 ==> fresh@[j - 1].hash != 0,
                ordered(fresh@, new_shift),
                all_above(fresh@, j as int, t0, i as int),
                forall|k: int|
                    0 <= k < new_n && #[trigger] fresh@[k].hash != 0 ==> keys.contains(
                        key_of(m, fresh@[k].hash),
                    ),
                pos.len() == old_n,
                forall|l: int|
                    0 <= l < i && #[trigger] t0[l].hash != 0 ==> 0 <= pos[l] < j && fresh@[pos[l]]
                        == t0[l],
            decreases old_n - i,
        {
            let mut s = Slot { hash: 0, value: None };
            std::mem::swap(&mut s, &mut old_table[i]);
            if s.hash != 0 {
                let x = s.hash;
                let hm = home_of(new_shift, x);
                proof {
                    assert(home(old_shift, x) <= i && keys.contains(key_of(m, x))) by {
                        reveal(ordered);
                        reveal(holds);
                    }
                    if new_shift != old_shift {
                        lemma_home_refined(old_shift, x);
                    }
                }
                let ghost f0 = fresh@;
                let ghost j0 = j;
                if j < hm {
                    j = hm;
                }
                proof {
                    pos = pos.update(i as int, j as int);
                    lemma_rehash_place(f0, new_shift, t0, old_shift, i as int, j0 as int, j as int);
                }
                std::mem::swap(&mut s, &mut fresh[j]);
                proof {
                    assert(fresh@ == f0.update(j as int, t0[i as int]));
                    assert forall|l: int|
                        0 <= l < i + 1 && #[trigger] t0[l].hash != 0 implies 0 <= pos[l] < j + 1
                            && fresh@[pos[l]] == t0[l] by {
                        if l < i {
                            assert(pos[l] < j0);
                        }
                    }
                    assert forall|k: int|
                        0 <= k < new_n && #[trigger] fresh@[k].hash != 0 implies keys.contains(
                            key_of(m, fresh@[k].hash),
                        ) by {
                        if k != j {
                            assert(f0[k].hash != 0);
                        }
                    }
                }
                j = j + 1;
            } else {
                proof {
                    assert(all_above(fresh@, j as int, t0, i + 1)) by {
                        reveal(all_above);
                    }
                }
            }
            i = i + 1;
        }
        self.table = fresh;
        self.shift = new_shift;
        self.space = new_space;
        proof {
            let f = self.table@;
            assert(f.last().hash == 0);
            lemma_rehash_done(f, new_shift, t0, old_shift, m, keys, pos);
            self.lemma_view();
            assert(self@ =~= old_view);
        }
    }

    /// Stores `value` under `key` and returns the value it replaces, if any.
    pub fn insert(&mut self, key: u64, value: A) -> (r: Option<A>)
        requires
            old(self).wf(),
            key != 0,
            old(self)@.len() < Self::entry_limit(),
        ensures
            final(self).wf(),
            final(self)@ == old(self)@.insert(key, value),
            final(self)@.dom().finite(),
            final(self).slot_count() >= old(self).slot_count(),
            final(self).slot_count() > 0,
            old(self)@.contains_key(key) ==> final(self).slot_count() == old(self).slot_count(),
            old(self).slot_count() == 0 ==> final(self).slot_count() == 24,
            old(self).slot_count() == 0 ==> final(self).core_count() == 16,
            old(self)@.contains_key(key) ==> final(self).core_count() == old(self).core_count(),
            !old(self)@.contains_key(key) && old(self).slot_count() > 0 ==> final(self).core_count()
                == (if old(self)@.len() + 1 == old(self).core_count() / 2 {
                2 * old(self).core_count()
            } else {
                old(self).core_count()
            }),
            !old(self)@.contains_key(key) && old(self).slot_count() > 0 ==> final(self).slot_count()
                - final(self).core_count() == (if old(self).fills_to_last_slot(key) {
                2 * (old(self).slot_count() - old(self).core_count())
            } else {
                old(self).slot_count() - old(self).core_count()
            }),
            r == (if old(self)@.contains_key(key) {
                Some(old(self)@[key])
            } else {
                None
            }),
    {
        proof {
            self.lemma_view();
        }
        if self.table.len() == 0 {
            self.init_table(key, value);
            return None;
        }
        let ghost t0 = self.table@;
        let ghost gv = value;
        let h = self.mixer.hash(key);
        let p = self.probe(h);
        if self.table[p].hash == h {
            let mut v = Some(value);
            std::mem::swap(&mut v, &mut self.table[p].value);
            proof {
                old(self).lemma_slot_key(p as int);
                lemma_mix_bijective(self.mixer, key);
                lemma_update_value(t0, self.shift, self.mixer, self.keys@, p as int, gv);
                assert(self.table@ == t0.update(p as int, Slot { hash: h, value: Some(gv) }));
                self.lemma_view();
                assert forall|k: u64| #[trigger] self.keys@.contains(k) && k != key implies self.mixer.mix(
                    k,
                ) != h by {
                    lemma_mix_bijective(self.mixer, k);
                }
                assert(self@ =~= old(self)@.insert(key, gv));
            }
            return v;
        }
        proof {
            if self@.contains_key(key) {
                let i = self.lemma_key_slot(key);
            }
            lemma_home_in_core(self.shift, h);
        }
        let s = Slot { hash: h, value: Some(value) };
        let ghost gs = s;
        let q = shift_in(&mut self.table, p, s);
        self.space = self.space - 1;
        self.keys = Ghost(self.keys@.insert(key));
        proof {
            lemma_insert_ordered(t0, self.shift, p as int, q as int, gs);
            lemma_insert_holds(t0, self.shift, self.mixer, old(self).keys@, p as int, q as int, gs, key);
            lemma_mix_nonzero(self.mixer, key);
            lemma_insert_values(t0, self.shift, self.mixer, old(self).keys@, p as int, q as int, gs, key);
            self.lemma_view_raw();
            assert(self@ =~= old(self)@.insert(key, gv));
            let n = t0.len() as int;
            assert((q == n - 1) == old(self).fills_to_last_slot(key)) by {
                if q == n - 1 {
                    assert forall|k: int| home(self.shift, h) <= k < n - 1 implies #[trigger] t0[k].hash
                        != 0 by {
                        if k < p {
                            assert(t0[k].hash > h);
                        }
                    }
                } else {
                    assert(t0[q as int].hash == 0);
                }
            }
            assert((self.table@.last().hash != 0) == (q == n - 1)) by {
                if q == n - 1 && p < q {
                    assert(t0[n - 2].hash != 0);
                }
            }
            lemma_core(self.shift);
        }
        if self.space == 0 || q == self.table.len() - 1 {
            self.grow();
        }
        None
    }

    /// Removes the entry for `key` and returns its value, if the map has one.
    pub fn remove(&mut self, key: u64) -> (r: Option<A>)
        requires
            old(self).wf(),
            key != 0,
        ensures
            final(self).wf(),
            final(self)@ == old(self)@.remove(key),
            final(self)@.dom().finite(),
            r == (if old(self)@.contains_key(key) {
                Some(old(self)@[key])
            } else {
                None
            }),
            final(self).slot_count() == old(self).slot_count(),
    {
        proof {
            self.lemma_view();
        }
        let p = match self.find(key) {
            None => {
                proof {
                    assert(self@ =~= old(self)@.remove(key));
                }
                return None;
            },
            Some(p) => p,
        };
        let ghost t0 = self.table@;
        proof {
            lemma_mix_nonzero(self.mixer, key);
            lemma_core(self.shift);
        }
        let (r, e) = shift_out(&mut self.table, self.shift, p);
        self.space = self.space + 1;
        self.keys = Ghost(self.keys@.remove(key));
        proof {
            lemma_remove_ordered(t0, self.shift, p as int, r as int);
            lemma_remove_holds(t0, self.shift, self.mixer, old(self).keys@, p as int, r as int, key);
            lemma_remove_values(t0, self.shift, self.mixer, old(self).keys@, p as int, r as int, key);
            self.lemma_view_raw();
            assert(self@ =~= old(self)@.remove(key));
            assert(self.table@.last().hash == 0);
        }
        e.value
    }

    /// A mutable reference to the value stored for `key`, if any.
    pub fn get_mut(&mut self, key: u64) -> (r: Option<&mut A>)
        requires
            old(self).wf(),
            key != 0,
        ensures
            final(self).wf(),
            final(self).slot_count() == old(self).slot_count(),
            match r {
                Some(v) => {
                    &&& old(self)@.contains_key(key)
                    &&& *v == old(self)@[key]
                    &&& final(self)@ == old(self)@.insert(key, *final(v))
                },
                None => {
                    &&& !old(self)@.contains_key(key)
                    &&& final(self)@ == old(self)@
                },
            },
    {
        match self.find(key) {
            None => None,
            Some(p) => {
                proof {
                    self.lemma_view();
                    lemma_update_any(self.table@, self.shift, self.mixer, self.keys@, p as int, key);
                }
                match &mut self.table[p].value {
                    Some(v) => Some(v),
                    None => None,
                }
            },
        }
    }

    /// Removes every entry and keeps the table for reuse.
    pub fn clear(&mut self)
        requires
            old(self).wf(),
        ensures
            final(self).wf(),
            final(self)@ == Map::<u64, A>::empty(),
            final(self).slot_count() == old(self).slot_count(),
            final(self).core_count() == old(self).core_count(),
    {
        let mut t: Vec<Slot<A>> = Vec::new();
        std::mem::swap(&mut t, &mut self.table);
        let n = t.len();
        let mut i: usize = 0;
        while i < n
            invariant
                t@.len() == n,
                i <= n,
                forall|k: int| 0 <= k < i ==> (#[trigger] t@[k]).hash == 0 && t@[k].value is None,
            decreases n - i,
        {
            let mut s = Slot { hash: 0, value: None };
            std::mem::swap(&mut s, &mut t[i]);
            i = i + 1;
        }
        self.table = t;
        proof {
            lemma_core(self.shift);
        }
        self.space = (1u64 << (63 - self.shift)) as usize;
        self.keys = Ghost(Set::empty());
        proof {
            reveal(ordered);
            reveal(holds);
            self.lemma_view_raw();
            assert(self@ =~= Map::<u64, A>::empty());
        }
    }

    /// Removes every entry and releases the table.
    pub fn reset(&mut self)
        requires
            old(self).wf(),
        ensures
            final(self).wf(),
            final(self)@ == Map::<u64, A>::empty(),
            final(self).slot_count() == 0,
    {
        self.table = Vec::new();
        self.shift = INITIAL_SHIFT;
        self.space = INITIAL_SPACE;
        self.keys = Ghost(Set::empty());
        proof {
            lemma_initial_core();
            self.lemma_view_raw();
            assert(self@ =~= Map::<u64, A>::empty());
        }
    }

    /// What a listing of the first `i` slots knows of its keys: each is a key
    /// of the map held before slot `i`, and each key held there is listed.
    spec fn listed_upto<T>(self, r: Seq<(u64, T)>, i: int) -> bool {
        &&& forall|e: int|
            0 <= e < r.len() ==> self@.contains_key(#[trigger] r[e].0) && index_of(
                self.table@,
                self.mixer.mix(r[e].0),
            ) < i
        &&& forall|l: int|
            0 <= l < i && #[trigger] self.table@[l].hash != 0 ==> exists|e: int|
                0 <= e < r.len() && r[e].0 == key_of(self.mixer, self.table@[l].hash)
    }

    /// Adding the key of slot `i` to a listing of the first `i` slots gives a
    /// listing of the first `i + 1`.
    proof fn lemma_listing_step<T>(self, r0: Seq<(u64, T)>, r: Seq<(u64, T)>, i: int, ge: (u64, T))
        requires
            self.wf(),
            0 <= i < self.table@.len(),
            self.table@[i].hash != 0,
            ge.0 == key_of(self.mixer, self.table@[i].hash),
            self.listed_upto(r0, i),
            forall|x: (u64, T)| #[trigger] r.contains(x) <==> (r0.contains(x) || x == ge),
        ensures
            self.listed_upto(r, i + 1),
    {
        self.lemma_slot_key(i);
        lemma_index_of(self.table@, self.shift, i);
        assert forall|e: int| 0 <= e < r.len() implies self@.contains_key(#[trigger] r[e].0)
            && index_of(self.table@, self.mixer.mix(r[e].0)) < i + 1 by {
            assert(r.contains(r[e]));
            if r0.contains(r[e]) {
                let f = choose|f: int| 0 <= f < r0.len() && r0[f] == r[e];
                assert(self@.contains_key(r0[f].0));
            }
        }
        assert forall|l: int| 0 <= l < i + 1 && #[trigger] self.table@[l].hash != 0 implies exists|e: int|
            0 <= e < r.len() && r[e].0 == key_of(self.mixer, self.table@[l].hash) by {
            if l < i {
                let f = choose|f: int| 0 <= f < r0.len() && r0[f].0 == key_of(self.mixer, self.table@[l].hash);
                assert(r0.contains(r0[f]));
                assert(r.contains(r0[f]));
            } else {
                assert(r.contains(ge));
            }
        }
    }

    /// A listing of all slots with strictly increasing keys lists every key
    /// of the map once.
    proof fn lemma_listing_complete<T>(self, r: Seq<(u64, T)>)
        requires
            self.wf(),
            increasing_keys(r),
            self.listed_upto(r, self.table@.len() as int),
        ensures
            r.len() == self@.len(),
            forall|k: u64| #[trigger]
                self@.contains_key(k) ==> exists|i: int| 0 <= i < r.len() && r[i].0 == k,
    {
        self.lemma_view();
        let ks = Seq::new(r.len(), |e: int| r[e].0);
        assert(ks.no_duplicates());
        assert forall|k: u64| self@.contains_key(k) implies exists|i: int| 0 <= i < r.len() && r[i].0 == k by {
            let l = self.lemma_key_slot(k);
            lemma_mix_bijective(self.mixer, k);
        }
        assert forall|k: u64| ks.to_set().contains(k) <==> self.keys@.contains(k) by {
            if self.keys@.contains(k) {
                let e = choose|e: int| 0 <= e < r.len() && r[e].0 == k;
                assert(ks[e] == k);
            }
            if ks.to_set().contains(k) {
                let e = choose|e: int| 0 <= e < ks.len() && ks[e] == k;
                assert(self@.contains_key(r[e].0));
            }
        }
        assert(ks.to_set() =~= self.keys@);
        ks.unique_seq_to_set();
    }

    /// The entries, sorted by key.
    pub fn items_sorted_by_key(&self) -> (r: Vec<(u64, &A)>)
        requires
            self.wf(),
        ensures
            r@.len() == self@.len(),
            increasing_keys(r@),
            forall|i: int|
                0 <= i < r@.len() ==> self@.contains_key(#[trigger] r@[i].0) && *r@[i].1 == self@[r@[i].0],
            forall|k: u64| #[trigger] self@.contains_key(k) ==> exists|i: int| 0 <= i < r@.len() && r@[i].0 == k,
    {
        proof {
            self.lemma_view();
        }
        let n = self.table.len();
        let inv = self.mixer.invert();
        let mut r: Vec<(u64, &A)> = Vec::new();
        let mut i: usize = 0;
        while i < n
            invariant
                self.wf(),
                n == self.table@.len(),
                i <= n,
                inv == self.mixer.inverse(),
                increasing_keys(r@),
                self.listed_upto(r@, i as int),
                forall|e: int| 0 <= e < r@.len() ==> *(#[trigger] r@[e]).1 == self@[r@[e].0],
            decreases n - i,
        {
            let x = self.table[i].hash;
            if x != 0 {
                let k = inv.hash(x);
                proof {
                    self.lemma_slot_key(i as int);
                    lemma_index_of(self.table@, self.shift, i as int);
                }
                match self.table[i].value.as_ref() {
                    Some(v) => {
                        let ghost r0 = r@;
                        let e = (k, v);
                        let ghost ge = e;
                        insert_by_key(&mut r, e);
                        proof {
                            self.lemma_listing_step(r0, r@, i as int, ge);
                            assert forall|e: int| 0 <= e < r@.len() implies *(#[trigger] r@[e]).1
                                == self@[r@[e].0] by {
                                assert(r@.contains(r@[e]));
                                if r0.contains(r@[e]) {
                                    let f = choose|f: int| 0 <= f < r0.len() && r0[f] == r@[e];
                                }
                            }
                        }
                    },
                    None => {},
                }
            } else {
                proof {
                    assert(self.listed_upto(r@, i + 1));
                }
            }
            i = i + 1;
        }
        proof {
            self.lemma_listing_complete(r@);
        }
        r
    }

    /// The entries, sorted by key, with their values open to change. Writing
    /// through a returned reference changes that key's value and nothing else.
    pub fn items_sorted_by_key_mut(&mut self) -> (r: Vec<(u64, &mut A)>)
        requires
            old(self).wf(),
        ensures
            r@.len() == old(self)@.len(),
            increasing_keys(r@),
            forall|i: int|
                0 <= i < r@.len() ==> old(self)@.contains_key(#[trigger] r@[i].0) && *r@[i].1
                    == old(self)@[r@[i].0],
            forall|k: u64| #[trigger]
                old(self)@.contains_key(k) ==> exists|i: int| 0 <= i < r@.len() && r@[i].0 == k,
            final(self).wf(),
            final(self).slot_count() == old(self).slot_count(),
            final(self)@.dom() == old(self)@.dom(),
            forall|i: int| 0 <= i < r@.len() ==> final(self)@[#[trigger] r@[i].0] == *final(r@[i].1),
    {
        let ghost s0 = *self;
        proof {
            s0.lemma_view();
            reveal(ordered);
        }
        if self.table.len() == 0 {
            return Vec::new();
        }
        proof {
            lemma_same_hashes_all(s0.table@, s0.shift, s0.mixer, s0.keys@);
            lemma_index_of_all::<A>(s0.shift);
            assert forall|k: u64| #[trigger] s0.keys@.contains(k) implies s0.mixer.mix(k) != 0 by {
                lemma_mix_nonzero(s0.mixer, k);
            }
            assert forall|h: u64| #[trigger] key_of(s0.mixer, h) == key_of(s0.mixer, h) implies s0.mixer.mix(
                key_of(s0.mixer, h),
            ) == h by {
                lemma_mix_bijective(s0.mixer, h);
            }
        }
        let inv = self.mixer.invert();
        let sl = self.table.as_mut_slice();
        let mut u = collect_mut(sl, inv, Ghost(s0.table@), Ghost(0), Ghost(s0.mixer), Ghost(s0.shift));
        let ghost u0 = u@;
        let mut r: Vec<(u64, &mut A)> = Vec::new();
        while u.len() > 0
            invariant
                u@ == u0.subrange(0, u@.len() as int),
                u@.len() <= u0.len(),
                r@.len() == u0.len() - u@.len(),
                increasing_keys(r@),
                forall|e1: int, e2: int| 0 <= e1 < e2 < u0.len() ==> u0[e1].0 != u0[e2].0,
                forall|x: (u64, &mut A)| #[trigger]
                    r@.contains(x) <==> exists|k: int| u@.len() <= k < u0.len() && u0[k] == x,
            decreases u@.len(),
        {
            let ghost r0 = r@;
            let ghost l = u@.len() - 1;
            match u.pop() {
                Some(e) => {
                    proof {
                        assert(e == u0[l]);
                        assert forall|i: int| 0 <= i < r0.len() implies r0[i].0 != e.0 by {
                            assert(r0.contains(r0[i]));
                            let k = choose|k: int| l + 1 <= k < u0.len() && u0[k] == r0[i];
                        }
                    }
                    let ghost ge = e;
                    insert_by_key(&mut r, e);
                    proof {
                        assert forall|x: (u64, &mut A)| #[trigger] r@.contains(x) <==> exists|k: int|
                            u@.len() <= k < u0.len() && u0[k] == x by {
                            if r@.contains(x) && x == ge {
                                assert(u0[l] == x);
                            }
                            if exists|k: int| u@.len() <= k < u0.len() && u0[k] == x {
                                let k = choose|k: int| u@.len() <= k < u0.len() && u0[k] == x;
                                if k > l {
                                    assert(r0.contains(x));
                                }
                            }
                        }
                    }
                },
                None => {},
            }
        }
        proof {
            let t0 = s0.table@;
            let n = t0.len() as int;
            assert forall|i: int| 0 <= i < r@.len() implies exists|k: int|
                0 <= k < u0.len() && #[trigger] u0[k] == #[trigger] r@[i] by {
                assert(r@.contains(r@[i]));
            }
            assert forall|i: int| 0 <= i < r@.len() implies s0@.contains_key(#[trigger] r@[i].0)
                && *r@[i].1 == s0@[r@[i].0] && index_of(t0, s0.mixer.mix(r@[i].0)) < n by {
                let k = choose|k: int| 0 <= k < u0.len() && u0[k] == r@[i];
                let j = index_of(t0, s0.mixer.mix(r@[i].0));
                assert(u0[k] == r@[i]);
                s0.lemma_slot_key(j);
                lemma_index_of(t0, s0.shift, j);
            }
            assert forall|l: int| 0 <= l < n && #[trigger] t0[l].hash != 0 implies exists|e: int|
                0 <= e < r@.len() && r@[e].0 == key_of(s0.mixer, t0[l].hash) by {
                let e = choose|e: int| 0 <= e < u0.len() && u0[e].0 == key_of(s0.mixer, t0[l].hash);
                assert(r@.contains(u0[e]));
                let f = choose|f: int| 0 <= f < r@.len() && r@[f] == u0[e];
            }
            assert(s0.listed_upto(r@, n));
            s0.lemma_listing_complete(r@);
        }
        r
    }

    /// The keys, in increasing order.
    pub fn sorted_keys(&self) -> (r: Vec<u64>)
        requires
            self.wf(),
        ensures
            r@.len() == self@.len(),
            forall|i: int, j: int| 0 <= i < j < r@.len() ==> r@[i] < r@[j],
            forall|k: u64| #[trigger] r@.contains(k) <==> self@.contains_key(k),
    {
        let items = self.items_sorted_by_key();
        let mut r: Vec<u64> = Vec::new();
        let mut i: usize = 0;
        while i < items.len()
            invariant
                i <= items@.len(),
                r@.len() == i,
                forall|e: int| 0 <= e < i ==> #[trigger] r@[e] == items@[e].0,
            decreases items@.len() - i,
        {
            r.push(items[i].0);
            i = i + 1;
        }
        proof {
            assert forall|k: u64| #[trigger] r@.contains(k) <==> self@.contains_key(k) by {
                if self@.contains_key(k) {
                    let e = choose|e: int| 0 <= e < items@.len() && items@[e].0 == k;
                    assert(r@[e] == k);
                }
                if r@.contains(k) {
                    let e = choose|e: int| 0 <= e < r@.len() && r@[e] == k;
                    assert(self@.contains_key(items@[e].0));
                }
            }
        }
        r
    }

    /// The keys in table order, from the last slot back to the first.
    pub fn keys(&self) -> (r: Vec<u64>)
        requires
            self.wf(),
        ensures
            r@.len() == self@.len(),
            r@.no_duplicates(),
            forall|k: u64| #[trigger] r@.contains(k) <==> self@.contains_key(k),
    {
        proof {
            self.lemma_view();
        }
        let n = self.table.len();
        let inv = self.mixer.invert();
        let mut r: Vec<u64> = Vec::new();
        let mut i: usize = n;
        while i > 0
            invariant
                self.wf(),
                n == self.table@.len(),
                i <= n,
                inv == self.mixer.inverse(),
                r@.no_duplicates(),
                forall|e: int|
                    0 <= e < r@.len() ==> self@.contains_key(#[trigger] r@[e]) && index_of(
                        self.table@,
                        self.mixer.mix(r@[e]),
                    ) >= i,
                forall|l: int|
                    i <= l < n && #[trigger] self.table@[l].hash != 0 ==> r@.contains(
                        key_of(self.mixer, self.table@[l].hash),
                    ),
            decreases i,
        {
            i = i - 1;
            let x = self.table[i].hash;
            if x != 0 {
                let k = inv.hash(x);
                proof {
                    self.lemma_slot_key(i as int);
                    lemma_index_of(self.table@, self.shift, i as int);
                }
                let ghost r0 = r@;
                r.push(k);
                proof {
                    assert forall|e: int| 0 <= e < r0.len() implies r0[e] != k by {
                    }
                    assert forall|l: int|
                        i <= l < n && #[trigger] self.table@[l].hash != 0 implies r@.contains(
                        key_of(self.mixer, self.table@[l].hash),
                    ) by {
                        if l > i {
                            let e = choose|e: int| 0 <= e < r0.len() && r0[e] == key_of(self.mixer, self.table@[l].hash);
                            assert(r@[e] == r0[e]);
                        } else {
                            assert(r@[r0.len() as int] == k);
                        }
                    }
                }
            }
        }
        proof {
            assert forall|k: u64| #[trigger] r@.contains(k) <==> self.keys@.contains(k) by {
                if self.keys@.contains(k) {
                    let l = self.lemma_key_slot(k);
                    lemma_mix_bijective(self.mixer, k);
                }
            }
            assert(r@.to_set() =~= self.keys@);
            r@.unique_seq_to_set();
        }
        r
    }

    /// The map holds fewer entries than this: a table for more would not
    /// fit in the address space.
    pub open spec fn entry_limit() -> nat {
        (usize::MAX as nat / 128) / if Self::slot_bytes() == 0 {
            1
        } else {
            Self::slot_bytes()
        }
    }

    /// The number of entries below which insertion is possible.
    pub fn capacity_limit() -> (r: usize)
        ensures
            r == Self::entry_limit(),
    {
        let s = std::mem::size_of::<Slot<A>>();
        let s = if s == 0 {
            1
        } else {
            s
        };
        usize::MAX / 128 / s
    }

    /// Tables of a map within its limit stay small enough to address.
    proof fn lemma_entry_limit(n: nat)
        requires
            n <= Self::entry_limit(),
        ensures
            Self::entry_limit() <= CAPACITY_LIMIT,
            4 * n * Self::slot_bytes() <= usize::MAX / 8,
            n >= 1 ==> 16 * Self::slot_bytes() <= usize::MAX / 8,
    {
        let s = Self::slot_bytes();
        let d: int = if s == 0 {
            1
        } else {
            s as int
        };
        let x = usize::MAX as int / 128;
        let l = Self::entry_limit() as int;
        assert(l == x / d);
        vstd::arithmetic::div_mod::lemma_div_is_ordered_by_denominator(x, 1, d);
        vstd::arithmetic::div_mod::lemma_fundamental_div_mod(x, d);
        vstd::arithmetic::div_mod::lemma_mod_pos_bound(x, d);
        assert(l * d <= x) by (nonlinear_arith)
            requires
                x == d * l + x % d,
                x % d >= 0,
        ;
        assert(n * s <= l * d) by (nonlinear_arith)
            requires
                n <= l,
                0 <= s <= d,
                n >= 0,
        ;
        assert(x * 16 <= usize::MAX as int / 8 * 1) by {
            assert(usize::MAX == 0xffff_ffff || usize::MAX == 0xffff_ffff_ffff_ffff);
        }
        assert(4 * n * s == 4 * (n * s)) by (nonlinear_arith);
        assert(16 * s == 16 * s * 1);
        if n >= 1 {
            assert(s <= l * d) by (nonlinear_arith)
                requires
                    n >= 1,
                    n * s <= l * d,
                    s >= 0,
            ;
        }
    }

    /// The size in bytes of one slot.
    pub closed spec fn slot_bytes() -> nat {
        vstd::layout::size_of::<Slot<A>>()
    }

    /// The alignment in bytes of one slot.
    pub closed spec fn slot_align() -> nat {
        vstd::layout::align_of::<Slot<A>>()
    }

    fn internal_num_slots(&self) -> (r: usize)
        ensures
            r == self.slot_count(),
    {
        self.table.len()
    }

    fn internal_num_bytes(&self) -> (r: usize)
        requires
            self.wf(),
        ensures
            r == self.slot_count() * Self::slot_bytes(),
    {
        proof {
            let n = self.slot_count();
            let s = Self::slot_bytes();
            let c = core_len(self.shift);
            if n > 0 {
                assert(n * s <= 2 * (c * s)) by (nonlinear_arith)
                    requires
                        n <= 2 * c,
                ;
            }
        }
        self.table.len() * std::mem::size_of::<Slot<A>>()
    }

    fn internal_allocation_info(&self) -> (r: Option<(usize, usize)>)
        requires
            self.wf(),
        ensures
            match r {
                Some((size, align)) => {
                    &&& self.slot_count() > 0
                    &&& size == self.slot_count() * Self::slot_bytes()
                    &&& align == Self::slot_align()
                },
                None => self.slot_count() == 0,
            },
    {
        if self.table.len() == 0 {
            return None;
        }
        Some((self.internal_num_bytes(), std::mem::align_of::<Slot<A>>()))
    }

}

/// The table is never more than half full: whenever it is allocated, fewer
/// than half of its slots hold entries, right after a growth as at any other
/// time.
pub proof fn lemma_load_below_half<A>(map: &HashMapNZ64<A>)
    requires
        map.wf(),
    ensures
        map.slot_count() == 0 ==> map@.len() == 0,
        map.slot_count() == 0 || 2 * map@.len() < map.slot_count(),
        map.slot_count() == 0 || 2 * map@.len() < map.core_count(),
{
    map.lemma_view();
    lemma_core(map.shift);
}

} // verus!
