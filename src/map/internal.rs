//! Diagnostics for tests and benchmarks: table size, footprint and layout.
//! None of it is part of the map's behaviour.

use super::HashMapNZ64;
use vstd::prelude::*;

verus! {

/// The number of slots in the table, 0 before the first insertion.
pub fn num_slots<A>(t: &HashMapNZ64<A>) -> (r: usize)
    ensures
        r == t.slot_count(),
{
    t.internal_num_slots()
}

/// The size of the table in bytes.
pub fn num_bytes<A>(t: &HashMapNZ64<A>) -> (r: usize)
    requires
        t.wf(),
    ensures
        r == t.slot_count() * HashMapNZ64::<A>::slot_bytes(),
{
    t.internal_num_bytes()
}

/// The size and alignment of the table's allocation, if it has one.
pub fn allocation_info<A>(t: &HashMapNZ64<A>) -> (r: Option<(usize, usize)>)
    requires
        t.wf(),
    ensures
        match r {
            Some((size, align)) => {
                &&& t.slot_count() > 0
                &&& size == t.slot_count() * HashMapNZ64::<A>::slot_bytes()
                &&& align == HashMapNZ64::<A>::slot_align()
            },
            None => t.slot_count() == 0,
        },
{
    t.internal_allocation_info()
}

} // verus!
