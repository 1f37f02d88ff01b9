//! The order in which a map keyed by `(order key, point)` pairs hands out its
//! entries.
use vstd::prelude::*;
use vstd::std_specs::btree::{increasing_seq, key_obeys_cmp_spec};
use vstd::std_specs::cmp::OrdSpec;

use crate::key_encoding::entry_lt;

verus! {

broadcast use vstd::laws_cmp::group_laws_cmp;

/// The standard order of `(order key, point)` pairs is `entry_lt`.
pub proof fn lemma_pair_cmp_is_entry_lt(a: (u64, u32), b: (u64, u32))
    ensures
        (a.cmp_spec(&b) is Less) <==> entry_lt(a, b),
{
}

/// Maps keyed by `(order key, point)` pairs keep their keys in the standard
/// order.
pub proof fn lemma_pair_keys_obey_cmp()
    ensures
        key_obeys_cmp_spec::<(u64, u32)>(),
{
    assert(vstd::laws_cmp::obeys_cmp::<(u64, u32)>());
}

/// Entries handed out in increasing key order are ascending by `entry_lt`.
pub proof fn lemma_increasing_entries_ascend(r: Seq<(&(u64, u32), &u32)>)
    requires
        key_obeys_cmp_spec::<(u64, u32)>(),
        increasing_seq(r.map_values(|kv: (&(u64, u32), &u32)| *kv.0)),
    ensures
        forall|i: int, j: int|
            0 <= i < j < r.len() ==> entry_lt(*(#[trigger] r[i]).0, *(#[trigger] r[j]).0),
{
    assert(vstd::laws_cmp::obeys_cmp::<(u64, u32)>());
    let keys = r.map_values(|kv: (&(u64, u32), &u32)| *kv.0);
    assert forall|i: int, j: int| 0 <= i < j < r.len() implies entry_lt(
        *(#[trigger] r[i]).0,
        *(#[trigger] r[j]).0,
    ) by {
        assert(keys[i] == *r[i].0);
        assert(keys[j] == *r[j].0);
        lemma_pair_cmp_is_entry_lt(keys[i], keys[j]);
    }
}

} // verus!
