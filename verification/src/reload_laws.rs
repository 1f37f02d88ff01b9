//! Reading back what a store holds: loading stored pairs gives back the keys
//! they stand for, and loading a consistent index's keys in key order gives
//! back its values, sorted and without repeats.
use vstd::prelude::*;

use crate::btree_index::{
    lists_ascending, view_after_loading, KeyDecoder, NumericIndexView, OrderKeyed,
};
use crate::index_laws::entries_match_values;
use crate::key_encoding::{
    be_bytes, be_value, entry_lt, key_entry, lemma_be_bytes_len, lemma_be_value_bound,
    lemma_be_value_of_bytes, lemma_key_entry_of_key, lemma_key_of_key_entry, lemma_pow256_facts,
    spec_key, KEY_LEN,
};

verus! {

broadcast use vstd::seq_lib::group_seq_properties;

/// Every stored pair has a twelve-byte key and four bytes beside it.
pub open spec fn well_formed_pairs(stored: Seq<(Seq<u8>, Option<Seq<u8>>)>) -> bool {
    forall|i: int|
        0 <= i < stored.len() ==> {
            &&& (#[trigger] stored[i]).0.len() == KEY_LEN
            &&& stored[i].1 is Some
            &&& stored[i].1->0.len() == 4
        }
}

/// No key is stored twice.
pub open spec fn distinct_keys(stored: Seq<(Seq<u8>, Option<Seq<u8>>)>) -> bool {
    forall|i: int, j: int| 0 <= i < j < stored.len() ==> (#[trigger] stored[i]).0 != (#[trigger] stored[j]).0
}

/// Reading back stored pairs: loading well-formed pairs with distinct keys, in
/// any order, succeeds; afterwards the index holds, besides what it held, the
/// key of each pair with the point of its four bytes stored under it.
pub proof fn lemma_load_stored_pairs<T: KeyDecoder>(
    v: NumericIndexView<T>,
    stored: Seq<(Seq<u8>, Option<Seq<u8>>)>,
)
    requires
        well_formed_pairs(stored),
        distinct_keys(stored),
    ensures
        view_after_loading(v, stored).1 is Ok,
        forall|k: (u64, u32)|
            #[trigger] view_after_loading(v, stored).0.entries.contains_key(k) <==> (v.entries.contains_key(k)
                || exists|i: int| 0 <= i < stored.len() && #[trigger] key_entry(stored[i].0) == k),
        forall|i: int|
            0 <= i < stored.len() ==> view_after_loading(v, stored).0.entries[key_entry(
                (#[trigger] stored[i]).0,
            )] == be_value(stored[i].1->0),
        forall|k: (u64, u32)|
            v.entries.contains_key(k) && (forall|i: int|
                0 <= i < stored.len() ==> #[trigger] key_entry(stored[i].0) != k)
                ==> view_after_loading(v, stored).0.entries[k] == v.entries[k],
    decreases stored.len(),
{
    if stored.len() > 0 {
        let n = stored.len();
        let rest = stored.drop_last();
        let last = stored.last();
        assert(well_formed_pairs(rest)) by {
            assert forall|i: int| 0 <= i < rest.len() implies (#[trigger] rest[i]).0.len() == KEY_LEN
                && rest[i].1 is Some && rest[i].1->0.len() == 4 by {
                assert(rest[i] == stored[i]);
            }
        }
        assert(distinct_keys(rest)) by {
            assert forall|i: int, j: int| 0 <= i < j < rest.len() implies (#[trigger] rest[i]).0
                != (#[trigger] rest[j]).0 by {
                assert(rest[i] == stored[i] && rest[j] == stored[j]);
            }
        }
        lemma_load_stored_pairs(v, rest);
        assert(stored[n - 1] == last);
        lemma_pow256_facts();
        lemma_be_value_bound(last.1->0);
        let before = view_after_loading(v, rest).0;
        let k_last = key_entry(last.0);
        assert forall|i: int| 0 <= i < n - 1 implies #[trigger] key_entry(stored[i].0) != k_last by {
            assert(stored[i].0 != stored[n - 1].0);
            lemma_key_of_key_entry(stored[i].0);
            lemma_key_of_key_entry(last.0);
        }
        assert(stored.drop_last() == rest);
        assert(last.1 is Some && last.1->0.len() == 4);
        assert(view_after_loading(v, stored).0.entries == before.entries.insert(
            k_last,
            be_value(last.1->0) as u32,
        ));
        assert forall|k: (u64, u32)|
            view_after_loading(v, stored).0.entries.contains_key(k) <==> (v.entries.contains_key(k)
                || exists|i: int| 0 <= i < stored.len() && #[trigger] key_entry(stored[i].0) == k) by {
            if view_after_loading(v, stored).0.entries.contains_key(k) && !v.entries.contains_key(k) {
                if k == k_last {
                    assert(key_entry(stored[n - 1].0) == k);
                } else {
                    assert(view_after_loading(v, rest).0.entries.contains_key(k));
                    let i = choose|i: int| 0 <= i < rest.len() && #[trigger] key_entry(rest[i].0) == k;
                    assert(rest[i] == stored[i]);
                    assert(key_entry(stored[i].0) == k);
                }
            }
            if exists|i: int| 0 <= i < stored.len() && #[trigger] key_entry(stored[i].0) == k {
                let i = choose|i: int| 0 <= i < stored.len() && #[trigger] key_entry(stored[i].0) == k;
                if i < n - 1 {
                    assert(rest[i] == stored[i]);
                    assert(key_entry(rest[i].0) == k);
                    assert(view_after_loading(v, rest).0.entries.contains_key(k));
                }
            }
        }
        assert forall|i: int| 0 <= i < stored.len() implies view_after_loading(v, stored).0.entries[key_entry(
            (#[trigger] stored[i]).0,
        )] == be_value(stored[i].1->0) by {
            if i < n - 1 {
                assert(rest[i] == stored[i]);
            }
        }
        assert forall|k: (u64, u32)|
            v.entries.contains_key(k) && (forall|i: int|
                0 <= i < stored.len() ==> #[trigger] key_entry(stored[i].0) != k) implies view_after_loading(
            v,
            stored,
        ).0.entries[k] == v.entries[k] by {
            assert forall|i: int| 0 <= i < rest.len() implies #[trigger] key_entry(rest[i].0) != k by {
                assert(rest[i] == stored[i]);
            }
            assert(key_entry(stored[n - 1].0) != k);
        }
    }
}

/// The pairs a store holds for the keys `keys` of `entries`, handed out in
/// that order: each key as bytes, with the four bytes of the point stored
/// under it.
pub open spec fn stored_pairs(entries: Map<(u64, u32), u32>, keys: Seq<(u64, u32)>) -> Seq<
    (Seq<u8>, Option<Seq<u8>>),
> {
    keys.map_values(|k: (u64, u32)| (spec_key(k.0, k.1), Some(be_bytes(entries[k] as nat, 4))))
}

/// The values of point `p` among `keys`, in the order of `keys`.
pub open spec fn values_of_point<T: KeyDecoder>(keys: Seq<(u64, u32)>, p: u32) -> Seq<T>
    decreases keys.len(),
{
    if keys.len() == 0 {
        Seq::empty()
    } else {
        let before = values_of_point::<T>(keys.drop_last(), p);
        if keys.last().1 == p {
            before.push(T::spec_from_order_key(keys.last().0))
        } else {
            before
        }
    }
}

/// Values listed in strictly increasing order of their order keys.
pub open spec fn ascending_values<T: OrderKeyed>(s: Seq<T>) -> bool {
    forall|a: int, b: int| 0 <= a < b < s.len() ==> (#[trigger] s[a]).spec_order_key() < (#[trigger] s[b]).spec_order_key()
}

/// Pairs whose stored point is the point of their key.
spec fn own_point_pairs(keys: Seq<(u64, u32)>) -> Seq<(Seq<u8>, Option<Seq<u8>>)> {
    keys.map_values(|k: (u64, u32)| (spec_key(k.0, k.1), Some(be_bytes(k.1 as nat, 4))))
}

proof fn lemma_load_own_point_pairs<T: KeyDecoder>(v: NumericIndexView<T>, keys: Seq<(u64, u32)>)
    requires
        v.entries == Map::<(u64, u32), u32>::empty(),
        v.point_to_values == Seq::<Seq<T>>::empty(),
    ensures
        view_after_loading(v, own_point_pairs(keys)).1 is Ok,
        view_after_loading(v, own_point_pairs(keys)).0.entries == Map::new(
            |k: (u64, u32)| keys.contains(k),
            |k: (u64, u32)| k.1,
        ),
        view_after_loading(v, own_point_pairs(keys)).0.point_to_values.len() <= 0x1_0000_0000,
        forall|j: int|
            0 <= j < keys.len() ==> (#[trigger] keys[j]).1 < view_after_loading(
                v,
                own_point_pairs(keys),
            ).0.point_to_values.len(),
        forall|i: int|
            0 <= i < view_after_loading(v, own_point_pairs(keys)).0.point_to_values.len() ==> #[trigger] view_after_loading(
                v,
                own_point_pairs(keys),
            ).0.point_to_values[i] == values_of_point::<T>(keys, i as u32),
        forall|p: u32|
            p >= view_after_loading(v, own_point_pairs(keys)).0.point_to_values.len() ==> #[trigger] values_of_point::<T>(
                keys,
                p,
            ) == Seq::<T>::empty(),
    decreases keys.len(),
{
    let pairs = own_point_pairs(keys);
    if keys.len() == 0 {
        assert(pairs =~= Seq::<(Seq<u8>, Option<Seq<u8>>)>::empty());
        assert(Map::new(|k: (u64, u32)| keys.contains(k), |k: (u64, u32)| k.1) =~= Map::<
            (u64, u32),
            u32,
        >::empty());
    } else {
        let n = keys.len();
        let rest = keys.drop_last();
        let k = keys.last();
        assert(pairs.drop_last() =~= own_point_pairs(rest));
        lemma_load_own_point_pairs(v, rest);
        let before = view_after_loading(v, own_point_pairs(rest)).0;
        lemma_pow256_facts();
        lemma_be_bytes_len(k.1 as nat, 4);
        lemma_be_value_of_bytes(k.1 as nat, 4);
        lemma_key_entry_of_key(k.0, k.1);
        assert(pairs.last() == (spec_key(k.0, k.1), Some(be_bytes(k.1 as nat, 4))));
        let after = view_after_loading(v, pairs).0;
        assert(after.entries =~= Map::new(|x: (u64, u32)| keys.contains(x), |x: (u64, u32)| x.1)) by {
            assert forall|x: (u64, u32)| keys.contains(x) <==> (rest.contains(x) || x == k) by {
                if keys.contains(x) {
                    let j = choose|j: int| 0 <= j < keys.len() && keys[j] == x;
                    if j < n - 1 {
                        assert(rest[j] == x);
                    }
                }
                if rest.contains(x) {
                    let j = choose|j: int| 0 <= j < rest.len() && rest[j] == x;
                    assert(keys[j] == x);
                }
                assert(keys[n - 1] == k);
            }
        }
        assert forall|j: int| 0 <= j < keys.len() implies (#[trigger] keys[j]).1
            < after.point_to_values.len() by {
            if j < n - 1 {
                assert(rest[j] == keys[j]);
            }
        }
        assert forall|i: int| 0 <= i < after.point_to_values.len() implies #[trigger] after.point_to_values[i]
            == values_of_point::<T>(keys, i as u32) by {
            if i != k.1 {
                if i >= before.point_to_values.len() {
                    assert(values_of_point::<T>(rest, i as u32) == Seq::<T>::empty());
                }
            } else {
                if k.1 >= before.point_to_values.len() {
                    assert(values_of_point::<T>(rest, k.1) == Seq::<T>::empty());
                }
            }
        }
        assert forall|p: u32| p >= after.point_to_values.len() implies #[trigger] values_of_point::<T>(keys, p)
            == Seq::<T>::empty() by {
            assert(values_of_point::<T>(rest, p) == Seq::<T>::empty());
        }
    }
}

/// What the values of a point among `keys` are; among keys in ascending order
/// they ascend.
proof fn lemma_values_of_point<T: OrderKeyed>(keys: Seq<(u64, u32)>, p: u32)
    ensures
        forall|a: int|
            0 <= a < values_of_point::<T>(keys, p).len() ==> exists|j: int|
                0 <= j < keys.len() && keys[j].1 == p && (#[trigger] values_of_point::<T>(keys, p)[a])
                    == T::spec_from_order_key(#[trigger] keys[j].0),
        forall|j: int|
            0 <= j < keys.len() && (#[trigger] keys[j]).1 == p ==> values_of_point::<T>(keys, p).contains(
                T::spec_from_order_key(keys[j].0),
            ),
        (forall|i: int, j: int| 0 <= i < j < keys.len() ==> entry_lt(#[trigger] keys[i], #[trigger] keys[j]))
            ==> ascending_values(values_of_point::<T>(keys, p)),
    decreases keys.len(),
{
    if keys.len() > 0 {
        let n = keys.len();
        let rest = keys.drop_last();
        let k = keys.last();
        lemma_values_of_point::<T>(rest, p);
        let vr = values_of_point::<T>(rest, p);
        let vk = values_of_point::<T>(keys, p);
        assert(keys[n - 1] == k);
        assert forall|a: int| 0 <= a < vk.len() implies exists|j: int|
            0 <= j < keys.len() && keys[j].1 == p && (#[trigger] vk[a]) == T::spec_from_order_key(
                #[trigger] keys[j].0,
            ) by {
            if a < vr.len() {
                assert(vk[a] == vr[a]);
                assert(exists|j: int|
                    0 <= j < rest.len() && rest[j].1 == p && values_of_point::<T>(rest, p)[a]
                        == T::spec_from_order_key(#[trigger] rest[j].0));
                let j = choose|j: int|
                    0 <= j < rest.len() && rest[j].1 == p && vr[a] == T::spec_from_order_key(
                        #[trigger] rest[j].0,
                    );
                assert(keys[j] == rest[j]);
                assert(vk[a] == T::spec_from_order_key(keys[j].0));
            } else {
                assert(k.1 == p);
                assert(vk[a] == T::spec_from_order_key(keys[n - 1].0));
            }
        }
        assert forall|j: int| 0 <= j < keys.len() && (#[trigger] keys[j]).1 == p implies vk.contains(
            T::spec_from_order_key(keys[j].0),
        ) by {
            if j < n - 1 {
                assert(rest[j] == keys[j]);
                let x = T::spec_from_order_key(keys[j].0);
                assert(vr.contains(x));
                let a = choose|a: int| 0 <= a < vr.len() && vr[a] == x;
                assert(vk[a] == x);
            } else {
                assert(vk[vk.len() - 1] == T::spec_from_order_key(k.0));
            }
        }
        if forall|i: int, j: int| 0 <= i < j < keys.len() ==> entry_lt(#[trigger] keys[i], #[trigger] keys[j]) {
            assert forall|i: int, j: int| 0 <= i < j < rest.len() implies entry_lt(
                #[trigger] rest[i],
                #[trigger] rest[j],
            ) by {
                assert(rest[i] == keys[i] && rest[j] == keys[j]);
            }
            assert(ascending_values(vr));
            if k.1 == p {
                T::lemma_order_key_inverse(T::spec_from_order_key(k.0), k.0);
                assert forall|a: int, b: int| 0 <= a < b < vk.len() implies (#[trigger] vk[a]).spec_order_key()
                    < (#[trigger] vk[b]).spec_order_key() by {
                    assert(vk[a] == vr[a]);
                    if b < vr.len() {
                        assert(vk[b] == vr[b]);
                    } else {
                        let j = choose|j: int|
                            0 <= j < rest.len() && rest[j].1 == p && vr[a] == T::spec_from_order_key(
                                #[trigger] rest[j].0,
                            );
                        T::lemma_order_key_inverse(vr[a], rest[j].0);
                        assert(keys[j] == rest[j]);
                        assert(entry_lt(keys[j], keys[n - 1]));
                    }
                }
            }
        }
    }
}

/// Reading back a store in key order: loading, into an empty index, the pairs
/// that a store holds for a consistent index, handed out in key order (as
/// RocksDB hands them out), succeeds and gives back the same keys, so every
/// range condition gets the same answer; and each point that had values gets
/// back its values, sorted by value and without repeats.
pub proof fn lemma_reload_in_key_order<T: OrderKeyed>(
    entries: Map<(u64, u32), u32>,
    values: Seq<Seq<T>>,
    keys: Seq<(u64, u32)>,
    v: NumericIndexView<T>,
)
    requires
        entries_match_values(entries, values),
        lists_ascending(keys, entries.dom()),
        v.entries == Map::<(u64, u32), u32>::empty(),
        v.point_to_values == Seq::<Seq<T>>::empty(),
    ensures
        view_after_loading(v, stored_pairs(entries, keys)).1 is Ok,
        view_after_loading(v, stored_pairs(entries, keys)).0.entries == entries,
        forall|i: int|
            0 <= i < values.len() && (#[trigger] values[i]).len() > 0 ==> i < view_after_loading(
                v,
                stored_pairs(entries, keys),
            ).0.point_to_values.len(),
        forall|i: int|
            0 <= i < view_after_loading(v, stored_pairs(entries, keys)).0.point_to_values.len() ==> {
                let reloaded = #[trigger] view_after_loading(v, stored_pairs(entries, keys)).0.point_to_values[i];
                &&& ascending_values(reloaded)
                &&& reloaded.to_set() == if i < values.len() {
                    values[i].to_set()
                } else {
                    Set::<T>::empty()
                }
            },
{
    assert(stored_pairs(entries, keys) =~= own_point_pairs(keys)) by {
        assert forall|j: int| 0 <= j < keys.len() implies entries[#[trigger] keys[j]] == keys[j].1 by {
            assert(entries.dom().contains(keys[j]));
        }
    }
    lemma_load_own_point_pairs(v, keys);
    let b = view_after_loading(v, own_point_pairs(keys)).0;
    assert(b.entries =~= entries) by {
        assert forall|k: (u64, u32)| keys.contains(k) <==> entries.contains_key(k) by {
            if keys.contains(k) {
                let j = choose|j: int| 0 <= j < keys.len() && keys[j] == k;
                assert(entries.dom().contains(keys[j]));
            }
        }
    }
    assert forall|i: int| 0 <= i < values.len() && (#[trigger] values[i]).len() > 0 implies i
        < b.point_to_values.len() by {
        let x = values[i][0];
        assert(entries.contains_key((x.spec_order_key(), i as u32)));
        assert(keys.contains((x.spec_order_key(), i as u32)));
        let j = choose|j: int| 0 <= j < keys.len() && keys[j] == (x.spec_order_key(), i as u32);
        assert(keys[j].1 < b.point_to_values.len());
    }
    assert forall|i: int| 0 <= i < b.point_to_values.len() implies {
        let reloaded = #[trigger] b.point_to_values[i];
        &&& ascending_values(reloaded)
        &&& reloaded.to_set() == if i < values.len() {
            values[i].to_set()
        } else {
            Set::<T>::empty()
        }
    } by {
        let p = i as u32;
        let reloaded = b.point_to_values[i];
        assert(reloaded == values_of_point::<T>(keys, p));
        lemma_values_of_point::<T>(keys, p);
        let expected = if i < values.len() {
            values[i].to_set()
        } else {
            Set::<T>::empty()
        };
        assert forall|x: T| reloaded.to_set().contains(x) <==> expected.contains(x) by {
            if reloaded.contains(x) {
                let a = choose|a: int| 0 <= a < reloaded.len() && reloaded[a] == x;
                let j = choose|j: int|
                    0 <= j < keys.len() && keys[j].1 == p && reloaded[a] == T::spec_from_order_key(
                        #[trigger] keys[j].0,
                    );
                assert(entries.contains_key(keys[j]));
                let jj = choose|jj: int|
                    0 <= jj < values[keys[j].1 as int].len() && (#[trigger] values[keys[j].1 as int][jj]).spec_order_key()
                        == keys[j].0;
                T::lemma_order_key_inverse(values[i][jj], 0);
                assert(values[i].contains(values[i][jj]));
            }
            if expected.contains(x) {
                assert(i < values.len());
                assert(values[i].contains(x));
                let jj = choose|jj: int| 0 <= jj < values[i].len() && values[i][jj] == x;
                assert(entries.contains_key(((values[i][jj]).spec_order_key(), i as u32)));
                assert(keys.contains((x.spec_order_key(), p)));
                let j = choose|j: int| 0 <= j < keys.len() && keys[j] == (x.spec_order_key(), p);
                T::lemma_order_key_inverse(x, 0);
                assert(keys[j].1 == p);
            }
        }
        assert(reloaded.to_set() =~= expected);
    }
}

} // verus!
