//! Laws of the numeric index that relate its operations to each other and to
//! the values that points carry.
use vstd::prelude::*;

use crate::btree_index::{
    is_range_selection, lemma_point_entries_push, lists_ascending, padded, point_entries,
    point_keys, range_admits, selected_keys,
    stored_point, view_after_loading, FloatPayloadBits, IndexError, KeyEncoder, NumericIndexView,
    OrderKeyed, Range,
};
use crate::key_encoding::{
    be_bytes, entry_lt, f64_bits_order_key, f64_bits_total_lt, i64_order_key, lemma_be_bytes_len,
    lemma_be_value_of_bytes, lemma_f64_bits_order_key, lemma_i64_order_key, lemma_key_entry_of_key,
    lemma_pow256_facts, key_entry, spec_key, KEY_LEN,
};

verus! {

/// Decoding the key of a value for a point gives back the point and the value.
pub proof fn lemma_decode_encoded_key<T: OrderKeyed>(v: T, id: u32)
    ensures
        spec_key(v.spec_order_key(), id).len() == KEY_LEN,
        key_entry(spec_key(v.spec_order_key(), id)).1 == id,
        T::spec_from_order_key(key_entry(spec_key(v.spec_order_key(), id)).0) == v,
{
    lemma_key_entry_of_key(v.spec_order_key(), id);
    T::lemma_order_key_inverse(v, 0);
}

/// What a store holds after `add_many_to_list` wrote the values `values` of
/// point `idx`: the key of each value, with the four bytes of `idx` beside it.
pub open spec fn written_pairs<T: KeyEncoder>(values: Seq<T>, idx: u32) -> Seq<(Seq<u8>, Option<Seq<u8>>)> {
    point_keys(values, idx).map_values(|k: Seq<u8>| (k, Some(be_bytes(idx as nat, 4))))
}

/// Reading back a write: loading the pairs written for the values of a point
/// succeeds, indexes the same keys that adding those values indexes, and
/// appends exactly those values to the point's list.
pub proof fn lemma_load_gives_back_written<T: OrderKeyed>(
    v: NumericIndexView<T>,
    values: Seq<T>,
    idx: u32,
)
    requires
        values.len() > 0,
    ensures
        view_after_loading(v, written_pairs(values, idx)).1 is Ok,
        view_after_loading(v, written_pairs(values, idx)).0.entries == v.entries.union_prefer_right(
            point_entries(values, idx),
        ),
        view_after_loading(v, written_pairs(values, idx)).0.point_to_values == padded(
            v.point_to_values,
            idx as nat,
        ).update(idx as int, padded(v.point_to_values, idx as nat)[idx as int] + values),
        view_after_loading(v, written_pairs(values, idx)).0.points_count == v.points_count,
        view_after_loading(v, written_pairs(values, idx)).0.max_values_per_point
            == v.max_values_per_point,
    decreases values.len(),
{
    let n = values.len();
    let last = values.last();
    let rest = values.drop_last();
    let pairs = written_pairs(values, idx);
    let p = padded(v.point_to_values, idx as nat);
    assert(pairs.drop_last() =~= written_pairs(rest, idx));
    lemma_pow256_facts();
    lemma_be_bytes_len(idx as nat, 4);
    lemma_be_value_of_bytes(idx as nat, 4);
    assert(stored_point(pairs.last().1) == Ok::<u32, IndexError>(idx));
    lemma_key_entry_of_key(last.spec_order_key(), idx);
    T::lemma_order_key_inverse(last, 0);
    assert(values.take(n - 1) =~= rest);
    assert(values.take(n as int) =~= values);
    lemma_point_entries_push(v.entries, values, idx, n - 1);
    if n == 1 {
        assert(rest =~= Seq::<T>::empty());
        assert(pairs.drop_last() =~= Seq::<(Seq<u8>, Option<Seq<u8>>)>::empty());
        assert(point_entries(rest, idx) =~= Map::<(u64, u32), u32>::empty());
        assert(v.entries.union_prefer_right(Map::<(u64, u32), u32>::empty()) =~= v.entries);
        assert(p[idx as int].push(last) =~= p[idx as int] + values);
        assert(padded(p, idx as nat) == p);
    } else {
        lemma_load_gives_back_written(v, rest, idx);
        let before = view_after_loading(v, written_pairs(rest, idx)).0;
        assert(padded(before.point_to_values, idx as nat) == before.point_to_values);
        assert(before.point_to_values[idx as int] == p[idx as int] + rest);
        assert((p[idx as int] + rest).push(last) =~= p[idx as int] + values);
        assert(before.point_to_values.update(idx as int, (p[idx as int] + rest).push(last))
            =~= p.update(idx as int, p[idx as int] + values));
    }
}

/// Removing a point undoes adding its values: where the index held no key of
/// point `idx`, adding values for `idx` and then removing their keys leaves the
/// keys of the index as they were.
pub proof fn lemma_remove_undoes_add<T: KeyEncoder>(
    entries: Map<(u64, u32), u32>,
    values: Seq<T>,
    idx: u32,
)
    requires
        forall|k: (u64, u32)| #[trigger] entries.contains_key(k) ==> k.1 != idx,
    ensures
        entries.union_prefer_right(point_entries(values, idx)).remove_keys(point_entries(values, idx).dom())
            == entries,
{
    let added = point_entries(values, idx);
    assert(entries.union_prefer_right(added).remove_keys(added.dom()) =~= entries);
}

/// A range condition on integers, stated on the values.
pub open spec fn int_range_admits(range: Range<i64>, v: i64) -> bool {
    &&& match range.gt {
        Some(gt) => gt < v,
        None => match range.gte {
            Some(gte) => gte <= v,
            None => true,
        },
    }
    &&& match range.lt {
        Some(lt) => v < lt,
        None => match range.lte {
            Some(lte) => v <= lte,
            None => true,
        },
    }
}

/// On integers, a range admits an order key exactly when it admits the value.
pub proof fn lemma_int_range_admits(range: Range<i64>, v: i64)
    ensures
        range_admits(range, i64_order_key(v)) <==> int_range_admits(range, v),
{
    if let Some(gt) = range.gt {
        lemma_i64_order_key(gt, v, 0);
    }
    if let Some(gte) = range.gte {
        lemma_i64_order_key(v, gte, 0);
    }
    if let Some(lt) = range.lt {
        lemma_i64_order_key(v, lt, 0);
    }
    if let Some(lte) = range.lte {
        lemma_i64_order_key(lte, v, 0);
    }
}

/// A range condition on doubles, stated on their bit patterns in the IEEE 754
/// total order.
pub open spec fn float_range_admits(range: Range<FloatPayloadBits>, v: FloatPayloadBits) -> bool {
    &&& match range.gt {
        Some(gt) => f64_bits_total_lt(gt.bits, v.bits),
        None => match range.gte {
            Some(gte) => !f64_bits_total_lt(v.bits, gte.bits),
            None => true,
        },
    }
    &&& match range.lt {
        Some(lt) => f64_bits_total_lt(v.bits, lt.bits),
        None => match range.lte {
            Some(lte) => !f64_bits_total_lt(lte.bits, v.bits),
            None => true,
        },
    }
}

/// On doubles, a range admits an order key exactly when it admits the value.
pub proof fn lemma_float_range_admits(range: Range<FloatPayloadBits>, v: FloatPayloadBits)
    ensures
        range_admits(range, f64_bits_order_key(v.bits)) <==> float_range_admits(range, v),
{
    if let Some(gt) = range.gt {
        lemma_f64_bits_order_key(gt.bits, v.bits, 0);
    }
    if let Some(gte) = range.gte {
        lemma_f64_bits_order_key(v.bits, gte.bits, 0);
    }
    if let Some(lt) = range.lt {
        lemma_f64_bits_order_key(v.bits, lt.bits, 0);
    }
    if let Some(lte) = range.lte {
        lemma_f64_bits_order_key(lte.bits, v.bits, 0);
    }
}

/// A set has one ascending listing: what `filter` answers is determined by
/// the index and the range.
pub proof fn lemma_ascending_listing_unique(a: Seq<(u64, u32)>, b: Seq<(u64, u32)>, s: Set<(u64, u32)>)
    requires
        lists_ascending(a, s),
        lists_ascending(b, s),
    ensures
        a == b,
    decreases a.len() + b.len(),
{
    if a.len() == 0 || b.len() == 0 {
        if a.len() > 0 {
            assert(s.contains(a[0]));
            assert(b.contains(a[0]));
        }
        if b.len() > 0 {
            assert(s.contains(b[0]));
            assert(a.contains(b[0]));
        }
        assert(a =~= b);
    } else {
        // both start with the least element of `s`
        assert(s.contains(a[0]));
        assert(s.contains(b[0]));
        assert(b.contains(a[0]));
        assert(a.contains(b[0]));
        let ia = choose|i: int| 0 <= i < a.len() && a[i] == b[0];
        let ib = choose|i: int| 0 <= i < b.len() && b[i] == a[0];
        if ia > 0 {
            assert(entry_lt(a[0], a[ia]));
        }
        if ib > 0 {
            assert(entry_lt(b[0], b[ib]));
        }
        assert(a[0] == b[0]);
        let x = a[0];
        let s2 = s.remove(x);
        let a2 = a.drop_first();
        let b2 = b.drop_first();
        assert forall|i: int, j: int| 0 <= i < j < a2.len() implies entry_lt(#[trigger] a2[i], #[trigger] a2[j]) by {
            assert(a2[i] == a[i + 1] && a2[j] == a[j + 1]);
        }
        assert forall|i: int, j: int| 0 <= i < j < b2.len() implies entry_lt(#[trigger] b2[i], #[trigger] b2[j]) by {
            assert(b2[i] == b[i + 1] && b2[j] == b[j + 1]);
        }
        assert forall|i: int| 0 <= i < a2.len() implies s2.contains(#[trigger] a2[i]) by {
            assert(a2[i] == a[i + 1]);
            assert(entry_lt(a[0], a[i + 1]));
        }
        assert forall|i: int| 0 <= i < b2.len() implies s2.contains(#[trigger] b2[i]) by {
            assert(b2[i] == b[i + 1]);
            assert(entry_lt(b[0], b[i + 1]));
        }
        assert forall|k: (u64, u32)| #[trigger] s2.contains(k) implies a2.contains(k) by {
            assert(a.contains(k));
            let i = choose|i: int| 0 <= i < a.len() && a[i] == k;
            assert(i != 0);
            assert(a2[i - 1] == k);
        }
        assert forall|k: (u64, u32)| #[trigger] s2.contains(k) implies b2.contains(k) by {
            assert(b.contains(k));
            let i = choose|i: int| 0 <= i < b.len() && b[i] == k;
            assert(i != 0);
            assert(b2[i - 1] == k);
        }
        lemma_ascending_listing_unique(a2, b2, s2);
        assert(a =~= b) by {
            assert forall|i: int| 0 <= i < a.len() implies a[i] == b[i] by {
                if i > 0 {
                    assert(a[i] == a2[i - 1]);
                    assert(b[i] == b2[i - 1]);
                }
            }
        }
    }
}

/// The keys of the index and the values of its points agree: every key is the
/// key of a value of its point, with that point stored under it, and every
/// value of every point has its key in the index. An index built by `new`,
/// `add_many_to_list` (each point given values once) and `remove_point` keeps
/// this (`lemma_new_consistent`, `lemma_add_keeps_consistent`,
/// `lemma_remove_keeps_consistent`).
pub open spec fn entries_match_values<T: KeyEncoder>(entries: Map<(u64, u32), u32>, values: Seq<Seq<T>>) -> bool {
    &&& values.len() <= 0x1_0000_0000
    &&& forall|k: (u64, u32)| #[trigger]
        entries.contains_key(k) ==> {
            &&& entries[k] == k.1
            &&& k.1 < values.len()
            &&& exists|j: int|
                0 <= j < values[k.1 as int].len() && (#[trigger] values[k.1 as int][j]).spec_order_key()
                    == k.0
        }
    &&& forall|i: int, j: int|
        0 <= i < values.len() && 0 <= j < values[i].len() ==> entries.contains_key(
            ((#[trigger] values[i][j]).spec_order_key(), i as u32),
        )
}

/// An empty index is consistent.
pub proof fn lemma_new_consistent<T: KeyEncoder>()
    ensures
        entries_match_values(Map::<(u64, u32), u32>::empty(), Seq::<Seq<T>>::empty()),
{
}

/// Adding values for a point that has none keeps the index consistent (the
/// new entries and lists are those `add_many_to_list` states).
pub proof fn lemma_add_keeps_consistent<T: KeyEncoder>(
    entries: Map<(u64, u32), u32>,
    values: Seq<Seq<T>>,
    new_values: Seq<T>,
    idx: u32,
)
    requires
        entries_match_values(entries, values),
        idx >= values.len() || values[idx as int].len() == 0,
    ensures
        entries_match_values(
            entries.union_prefer_right(point_entries(new_values, idx)),
            padded(values, idx as nat).update(idx as int, new_values),
        ),
{
    let e2 = entries.union_prefer_right(point_entries(new_values, idx));
    let p = padded(values, idx as nat);
    let v2 = p.update(idx as int, new_values);
    assert forall|k: (u64, u32)| #[trigger] e2.contains_key(k) implies {
        &&& e2[k] == k.1
        &&& k.1 < v2.len()
        &&& exists|j: int| 0 <= j < v2[k.1 as int].len() && (#[trigger] v2[k.1 as int][j]).spec_order_key() == k.0
    } by {
        if point_entries(new_values, idx).contains_key(k) {
            let j = choose|j: int| 0 <= j < new_values.len() && (#[trigger] new_values[j]).spec_order_key() == k.0;
            assert(v2[k.1 as int][j] == new_values[j]);
        } else {
            assert(entries.contains_key(k));
            let j = choose|j: int|
                0 <= j < values[k.1 as int].len() && (#[trigger] values[k.1 as int][j]).spec_order_key() == k.0;
            assert(k.1 != idx);
            assert(v2[k.1 as int] == values[k.1 as int]);
            assert(v2[k.1 as int][j] == values[k.1 as int][j]);
        }
    }
    assert forall|i: int, j: int| 0 <= i < v2.len() && 0 <= j < v2[i].len() implies e2.contains_key(
        ((#[trigger] v2[i][j]).spec_order_key(), i as u32),
    ) by {
        if i == idx {
            assert(v2[i][j] == new_values[j]);
            assert(point_entries(new_values, idx).contains_key((new_values[j].spec_order_key(), idx)));
        } else {
            assert(i < values.len());
            assert(v2[i] == values[i]);
            assert(entries.contains_key((values[i][j].spec_order_key(), i as u32)));
        }
    }
}

/// Removing a point keeps the index consistent (the new entries and lists are
/// those `remove_point` states).
pub proof fn lemma_remove_keeps_consistent<T: KeyEncoder>(
    entries: Map<(u64, u32), u32>,
    values: Seq<Seq<T>>,
    idx: u32,
)
    requires
        entries_match_values(entries, values),
        idx < values.len(),
    ensures
        entries_match_values(
            entries.remove_keys(point_entries(values[idx as int], idx).dom()),
            values.update(idx as int, Seq::<T>::empty()),
        ),
{
    let gone = point_entries(values[idx as int], idx).dom();
    let e2 = entries.remove_keys(gone);
    let v2 = values.update(idx as int, Seq::<T>::empty());
    assert forall|k: (u64, u32)| #[trigger] e2.contains_key(k) implies {
        &&& e2[k] == k.1
        &&& k.1 < v2.len()
        &&& exists|j: int| 0 <= j < v2[k.1 as int].len() && (#[trigger] v2[k.1 as int][j]).spec_order_key() == k.0
    } by {
        assert(entries.contains_key(k));
        let j = choose|j: int|
            0 <= j < values[k.1 as int].len() && (#[trigger] values[k.1 as int][j]).spec_order_key() == k.0;
        if k.1 == idx {
            assert(gone.contains(k));
        }
        assert(v2[k.1 as int] == values[k.1 as int]);
        assert(v2[k.1 as int][j] == values[k.1 as int][j]);
    }
    assert forall|i: int, j: int| 0 <= i < v2.len() && 0 <= j < v2[i].len() implies e2.contains_key(
        ((#[trigger] v2[i][j]).spec_order_key(), i as u32),
    ) by {
        assert(i != idx);
        assert(i as u32 != idx);
        assert(v2[i] == values[i]);
        assert(entries.contains_key((values[i][j].spec_order_key(), i as u32)));
    }
}

/// The keys `(order key of v, i)` of the values `v` of points `i` that `range`
/// admits.
pub open spec fn admitted_value_keys<T: KeyEncoder>(values: Seq<Seq<T>>, range: Range<T>) -> Set<(u64, u32)> {
    Set::new(
        |k: (u64, u32)|
            k.1 < values.len() && range_admits(range, k.0) && exists|j: int|
                0 <= j < values[k.1 as int].len() && (#[trigger] values[k.1 as int][j]).spec_order_key()
                    == k.0,
    )
}

/// Filtering over the values of points: in a consistent index, what `filter`
/// answers lists, in ascending (value, point) order, each point `i` once for
/// each distinct value of `i` that the range admits, and nothing else.
pub proof fn lemma_filter_over_values<T: KeyEncoder>(
    entries: Map<(u64, u32), u32>,
    values: Seq<Seq<T>>,
    range: Range<T>,
    ids: Seq<u32>,
)
    requires
        entries_match_values(entries, values),
        is_range_selection(entries, range, ids),
    ensures
        exists|keys: Seq<(u64, u32)>|
            #![trigger lists_ascending(keys, admitted_value_keys(values, range))]
            lists_ascending(keys, admitted_value_keys(values, range)) && ids == keys.map_values(
                |k: (u64, u32)| k.1,
            ),
{
    let sel = selected_keys(entries, range);
    let adm = admitted_value_keys(values, range);
    assert forall|k: (u64, u32)| sel.contains(k) <==> adm.contains(k) by {
        if adm.contains(k) {
            let j = choose|j: int|
                0 <= j < values[k.1 as int].len() && (#[trigger] values[k.1 as int][j]).spec_order_key() == k.0;
            assert(entries.contains_key((values[k.1 as int][j].spec_order_key(), (k.1 as int) as u32)));
        }
    }
    assert(sel =~= adm);
    let keys = choose|keys: Seq<(u64, u32)>|
        #![trigger lists_ascending(keys, sel)]
        lists_ascending(keys, sel) && ids == keys.map_values(|k: (u64, u32)| entries[k]);
    assert(keys.map_values(|k: (u64, u32)| entries[k]) =~= keys.map_values(|k: (u64, u32)| k.1)) by {
        assert forall|i: int| 0 <= i < keys.len() implies entries[keys[i]] == keys[i].1 by {
            assert(sel.contains(keys[i]));
        }
    }
    assert(lists_ascending(keys, adm));
}

/// The same keys give the same answer to the same range.
pub proof fn lemma_filter_determined_by_entries<T: KeyEncoder>(
    entries: Map<(u64, u32), u32>,
    range: Range<T>,
    ids1: Seq<u32>,
    ids2: Seq<u32>,
)
    requires
        is_range_selection(entries, range, ids1),
        is_range_selection(entries, range, ids2),
    ensures
        ids1 == ids2,
{
    let sel = selected_keys(entries, range);
    let k1 = choose|keys: Seq<(u64, u32)>|
        #![trigger lists_ascending(keys, sel)]
        lists_ascending(keys, sel) && ids1 == keys.map_values(|k: (u64, u32)| entries[k]);
    let k2 = choose|keys: Seq<(u64, u32)>|
        #![trigger lists_ascending(keys, sel)]
        lists_ascending(keys, sel) && ids2 == keys.map_values(|k: (u64, u32)| entries[k]);
    lemma_ascending_listing_unique(k1, k2, sel);
}

} // verus!
