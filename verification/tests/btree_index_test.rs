use std::collections::BTreeMap;

use segment::btree_index::{
    FieldCondition, FloatPayloadBits, IndexError, KeyDecoder, KeyEncoder, NumericIndex, Range,
};
use segment::key_encoding::{decode_point_offset, encode_point_offset};

fn float(x: f64) -> FloatPayloadBits {
    FloatPayloadBits { bits: x.to_bits() }
}

/// A store of keys in byte order, with the stored value beside each key.
type Store = BTreeMap<Vec<u8>, Vec<u8>>;

fn write_all(store: &mut Store, keys: Vec<Vec<u8>>, id: u32) {
    for key in keys {
        store.insert(key, encode_point_offset(id));
    }
}

fn stored_pairs(store: &Store) -> Vec<(Vec<u8>, Option<Vec<u8>>)> {
    store
        .iter()
        .map(|(k, v)| (k.clone(), Some(v.clone())))
        .collect()
}

fn test_cond<T: segment::btree_index::OrderKeyed>(
    index: &NumericIndex<T>,
    rng: Range<T>,
    result: Vec<u32>,
) {
    let condition = FieldCondition {
        key: "".to_string(),
        range: Some(rng),
    };

    let offsets = index.filter(&condition).unwrap();

    assert_eq!(offsets, result);
}

fn test_values() -> Vec<Vec<FloatPayloadBits>> {
    vec![
        vec![float(1.0)],
        vec![float(1.0)],
        vec![float(1.0)],
        vec![float(1.0)],
        vec![float(1.0)],
        vec![float(2.0)],
        vec![float(2.5)],
        vec![float(2.6)],
        vec![float(3.0)],
    ]
}

#[test]
fn test_numeric_index_load_from_disk() {
    let mut store: Store = BTreeMap::new();
    let mut index: NumericIndex<FloatPayloadBits> = NumericIndex::new();

    let values = test_values();

    for (idx, values) in values.into_iter().enumerate() {
        let id = idx as u32 + 1;
        let written = index.add_many_to_list(id, values);
        write_all(&mut store, written, id);
    }

    let mut new_index: NumericIndex<FloatPayloadBits> = NumericIndex::new();
    new_index.load(&stored_pairs(&store)).unwrap();

    test_cond(
        &new_index,
        Range {
            gt: None,
            gte: None,
            lt: None,
            lte: Some(float(2.6)),
        },
        vec![1, 2, 3, 4, 5, 6, 7, 8],
    );
}

#[test]
fn test_numeric_index() {
    let values = test_values();

    let mut index: NumericIndex<FloatPayloadBits> = NumericIndex::new();

    for (idx, values) in values.into_iter().enumerate() {
        index.add_many_to_list(idx as u32 + 1, values);
    }

    test_cond(
        &index,
        Range {
            gt: Some(float(1.0)),
            gte: None,
            lt: None,
            lte: None,
        },
        vec![6, 7, 8, 9],
    );

    test_cond(
        &index,
        Range {
            gt: None,
            gte: Some(float(1.0)),
            lt: None,
            lte: None,
        },
        vec![1, 2, 3, 4, 5, 6, 7, 8, 9],
    );

    test_cond(
        &index,
        Range {
            gt: None,
            gte: None,
            lt: Some(float(2.6)),
            lte: None,
        },
        vec![1, 2, 3, 4, 5, 6, 7],
    );

    test_cond(
        &index,
        Range {
            gt: None,
            gte: None,
            lt: None,
            lte: Some(float(2.6)),
        },
        vec![1, 2, 3, 4, 5, 6, 7, 8],
    );

    test_cond(
        &index,
        Range {
            gt: None,
            gte: Some(float(2.0)),
            lt: None,
            lte: Some(float(2.6)),
        },
        vec![6, 7, 8],
    );
}

#[test]
fn integer_index_orders_negative_values_first() {
    let mut index: NumericIndex<i64> = NumericIndex::new();
    index.add_many_to_list(1, vec![5]);
    index.add_many_to_list(2, vec![-3]);
    index.add_many_to_list(3, vec![0]);
    index.add_many_to_list(4, vec![i64::MIN, i64::MAX]);
    index.add_many_to_list(5, vec![-3]);

    test_cond(
        &index,
        Range {
            gt: None,
            gte: None,
            lt: None,
            lte: None,
        },
        vec![4, 2, 5, 3, 1, 4],
    );
    test_cond(
        &index,
        Range {
            gt: Some(-3),
            gte: None,
            lt: Some(5),
            lte: None,
        },
        vec![3],
    );
    test_cond(
        &index,
        Range {
            gt: None,
            gte: Some(-3),
            lt: None,
            lte: Some(5),
        },
        vec![2, 5, 3, 1],
    );
    // `gt` counts before `gte`, `lt` before `lte`
    test_cond(
        &index,
        Range {
            gt: Some(0),
            gte: Some(-100),
            lt: Some(0),
            lte: Some(100),
        },
        vec![],
    );
}

#[test]
fn filter_without_range_is_none() {
    let index: NumericIndex<i64> = NumericIndex::new();
    let condition: FieldCondition<i64> = FieldCondition {
        key: "price".to_string(),
        range: None,
    };
    assert!(index.filter(&condition).is_none());
}

#[test]
fn float_index_follows_total_order() {
    let mut index: NumericIndex<FloatPayloadBits> = NumericIndex::new();
    index.add_many_to_list(0, vec![float(-2.5)]);
    index.add_many_to_list(1, vec![float(0.0)]);
    index.add_many_to_list(2, vec![float(-0.0)]);
    index.add_many_to_list(3, vec![float(-100.0)]);
    index.add_many_to_list(4, vec![float(7.25)]);
    index.add_many_to_list(5, vec![float(f64::INFINITY)]);
    index.add_many_to_list(6, vec![float(f64::NEG_INFINITY)]);

    test_cond(
        &index,
        Range {
            gt: None,
            gte: None,
            lt: None,
            lte: None,
        },
        vec![6, 3, 0, 2, 1, 4, 5],
    );
    test_cond(
        &index,
        Range {
            gt: None,
            gte: Some(float(-3.0)),
            lt: Some(float(1.0)),
            lte: None,
        },
        vec![0, 2, 1],
    );
}

#[test]
fn add_many_to_list_gives_back_keys_of_values() {
    let mut index: NumericIndex<i64> = NumericIndex::new();
    let written = index.add_many_to_list(3, vec![10, -1]);
    assert_eq!(written, vec![10i64.encode_key(3), (-1i64).encode_key(3)]);
    assert_eq!(index.get_values(3), Some(&vec![10, -1]));
    assert_eq!(index.get_values(0), Some(&vec![]));
    assert_eq!(index.get_values(4), None);
    assert_eq!(index.count_indexed_points(), 2);
}

#[test]
fn add_many_to_list_with_no_values_only_makes_room() {
    let mut index: NumericIndex<i64> = NumericIndex::new();
    let written = index.add_many_to_list(2, vec![]);
    assert!(written.is_empty());
    assert_eq!(index.get_values(2), Some(&vec![]));
    assert_eq!(index.get_values(1), Some(&vec![]));
    assert_eq!(index.count_indexed_points(), 0);
}

#[test]
fn same_value_twice_is_one_key() {
    let mut index: NumericIndex<i64> = NumericIndex::new();
    let written = index.add_many_to_list(1, vec![4, 4]);
    assert_eq!(written.len(), 2);
    assert_eq!(written[0], written[1]);
    assert_eq!(index.count_indexed_points(), 1);
    assert_eq!(index.get_values(1), Some(&vec![4, 4]));
}

#[test]
fn remove_point_gives_back_removed_keys() {
    let mut index: NumericIndex<i64> = NumericIndex::new();
    index.add_many_to_list(1, vec![1, 2]);
    index.add_many_to_list(2, vec![2]);
    let before = index.count_indexed_points();
    index.add_many_to_list(7, vec![30, 40]);
    assert_eq!(index.count_indexed_points(), before + 2);

    let removed = index.remove_point(7);
    assert_eq!(removed, vec![30i64.encode_key(7), 40i64.encode_key(7)]);
    assert_eq!(index.count_indexed_points(), before);
    assert_eq!(index.get_values(7), Some(&vec![]));
    test_cond(
        &index,
        Range {
            gt: None,
            gte: Some(2),
            lt: None,
            lte: None,
        },
        vec![1, 2],
    );
}

#[test]
fn remove_point_beyond_the_lists_changes_nothing() {
    let mut index: NumericIndex<i64> = NumericIndex::new();
    index.add_many_to_list(1, vec![1]);
    let removed = index.remove_point(5);
    assert!(removed.is_empty());
    assert_eq!(index.count_indexed_points(), 1);
    assert_eq!(index.get_values(1), Some(&vec![1]));
}

#[test]
fn load_gives_back_what_was_written() {
    let mut store: Store = BTreeMap::new();
    let mut index: NumericIndex<i64> = NumericIndex::new();
    let written = index.add_many_to_list(2, vec![-7, 3, 12]);
    write_all(&mut store, written, 2);
    let written = index.add_many_to_list(0, vec![3]);
    write_all(&mut store, written, 0);

    let mut reloaded: NumericIndex<i64> = NumericIndex::new();
    assert_eq!(reloaded.load(&stored_pairs(&store)), Ok(()));
    assert_eq!(reloaded.count_indexed_points(), index.count_indexed_points());
    assert_eq!(reloaded.get_values(2), Some(&vec![-7, 3, 12]));
    assert_eq!(reloaded.get_values(0), Some(&vec![3]));
    let all = Range {
        gt: None,
        gte: None,
        lt: None,
        lte: None,
    };
    let again = Range {
        gt: None,
        gte: None,
        lt: None,
        lte: None,
    };
    let condition = FieldCondition {
        key: "v".to_string(),
        range: Some(all),
    };
    let condition_again = FieldCondition {
        key: "v".to_string(),
        range: Some(again),
    };
    assert_eq!(reloaded.filter(&condition), index.filter(&condition_again));
    assert_eq!(reloaded.filter(&condition), Some(vec![2, 0, 2, 2]));
}

#[test]
fn load_entry_without_value_is_refused() {
    let mut index: NumericIndex<i64> = NumericIndex::new();
    let key = 5i64.encode_key(1);
    assert_eq!(index.load_entry(&key, None), Err(IndexError::MissingValue));
    assert_eq!(index.count_indexed_points(), 0);
    assert_eq!(index.get_values(1), None);
}

#[test]
fn load_entry_with_value_of_wrong_length_is_refused() {
    let mut index: NumericIndex<i64> = NumericIndex::new();
    let key = 5i64.encode_key(1);
    assert_eq!(
        index.load_entry(&key, Some(&[0u8, 0, 1][..])),
        Err(IndexError::ValueWithIncorrectLength)
    );
    assert_eq!(index.count_indexed_points(), 0);
    assert_eq!(index.get_values(1), None);
}

#[test]
fn load_entry_stores_the_value_under_the_key() {
    let mut index: NumericIndex<i64> = NumericIndex::new();
    let key = (-9i64).encode_key(4);
    assert_eq!(index.load_entry(&key, Some(&[0u8, 0, 0, 4][..])), Ok(()));
    assert_eq!(index.get_values(4), Some(&vec![-9]));
    assert_eq!(index.get_values(3), Some(&vec![]));
    assert_eq!(index.count_indexed_points(), 1);
}

#[test]
fn load_stops_at_first_bad_pair() {
    let mut index: NumericIndex<i64> = NumericIndex::new();
    let stored = vec![
        (1i64.encode_key(0), Some(vec![0, 0, 0, 0])),
        (2i64.encode_key(1), Some(vec![0, 1])),
        (3i64.encode_key(2), Some(vec![0, 0, 0, 2])),
    ];
    assert_eq!(index.load(&stored), Err(IndexError::ValueWithIncorrectLength));
    assert_eq!(index.count_indexed_points(), 1);
    assert_eq!(index.get_values(0), Some(&vec![1]));
    assert_eq!(index.get_values(2), None);
}

#[test]
fn decode_key_gives_back_point_and_value() {
    let key = (-123456789i64).encode_key(77);
    assert_eq!(<i64 as KeyDecoder>::decode_key(&key), (77, -123456789));
    let key = float(-0.5).encode_key(9);
    assert_eq!(
        <FloatPayloadBits as KeyDecoder>::decode_key(&key),
        (9, float(-0.5))
    );
}

#[test]
fn point_offsets_are_four_big_endian_bytes() {
    assert_eq!(encode_point_offset(0x0102_0304), vec![1, 2, 3, 4]);
    assert_eq!(decode_point_offset(&[1, 2, 3, 4]), Some(0x0102_0304));
    assert_eq!(decode_point_offset(&[1, 2, 3]), None);
    assert_eq!(decode_point_offset(&[1, 2, 3, 4, 5]), None);
}

#[test]
fn reload_in_key_order_sorts_and_merges_values() {
    let mut store: Store = BTreeMap::new();
    let mut index: NumericIndex<i64> = NumericIndex::new();
    let written = index.add_many_to_list(1, vec![3, -1, 3]);
    write_all(&mut store, written, 1);
    let written = index.add_many_to_list(0, vec![5]);
    write_all(&mut store, written, 0);

    let mut reloaded: NumericIndex<i64> = NumericIndex::new();
    assert_eq!(reloaded.load(&stored_pairs(&store)), Ok(()));
    assert_eq!(reloaded.get_values(1), Some(&vec![-1, 3]));
    assert_eq!(reloaded.get_values(0), Some(&vec![5]));
    assert_eq!(reloaded.count_indexed_points(), index.count_indexed_points());
    test_cond(
        &reloaded,
        Range {
            gt: Some(-1),
            gte: None,
            lt: None,
            lte: None,
        },
        vec![1, 0],
    );
}

#[test]
fn cardinality_keeps_expectation_between_bounds() {
    let mut index: NumericIndex<i64> = NumericIndex::new();
    index.add_many_to_list(0, vec![1, 2, 3]);
    index.add_many_to_list(1, vec![4]);
    assert_eq!(index.max_values_per_point(), 3);
    assert_eq!(index.points_count(), 2);
    let c = index.cardinality_from_histogram(7, 10, 1);
    assert_eq!((c.min, c.exp, c.max), (2, 2, 10));
    let c = index.cardinality_from_histogram(7, 10, 50);
    assert_eq!((c.min, c.exp, c.max), (2, 10, 10));
    let c = index.cardinality_from_histogram(7, 10, 5);
    assert_eq!((c.min, c.exp, c.max), (2, 5, 10));
}
