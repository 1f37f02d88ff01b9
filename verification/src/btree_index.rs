//! An in-memory numeric index over the values of points.
//!
//! Each value `v` of a point `id` is kept under the key of `(v, id)`, in key
//! order; a range condition selects a contiguous run of keys. Where the index
//! is backed by a store, the keys that an operation writes or deletes are
//! handed back to the caller, which applies them to the store.
use std::collections::BTreeMap;

use vstd::prelude::*;
use vstd::std_specs::btree::spec_btree_map_iter;
use vstd::std_specs::iter::IteratorSpec;

use crate::key_order::{lemma_increasing_entries_ascend, lemma_pair_keys_obey_cmp};
use crate::key_encoding::{
    decode_f64_key_ascending, decode_i64_key_ascending, decode_key_entry, decode_point_offset,
    encode_f64_key_ascending, encode_i64_key_ascending, entry_lt, f64_bits_from_order_key,
    f64_bits_order_key, i64_from_order_key, i64_order_key, key_entry, lemma_f64_bits_order_key,
    lemma_i64_order_key, lemma_key_entry_of_key, spec_key, be_value, KEY_LEN, POINT_OFFSET_LEN,
};

verus! {

broadcast use vstd::laws_cmp::group_laws_cmp;

/// The offset of a point in a segment.
pub type PointOffsetType = u32;

/// An integer payload value.
pub type IntPayloadType = i64;

/// A floating-point payload value, held as its IEEE 754 bit pattern.
#[derive(Clone, Copy, Debug, PartialEq, Eq, Structural)]
pub struct FloatPayloadBits {
    pub bits: u64,
}

/// Values that have an order-preserving key.
pub trait KeyEncoder: Clone + Sized {
    /// The 64-bit word whose unsigned order is the order of the values.
    spec fn spec_order_key(&self) -> u64;

    /// The key of this value for the point `id`.
    fn encode_key(&self, id: PointOffsetType) -> (key: Vec<u8>)
        ensures
            key@ == spec_key(self.spec_order_key(), id),
    ;
}

/// Values that can be read back from a key.
pub trait KeyDecoder: Sized {
    /// The value whose order key is `order`.
    spec fn spec_from_order_key(order: u64) -> Self;

    /// The point and the value of a twelve-byte key.
    fn decode_key(key: &[u8]) -> (r: (PointOffsetType, Self))
        requires
            key@.len() == KEY_LEN,
        ensures
            r.0 == key_entry(key@).1,
            r.1 == Self::spec_from_order_key(key_entry(key@).0),
    ;
}

/// Values whose order key and decoding are inverse to each other.
pub trait OrderKeyed: KeyEncoder + KeyDecoder {
    proof fn lemma_order_key_inverse(v: Self, order: u64)
        ensures
            Self::spec_from_order_key(v.spec_order_key()) == v,
            Self::spec_from_order_key(order).spec_order_key() == order,
    ;
}

impl KeyEncoder for i64 {
    open spec fn spec_order_key(&self) -> u64 {
        i64_order_key(*self)
    }

    fn encode_key(&self, id: PointOffsetType) -> (key: Vec<u8>) {
        encode_i64_key_ascending(*self, id)
    }
}

impl KeyDecoder for i64 {
    open spec fn spec_from_order_key(order: u64) -> i64 {
        i64_from_order_key(order)
    }

    fn decode_key(key: &[u8]) -> (r: (PointOffsetType, i64)) {
        decode_i64_key_ascending(key)
    }
}

impl OrderKeyed for i64 {
    proof fn lemma_order_key_inverse(v: i64, order: u64) {
        lemma_i64_order_key(v, v, order);
    }
}

impl KeyEncoder for FloatPayloadBits {
    open spec fn spec_order_key(&self) -> u64 {
        f64_bits_order_key(self.bits)
    }

    fn encode_key(&self, id: PointOffsetType) -> (key: Vec<u8>) {
        encode_f64_key_ascending(self.bits, id)
    }
}

impl KeyDecoder for FloatPayloadBits {
    open spec fn spec_from_order_key(order: u64) -> FloatPayloadBits {
        FloatPayloadBits { bits: f64_bits_from_order_key(order) }
    }

    fn decode_key(key: &[u8]) -> (r: (PointOffsetType, FloatPayloadBits)) {
        let (id, bits) = decode_f64_key_ascending(key);
        (id, FloatPayloadBits { bits })
    }
}

impl OrderKeyed for FloatPayloadBits {
    proof fn lemma_order_key_inverse(v: FloatPayloadBits, order: u64) {
        lemma_f64_bits_order_key(v.bits, v.bits, order);
    }
}

/// A range condition on values; a missing bound does not restrict.
/// Of `gt` and `gte` only `gt` counts where both are given; likewise `lt`
/// counts before `lte`.
pub struct Range<T> {
    pub lt: Option<T>,
    pub gt: Option<T>,
    pub gte: Option<T>,
    pub lte: Option<T>,
}

/// A condition on the payload field `key`.
pub struct FieldCondition<T> {
    pub key: String,
    pub range: Option<Range<T>>,
}

/// Does the lower end of `range` admit a value with order key `order`?
pub open spec fn lower_admits<T: KeyEncoder>(range: Range<T>, order: u64) -> bool {
    match range.gt {
        Some(gt) => order > gt.spec_order_key(),
        None => match range.gte {
            Some(gte) => order >= gte.spec_order_key(),
            None => true,
        },
    }
}

/// Does the upper end of `range` admit a value with order key `order`?
pub open spec fn upper_admits<T: KeyEncoder>(range: Range<T>, order: u64) -> bool {
    match range.lt {
        Some(lt) => order < lt.spec_order_key(),
        None => match range.lte {
            Some(lte) => order <= lte.spec_order_key(),
            None => true,
        },
    }
}

/// Does `range` admit a value with order key `order`?
pub open spec fn range_admits<T: KeyEncoder>(range: Range<T>, order: u64) -> bool {
    lower_admits(range, order) && upper_admits(range, order)
}

/// `keys` lists the set `s` in ascending order.
pub open spec fn lists_ascending(keys: Seq<(u64, u32)>, s: Set<(u64, u32)>) -> bool {
    &&& forall|i: int, j: int| 0 <= i < j < keys.len() ==> entry_lt(#[trigger] keys[i], #[trigger] keys[j])
    &&& forall|i: int| 0 <= i < keys.len() ==> s.contains(#[trigger] keys[i])
    &&& forall|k: (u64, u32)| #[trigger] s.contains(k) ==> keys.contains(k)
}

/// The entries of `entries` whose value `range` admits.
pub open spec fn selected_keys<T: KeyEncoder>(entries: Map<(u64, u32), u32>, range: Range<T>) -> Set<(u64, u32)> {
    entries.dom().filter(|k: (u64, u32)| range_admits(range, k.0))
}

/// `ids` are what `entries` holds under the keys of `s`, in key order.
pub open spec fn lists_in_key_order(entries: Map<(u64, u32), u32>, s: Set<(u64, u32)>, ids: Seq<u32>) -> bool {
    exists|keys: Seq<(u64, u32)>|
        #![trigger lists_ascending(keys, s)]
        lists_ascending(keys, s) && ids == keys.map_values(|k: (u64, u32)| entries[k])
}

/// `ids` are the points of the entries `entries` that `range` admits, in key order.
pub open spec fn is_range_selection<T: KeyEncoder>(
    entries: Map<(u64, u32), u32>,
    range: Range<T>,
    ids: Seq<u32>,
) -> bool {
    lists_in_key_order(entries, selected_keys(entries, range), ids)
}

/// What the index holds.
pub struct NumericIndexView<T> {
    /// The stored keys, each by the `(order key, point)` pair it encodes, with
    /// the point stored under it.
    pub entries: Map<(u64, u32), u32>,
    /// How many times a point was given a non-empty list of values.
    pub points_count: nat,
    /// The longest list of values given to one point.
    pub max_values_per_point: nat,
    /// The values of each point.
    pub point_to_values: Seq<Seq<T>>,
}

/// Why stored data could not be loaded.
#[derive(Clone, Copy, Debug, PartialEq, Eq, Structural)]
pub enum IndexError {
    /// A stored key came without a value.
    MissingValue,
    /// A stored value is not the four bytes of a point offset.
    ValueWithIncorrectLength,
}

/// The entries that the values `values` of point `idx` put into the index:
/// the key of each value, with the point stored under it.
pub open spec fn point_entries<T: KeyEncoder>(values: Seq<T>, idx: u32) -> Map<(u64, u32), u32> {
    Map::new(
        |k: (u64, u32)|
            k.1 == idx && exists|i: int| 0 <= i < values.len() && (#[trigger] values[i]).spec_order_key() == k.0,
        |k: (u64, u32)| idx,
    )
}

/// The keys, as bytes, of the values `values` of point `idx`, in order.
pub open spec fn point_keys<T: KeyEncoder>(values: Seq<T>, idx: u32) -> Seq<Seq<u8>> {
    values.map_values(|v: T| spec_key(v.spec_order_key(), idx))
}

/// `p`, extended with empty lists so that it has a list for point `idx`.
pub open spec fn padded<T>(p: Seq<Seq<T>>, idx: nat) -> Seq<Seq<T>> {
    if idx < p.len() {
        p
    } else {
        p + Seq::new((idx + 1 - p.len()) as nat, |i: int| Seq::<T>::empty())
    }
}

/// The point that a stored value stands for, or why it stands for none.
pub open spec fn stored_point(value: Option<Seq<u8>>) -> Result<u32, IndexError> {
    match value {
        None => Err(IndexError::MissingValue),
        Some(bytes) => if bytes.len() == POINT_OFFSET_LEN {
            Ok(be_value(bytes) as u32)
        } else {
            Err(IndexError::ValueWithIncorrectLength)
        },
    }
}

/// The index after loading the stored key `key` of point `point`.
pub open spec fn view_after_load<T: KeyDecoder>(v: NumericIndexView<T>, key: Seq<u8>, point: u32) -> NumericIndexView<T> {
    let p = padded(v.point_to_values, point as nat);
    NumericIndexView {
        entries: v.entries.insert(key_entry(key), point),
        points_count: v.points_count,
        max_values_per_point: v.max_values_per_point,
        point_to_values: p.update(point as int, p[point as int].push(T::spec_from_order_key(key_entry(key).0))),
    }
}

/// Stored `(key, value)` pairs as byte strings.
pub open spec fn stored_view(stored: Seq<(Vec<u8>, Option<Vec<u8>>)>) -> Seq<(Seq<u8>, Option<Seq<u8>>)> {
    stored.map_values(
        |e: (Vec<u8>, Option<Vec<u8>>)|
            (
                e.0@,
                match e.1 {
                    Some(b) => Some(b@),
                    None => None::<Seq<u8>>,
                },
            ),
    )
}

/// The index after loading the stored pairs `stored` in order, and whether all
/// of them loaded; loading stops at the first pair that cannot be loaded.
pub open spec fn view_after_loading<T: KeyDecoder>(
    v: NumericIndexView<T>,
    stored: Seq<(Seq<u8>, Option<Seq<u8>>)>,
) -> (NumericIndexView<T>, Result<(), IndexError>)
    decreases stored.len(),
{
    if stored.len() == 0 {
        (v, Ok(()))
    } else {
        let (before, r) = view_after_loading(v, stored.drop_last());
        match r {
            Err(e) => (before, Err(e)),
            Ok(_) => match stored_point(stored.last().1) {
                Err(e) => (before, Err(e)),
                Ok(point) => (view_after_load(before, stored.last().0, point), Ok(())),
            },
        }
    }
}

/// How many points a condition is estimated to select: at least `min`, at
/// most `max`, and `exp` as the expected number.
#[derive(Clone, Copy, Debug, PartialEq, Eq, Structural)]
pub struct CardinalityEstimation {
    pub min: usize,
    pub exp: usize,
    pub max: usize,
}

/// `estimation` raised to at least `low`, then lowered to at most `high`.
pub open spec fn clamp_estimation(low: usize, estimation: usize, high: usize) -> usize {
    let raised = if estimation < low {
        low
    } else {
        estimation
    };
    if high < raised {
        high
    } else {
        raised
    }
}

/// The expected count is the estimation clamped into `[low, high]`: the
/// estimation itself where it lies between the bounds, `low` (or `high`, where
/// the bounds cross) below them, and `high` above them.
pub proof fn lemma_clamp_estimation(low: usize, estimation: usize, high: usize)
    ensures
        low <= estimation <= high ==> clamp_estimation(low, estimation, high) == estimation,
        estimation < low ==> clamp_estimation(low, estimation, high) == vstd::math::min(low as int, high as int),
        estimation > high ==> clamp_estimation(low, estimation, high) == high,
        clamp_estimation(low, estimation, high) == vstd::math::min(
            high as int,
            vstd::math::max(estimation as int, low as int),
        ),
{
}

/// A numeric index. Its map is keyed by what each twelve-byte key stands
/// for; since keys are ascending (`lemma_key_order`), the map's order is the
/// byte order of the keys.
pub struct NumericIndex<T> {
    map: BTreeMap<(u64, PointOffsetType), PointOffsetType>,
    points_count: usize,
    max_values_per_point: usize,
    point_to_values: Vec<Vec<T>>,
}

impl<T> View for NumericIndex<T> {
    type V = NumericIndexView<T>;

    closed spec fn view(&self) -> NumericIndexView<T> {
        NumericIndexView {
            entries: self.map@,
            points_count: self.points_count as nat,
            max_values_per_point: self.max_values_per_point as nat,
            point_to_values: self.point_to_values@.map_values(|v: Vec<T>| v@),
        }
    }
}

/// One end of a run of keys.
enum KeyBound {
    Included((u64, u32)),
    Excluded((u64, u32)),
    Unbounded,
}

spec fn above_start(k: (u64, u32), b: KeyBound) -> bool {
    match b {
        KeyBound::Included(s) => !entry_lt(k, s),
        KeyBound::Excluded(s) => entry_lt(s, k),
        KeyBound::Unbounded => true,
    }
}

spec fn below_end(k: (u64, u32), b: KeyBound) -> bool {
    match b {
        KeyBound::Included(e) => !entry_lt(e, k),
        KeyBound::Excluded(e) => entry_lt(k, e),
        KeyBound::Unbounded => true,
    }
}

fn entry_less(a: (u64, u32), b: (u64, u32)) -> (r: bool)
    ensures
        r == entry_lt(a, b),
{
    a.0 < b.0 || (a.0 == b.0 && a.1 < b.1)
}

fn is_above_start(k: (u64, u32), b: &KeyBound) -> (r: bool)
    ensures
        r == above_start(k, *b),
{
    match b {
        KeyBound::Included(s) => !entry_less(k, *s),
        KeyBound::Excluded(s) => entry_less(*s, k),
        KeyBound::Unbounded => true,
    }
}

fn is_below_end(k: (u64, u32), b: &KeyBound) -> (r: bool)
    ensures
        r == below_end(k, *b),
{
    match b {
        KeyBound::Included(e) => !entry_less(*e, k),
        KeyBound::Excluded(e) => entry_less(k, *e),
        KeyBound::Unbounded => true,
    }
}

/// The bound of the key of `v` for the point `id`.
fn key_of<T: KeyEncoder>(v: &T, id: PointOffsetType) -> (e: (u64, u32))
    ensures
        e == (v.spec_order_key(), id),
{
    let key = v.encode_key(id);
    proof {
        lemma_key_entry_of_key(v.spec_order_key(), id);
    }
    decode_key_entry(key.as_slice())
}

impl<T: OrderKeyed> NumericIndex<T> {
    /// An empty index.
    pub fn new() -> (index: Self)
        ensures
            index@.entries == Map::<(u64, u32), u32>::empty(),
            index@.points_count == 0,
            index@.max_values_per_point == 0,
            index@.point_to_values == Seq::<Seq<T>>::empty(),
    {
        let index = NumericIndex {
            map: BTreeMap::new(),
            points_count: 0,
            max_values_per_point: 0,
            point_to_values: Vec::new(),
        };
        assert(index@.point_to_values =~= Seq::<Seq<T>>::empty());
        index
    }

    /// Makes room in the list of values for point `idx`.
    fn ensure_point(&mut self, idx: PointOffsetType)
        ensures
            final(self)@.entries == old(self)@.entries,
            final(self)@.points_count == old(self)@.points_count,
            final(self)@.max_values_per_point == old(self)@.max_values_per_point,
            final(self)@.point_to_values == padded(old(self)@.point_to_values, idx as nat),
            final(self).point_to_values@.len() > idx,
    {
        let ghost old_values = old(self)@.point_to_values;
        while self.point_to_values.len() <= idx as usize
            invariant
                self.map@ == old(self).map@,
                self.points_count == old(self).points_count,
                self.max_values_per_point == old(self).max_values_per_point,
                old_values.len() <= self.point_to_values@.len(),
                self.point_to_values@.len() <= if old_values.len() > idx { old_values.len() as int } else { idx + 1 },
                self@.point_to_values =~= old_values + Seq::new(
                    (self.point_to_values@.len() - old_values.len()) as nat,
                    |i: int| Seq::<T>::empty(),
                ),
            decreases idx + 1 - self.point_to_values@.len(),
        {
            let ghost prev = self@.point_to_values;
            self.point_to_values.push(Vec::new());
            assert(self@.point_to_values =~= prev.push(Seq::<T>::empty()));
        }
        assert(self@.point_to_values =~= padded(old_values, idx as nat));
    }

    /// Inserts the key `key`, with the point `id` stored under it.
    fn add_to_map(
        map: &mut BTreeMap<(u64, PointOffsetType), PointOffsetType>,
        key: &[u8],
        id: PointOffsetType,
    )
        requires
            key@.len() == KEY_LEN,
        ensures
            final(map)@ == old(map)@.insert(key_entry(key@), id),
    {
        map.insert(decode_key_entry(key), id);
    }

    /// Adds the value `value` of point `id` and gives back its key.
    fn add_value(&mut self, id: PointOffsetType, value: &T) -> (key: Vec<u8>)
        ensures
            key@ == spec_key(value.spec_order_key(), id),
            final(self)@.entries == old(self)@.entries.insert((value.spec_order_key(), id), id),
            final(self)@.points_count == old(self)@.points_count,
            final(self)@.max_values_per_point == old(self)@.max_values_per_point,
            final(self)@.point_to_values == old(self)@.point_to_values,
    {
        let key = value.encode_key(id);
        proof {
            lemma_key_entry_of_key(value.spec_order_key(), id);
        }
        Self::add_to_map(&mut self.map, key.as_slice(), id);
        key
    }

    /// Sets the values of point `idx`, indexing each of them, and gives back
    /// the key of each value in order; a store beside the index keeps each key
    /// with the four bytes of `idx`. Keys of values that the point had before
    /// stay in the index.
    pub fn add_many_to_list(&mut self, idx: PointOffsetType, values: Vec<T>) -> (written: Vec<Vec<u8>>)
        requires
            values.len() > 0 ==> old(self)@.points_count < usize::MAX,
        ensures
            final(self)@.entries == old(self)@.entries.union_prefer_right(point_entries(values@, idx)),
            final(self)@.point_to_values == padded(old(self)@.point_to_values, idx as nat).update(
                idx as int,
                values@,
            ),
            final(self)@.points_count == (if values.len() > 0 {
                old(self)@.points_count + 1
            } else {
                old(self)@.points_count
            }),
            final(self)@.max_values_per_point == (if values.len() > old(self)@.max_values_per_point {
                values.len() as nat
            } else {
                old(self)@.max_values_per_point
            }),
            written@.len() == values.len(),
            forall|i: int| 0 <= i < values.len() ==> #[trigger] written@[i]@ == point_keys(values@, idx)[i],
    {
        let ghost old_view = self@;
        self.ensure_point(idx);
        let ghost padded_view = self@;
        let mut written: Vec<Vec<u8>> = Vec::new();
        let mut i: usize = 0;
        assert(point_entries(values@.take(0), idx) =~= Map::<(u64, u32), u32>::empty());
        assert(old_view.entries.union_prefer_right(Map::<(u64, u32), u32>::empty()) =~= old_view.entries);
        while i < values.len()
            invariant
                i <= values.len(),
                self@.entries == old_view.entries.union_prefer_right(point_entries(values@.take(i as int), idx)),
                self@.point_to_values == padded_view.point_to_values,
                self@.points_count == old_view.points_count,
                self@.max_values_per_point == old_view.max_values_per_point,
                written@.len() == i,
                forall|j: int| 0 <= j < i ==> #[trigger] written@[j]@ == point_keys(values@, idx)[j],
            decreases values.len() - i,
        {
            let key = self.add_value(idx, &values[i]);
            proof {
                lemma_point_entries_push(old_view.entries, values@, idx, i as int);
            }
            written.push(key);
            i += 1;
        }
        assert(values@.take(values.len() as int) =~= values@);
        if !values.is_empty() {
            self.points_count = self.points_count + 1;
            if values.len() > self.max_values_per_point {
                self.max_values_per_point = values.len();
            }
        }
        let ghost before_set = self.point_to_values@;
        self.point_to_values.set(idx as usize, values);
        assert(self@.point_to_values =~= padded_view.point_to_values.update(idx as int, values@));
        written
    }

    /// Loads one stored pair: the key `key` and the stored value `value`, which
    /// should be the four bytes of the key's point. Where there is no value or
    /// it has another length, nothing changes and the error says why.
    pub fn load_entry(&mut self, key: &[u8], value: Option<&[u8]>) -> (r: Result<(), IndexError>)
        requires
            key@.len() == KEY_LEN,
        ensures
            ({
                let stored = match value {
                    Some(b) => Some(b@),
                    None => None::<Seq<u8>>,
                };
                match stored_point(stored) {
                    Ok(point) => r is Ok && final(self)@ == view_after_load(old(self)@, key@, point),
                    Err(e) => r == Err::<(), IndexError>(e) && final(self)@ == old(self)@,
                }
            }),
    {
        let bytes = match value {
            Some(b) => b,
            None => return Err(IndexError::MissingValue),
        };
        let point = match decode_point_offset(bytes) {
            Some(p) => p,
            None => return Err(IndexError::ValueWithIncorrectLength),
        };
        let decoded = T::decode_key(key).1;
        let ghost old_view = self@;
        Self::add_to_map(&mut self.map, key, point);
        self.ensure_point(point);
        let ghost padded_values = self@.point_to_values;
        let mut list: Vec<T> = Vec::new();
        self.point_to_values.set_and_swap(point as usize, &mut list);
        list.push(decoded);
        self.point_to_values.set(point as usize, list);
        assert(self@.point_to_values =~= padded_values.update(
            point as int,
            padded_values[point as int].push(decoded),
        ));
        Ok(())
    }

    /// Loads stored pairs in order, as a store hands them out, and stops at the
    /// first pair that cannot be loaded.
    pub fn load(&mut self, stored: &[(Vec<u8>, Option<Vec<u8>>)]) -> (r: Result<(), IndexError>)
        requires
            forall|i: int| 0 <= i < stored@.len() ==> (#[trigger] stored@[i]).0@.len() == KEY_LEN,
        ensures
            view_after_loading(old(self)@, stored_view(stored@)) == (final(self)@, r),
    {
        let ghost all = stored_view(stored@);
        let mut i: usize = 0;
        assert(all.take(0) =~= Seq::<(Seq<u8>, Option<Seq<u8>>)>::empty());
        while i < stored.len()
            invariant
                i <= stored@.len(),
                all == stored_view(stored@),
                forall|j: int| 0 <= j < stored@.len() ==> (#[trigger] stored@[j]).0@.len() == KEY_LEN,
                view_after_loading(old(self)@, all.take(i as int)) == (self@, Ok::<(), IndexError>(())),
            decreases stored@.len() - i,
        {
            let (key, value) = &stored[i];
            let value_bytes: Option<&[u8]> = match value {
                Some(v) => Some(v.as_slice()),
                None => None,
            };
            let ghost before = self@;
            let r = self.load_entry(key.as_slice(), value_bytes);
            proof {
                assert(all.take(i + 1).drop_last() =~= all.take(i as int));
                assert(all.take(i + 1).last() == all[i as int]);
            }
            if let Err(e) = r {
                proof {
                    lemma_loading_stops(old(self)@, all, i + 1);
                    assert(all.take(stored@.len() as int) =~= all);
                }
                return Err(e);
            }
            i += 1;
        }
        assert(all.take(stored@.len() as int) =~= all);
        Ok(())
    }

    /// Removes point `idx`: its list of values becomes empty and the key of
    /// each of its values leaves the index. Gives back those keys, for a store
    /// beside the index to delete.
    pub fn remove_point(&mut self, idx: PointOffsetType) -> (removed: Vec<Vec<u8>>)
        ensures
            old(self)@.point_to_values.len() <= idx ==> final(self)@ == old(self)@ && removed@.len() == 0,
            idx < old(self)@.point_to_values.len() ==> {
                let values = old(self)@.point_to_values[idx as int];
                &&& final(self)@.entries == old(self)@.entries.remove_keys(point_entries(values, idx).dom())
                &&& final(self)@.point_to_values == old(self)@.point_to_values.update(
                    idx as int,
                    Seq::<T>::empty(),
                )
                &&& final(self)@.points_count == old(self)@.points_count
                &&& final(self)@.max_values_per_point == old(self)@.max_values_per_point
                &&& removed@.len() == values.len()
                &&& forall|i: int| 0 <= i < values.len() ==> #[trigger] removed@[i]@ == point_keys(values, idx)[i]
            },
    {
        if self.point_to_values.len() <= idx as usize {
            return Vec::new();
        }
        let ghost old_view = self@;
        let mut removed_values: Vec<T> = Vec::new();
        self.point_to_values.set_and_swap(idx as usize, &mut removed_values);
        assert(self@.point_to_values =~= old_view.point_to_values.update(idx as int, Seq::<T>::empty()));
        let ghost values = removed_values@;
        let mut removed: Vec<Vec<u8>> = Vec::new();
        let mut i: usize = 0;
        assert(point_entries(values.take(0), idx).dom() =~= Set::<(u64, u32)>::empty());
        assert(old_view.entries.remove_keys(Set::<(u64, u32)>::empty()) =~= old_view.entries);
        while i < removed_values.len()
            invariant
                i <= removed_values@.len(),
                values == removed_values@,
                values == old_view.point_to_values[idx as int],
                self@.entries == old_view.entries.remove_keys(point_entries(values.take(i as int), idx).dom()),
                self@.point_to_values == old_view.point_to_values.update(idx as int, Seq::<T>::empty()),
                self@.points_count == old_view.points_count,
                self@.max_values_per_point == old_view.max_values_per_point,
                removed@.len() == i,
                forall|j: int| 0 <= j < i ==> #[trigger] removed@[j]@ == point_keys(values, idx)[j],
            decreases removed_values@.len() - i,
        {
            let key = removed_values[i].encode_key(idx);
            proof {
                lemma_key_entry_of_key(values[i as int].spec_order_key(), idx);
                lemma_point_keys_push(values, idx, i as int);
            }
            let entry = decode_key_entry(key.as_slice());
            self.map.remove(&entry);
            assert(self@.entries =~= old_view.entries.remove_keys(point_entries(values.take(i + 1), idx).dom()));
            removed.push(key);
            i += 1;
        }
        assert(values.take(values.len() as int) =~= values);
        removed
    }

    /// The values of point `idx`, if the index has a list for it.
    pub fn get_values(&self, idx: PointOffsetType) -> (values: Option<&Vec<T>>)
        ensures
            values is Some <==> idx < self@.point_to_values.len(),
            values matches Some(v) ==> v@ == self@.point_to_values[idx as int],
    {
        if (idx as usize) < self.point_to_values.len() {
            Some(&self.point_to_values[idx as usize])
        } else {
            None
        }
    }

    /// The estimate of how many points a range selects, from what a histogram
    /// of the values says of the range: `below` values certainly in it,
    /// `above` values at most in it, and `estimation`, the expected number of
    /// points. Each point has at most `max_values_per_point` values, so at
    /// least `below / max_values_per_point` points are selected; the expected
    /// number is kept between the two bounds.
    pub fn cardinality_from_histogram(&self, below: usize, above: usize, estimation: usize) -> (c: CardinalityEstimation)
        requires
            self@.max_values_per_point > 0,
        ensures
            c.min == below as nat / self@.max_values_per_point,
            c.max == above,
            c.exp == clamp_estimation(c.min, estimation, above),
            c.min <= estimation <= c.max ==> c.exp == estimation,
            estimation < c.min ==> c.exp == vstd::math::min(c.min as int, c.max as int),
            estimation > c.max ==> c.exp == c.max,
            c.exp <= c.max,
    {
        let min_estimation = below / self.max_values_per_point;
        let at_least_min = if estimation < min_estimation {
            min_estimation
        } else {
            estimation
        };
        let exp = if above < at_least_min {
            above
        } else {
            at_least_min
        };
        CardinalityEstimation { min: min_estimation, exp, max: above }
    }

    /// The longest list of values given to one point.
    pub fn max_values_per_point(&self) -> (n: usize)
        ensures
            n == self@.max_values_per_point,
    {
        self.max_values_per_point
    }

    /// How many times a point was given a non-empty list of values.
    pub fn points_count(&self) -> (n: usize)
        ensures
            n == self@.points_count,
    {
        self.points_count
    }

    /// The number of keys in the index.
    pub fn count_indexed_points(&self) -> (n: usize)
        ensures
            n == self@.entries.len(),
    {
        self.map.len()
    }

    /// The points whose values the condition's range admits, in key order
    /// (by value, then by point); `None` where the condition has no range.
    pub fn filter(&self, condition: &FieldCondition<T>) -> (ids: Option<Vec<PointOffsetType>>)
        ensures
            ids is Some <==> condition.range is Some,
            ids matches Some(ids) ==> is_range_selection(
                self@.entries,
                condition.range->0,
                ids@,
            ),
    {
        let cond_range = match &condition.range {
            Some(r) => r,
            None => return None,
        };
        let start_bound = match &cond_range.gt {
            Some(gt) => KeyBound::Excluded(key_of(gt, u32::MAX)),
            None => match &cond_range.gte {
                Some(gte) => KeyBound::Included(key_of(gte, u32::MIN)),
                None => KeyBound::Unbounded,
            },
        };
        let end_bound = match &cond_range.lt {
            Some(lt) => KeyBound::Excluded(key_of(lt, u32::MIN)),
            None => match &cond_range.lte {
                Some(lte) => KeyBound::Included(key_of(lte, u32::MAX)),
                None => KeyBound::Unbounded,
            },
        };
        let ghost range = *cond_range;
        assert forall|k: (u64, u32)|
            above_start(k, start_bound) && below_end(k, end_bound) <==> #[trigger] range_admits(
                range,
                k.0,
            ) by {}
        let ids = self.ids_between(&start_bound, &end_bound);
        let ghost entries = self@.entries;
        assert(selected_keys(entries, range) =~= entries.dom().filter(
            |k: (u64, u32)| above_start(k, start_bound) && below_end(k, end_bound),
        ));
        Some(ids)
    }

    /// The points stored under the keys between `start` and `end`, in key order.
    fn ids_between(&self, start: &KeyBound, end: &KeyBound) -> (ids: Vec<PointOffsetType>)
        ensures
            lists_in_key_order(
                self@.entries,
                self@.entries.dom().filter(|k: (u64, u32)| above_start(k, *start) && below_end(k, *end)),
                ids@,
            ),
    {
        let ghost m = self.map@;
        let ghost sel = m.dom().filter(|k: (u64, u32)| above_start(k, *start) && below_end(k, *end));
        let mut ids: Vec<PointOffsetType> = Vec::new();
        let ghost mut keys: Seq<(u64, u32)> = Seq::empty();
        proof {
            lemma_pair_keys_obey_cmp();
        }
        let entries_iter = self.map.iter();
        proof {
            lemma_increasing_entries_ascend(entries_iter.remaining());
            assert(entries_iter == spec_btree_map_iter(&self.map));
        }
        let ghost listing = entries_iter.remaining();
        for (k, v) in it: entries_iter
            invariant
                m == self.map@,
                sel == m.dom().filter(|k: (u64, u32)| above_start(k, *start) && below_end(k, *end)),
                ids@ == keys.map_values(|k: (u64, u32)| m[k]),
                forall|i: int, j: int| 0 <= i < j < keys.len() ==> entry_lt(#[trigger] keys[i], #[trigger] keys[j]),
                forall|i: int| 0 <= i < keys.len() ==> sel.contains(#[trigger] keys[i]),
                forall|i: int, j: int|
                    0 <= i < keys.len() && it.index() <= j < it.seq().len() ==> entry_lt(
                        #[trigger] keys[i],
                        *(#[trigger] it.seq()[j]).0,
                    ),
                it.seq() == listing,
                forall|j: int|
                    0 <= j < listing.len() ==> m.contains_key(*(#[trigger] listing[j]).0) && m[*listing[j].0]
                        == *listing[j].1,
                forall|k: (u64, u32)| #[trigger] m.contains_key(k) ==> listing.contains((&k, &m[k])),
                forall|i: int, j: int|
                    0 <= i < j < it.seq().len() ==> entry_lt(
                        *(#[trigger] it.seq()[i]).0,
                        *(#[trigger] it.seq()[j]).0,
                    ),
                forall|j: int|
                    0 <= j < it.index() && sel.contains(*(#[trigger] it.seq()[j]).0) ==> keys.contains(
                        *it.seq()[j].0,
                    ),
        {
            let ghost old_keys = keys;
            if is_above_start(*k, start) && is_below_end(*k, end) {
                ids.push(*v);
                proof {
                    keys = keys.push(*k);
                    assert(keys[keys.len() - 1] == *k);
                }
            }
            proof {
                assert forall|x: (u64, u32)| old_keys.contains(x) implies keys.contains(x) by {
                    let w = choose|w: int| 0 <= w < old_keys.len() && old_keys[w] == x;
                    assert(keys[w] == x);
                }
            }
        }
        assert forall|k: (u64, u32)| #[trigger] sel.contains(k) implies keys.contains(k) by {
            let j = choose|j: int| 0 <= j < listing.len() && listing[j] == (&k, &m[k]);
            assert(*listing[j].0 == k);
        }
        assert(lists_ascending(keys, sel));
        ids
    }
}

/// The entries of the first `i + 1` values of a point are those of the first
/// `i` values and the key of value `i`.
pub proof fn lemma_point_entries_take<T: KeyEncoder>(values: Seq<T>, idx: u32, i: int)
    requires
        0 <= i < values.len(),
    ensures
        point_entries(values.take(i + 1), idx) == point_entries(values.take(i), idx).insert(
            (values[i].spec_order_key(), idx),
            idx,
        ),
{
    let before = point_entries(values.take(i), idx);
    let after = point_entries(values.take(i + 1), idx);
    let k_new = (values[i].spec_order_key(), idx);
    assert forall|k: (u64, u32)| after.contains_key(k) <==> before.insert(k_new, idx).contains_key(k) by {
        if after.contains_key(k) && k != k_new {
            let j = choose|j: int| 0 <= j < i + 1 && (#[trigger] values.take(i + 1)[j]).spec_order_key() == k.0;
            assert(values.take(i)[j] == values.take(i + 1)[j]);
        }
        if before.contains_key(k) {
            let j = choose|j: int| 0 <= j < i && (#[trigger] values.take(i)[j]).spec_order_key() == k.0;
            assert(values.take(i)[j] == values.take(i + 1)[j]);
        }
        if k == k_new {
            assert(values.take(i + 1)[i] == values[i]);
        }
    }
    assert(after =~= before.insert(k_new, idx));
}

/// Indexing one more value of a point adds its key.
pub proof fn lemma_point_entries_push<T: KeyEncoder>(
    entries: Map<(u64, u32), u32>,
    values: Seq<T>,
    idx: u32,
    i: int,
)
    requires
        0 <= i < values.len(),
    ensures
        entries.union_prefer_right(point_entries(values.take(i + 1), idx)) == entries.union_prefer_right(
            point_entries(values.take(i), idx),
        ).insert((values[i].spec_order_key(), idx), idx),
{
    lemma_point_entries_take(values, idx, i);
    let before = point_entries(values.take(i), idx);
    let k_new = (values[i].spec_order_key(), idx);
    assert(entries.union_prefer_right(before.insert(k_new, idx)) =~= entries.union_prefer_right(
        before,
    ).insert(k_new, idx));
}

/// The key set of the values of a point grows by the key of each next value.
proof fn lemma_point_keys_push<T: KeyEncoder>(values: Seq<T>, idx: u32, i: int)
    requires
        0 <= i < values.len(),
    ensures
        point_entries(values.take(i + 1), idx).dom() == point_entries(values.take(i), idx).dom().insert(
            (values[i].spec_order_key(), idx),
        ),
{
    lemma_point_entries_take(values, idx, i);
    let before = point_entries(values.take(i), idx);
    assert(before.insert((values[i].spec_order_key(), idx), idx).dom() =~= before.dom().insert(
        (values[i].spec_order_key(), idx),
    ));
}

/// Once loading a prefix of the stored pairs has failed, loading more of them
/// changes nothing.
proof fn lemma_loading_stops<T: KeyDecoder>(
    v: NumericIndexView<T>,
    stored: Seq<(Seq<u8>, Option<Seq<u8>>)>,
    n: int,
)
    requires
        0 <= n <= stored.len(),
        view_after_loading(v, stored.take(n)).1 is Err,
    ensures
        view_after_loading(v, stored) == view_after_loading(v, stored.take(n)),
    decreases stored.len(),
{
    if stored.len() > n {
        let shorter = stored.drop_last();
        assert(shorter.take(n) =~= stored.take(n));
        lemma_loading_stops(v, shorter, n);
    } else {
        assert(stored.take(n) =~= stored);
    }
}

} // verus!
