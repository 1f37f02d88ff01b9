//! Order-preserving byte keys for numeric payload values.
//!
//! A key is twelve bytes: the eight big-endian bytes of the value's *order key*
//! (a 64-bit word whose unsigned order is the order of the values), followed by
//! the four big-endian bytes of the point offset. Comparing two keys byte by
//! byte therefore compares first the values, then the points.
use vstd::prelude::*;

verus! {

/// Length in bytes of an encoded key.
pub const KEY_LEN: usize = 12;

/// Length in bytes of an encoded point offset.
pub const POINT_OFFSET_LEN: usize = 4;

/// The sign bit of a 64-bit word.
pub const SIGN_BIT: u64 = 0x8000_0000_0000_0000;

// ---------------------------------------------------------------------------
// Big-endian byte strings
// ---------------------------------------------------------------------------

/// `256` to the power `n`.
pub open spec fn pow256(n: nat) -> nat
    decreases n,
{
    if n == 0 {
        1
    } else {
        256 * pow256((n - 1) as nat)
    }
}

/// The number that a big-endian byte string stands for.
pub open spec fn be_value(s: Seq<u8>) -> nat
    decreases s.len(),
{
    if s.len() == 0 {
        0
    } else {
        (be_value(s.drop_last()) * 256 + s.last()) as nat
    }
}

/// The `n` lowest bytes of `x`, most significant first.
pub open spec fn be_bytes(x: nat, n: nat) -> Seq<u8>
    decreases n,
{
    if n == 0 {
        Seq::empty()
    } else {
        be_bytes(x / 256, (n - 1) as nat).push((x % 256) as u8)
    }
}

/// Lexicographic byte order, as `Vec<u8>` and `[u8]` compare: the first
/// differing byte decides, and a proper prefix comes first.
pub open spec fn lex_lt(a: Seq<u8>, b: Seq<u8>) -> bool
    decreases a.len(),
{
    if a.len() == 0 {
        b.len() > 0
    } else if b.len() == 0 {
        false
    } else if a[0] != b[0] {
        a[0] < b[0]
    } else {
        lex_lt(a.drop_first(), b.drop_first())
    }
}

pub proof fn lemma_pow256_facts()
    ensures
        pow256(4) == 0x1_0000_0000,
        pow256(7) == 0x100_0000_0000_0000,
        pow256(8) == 0x1_0000_0000_0000_0000,
{
    assert(pow256(0) == 1);
    assert(pow256(1) == 0x100);
    assert(pow256(2) == 0x1_0000);
    assert(pow256(3) == 0x100_0000);
    assert(pow256(4) == 0x1_0000_0000);
    assert(pow256(5) == 0x100_0000_0000);
    assert(pow256(6) == 0x1_0000_0000_0000);
    assert(pow256(7) == 0x100_0000_0000_0000);
    assert(pow256(8) == 0x1_0000_0000_0000_0000);
}

pub proof fn lemma_pow256_monotonic(a: nat, b: nat)
    requires
        a <= b,
    ensures
        pow256(a) <= pow256(b),
    decreases b,
{
    if a < b {
        lemma_pow256_monotonic(a, (b - 1) as nat);
    }
}

pub proof fn lemma_be_bytes_len(x: nat, n: nat)
    ensures
        be_bytes(x, n).len() == n,
    decreases n,
{
    if n > 0 {
        lemma_be_bytes_len(x / 256, (n - 1) as nat);
    }
}

pub proof fn lemma_be_value_bound(s: Seq<u8>)
    ensures
        be_value(s) < pow256(s.len()),
    decreases s.len(),
{
    if s.len() > 0 {
        lemma_be_value_bound(s.drop_last());
    }
}

/// Reading back the bytes of a number gives the number.
pub proof fn lemma_be_value_of_bytes(x: nat, n: nat)
    requires
        x < pow256(n),
    ensures
        be_value(be_bytes(x, n)) == x,
    decreases n,
{
    if n > 0 {
        let q = x / 256;
        lemma_be_value_of_bytes(q, (n - 1) as nat);
        lemma_be_bytes_len(x, n);
        let s = be_bytes(x, n);
        assert(s.drop_last() =~= be_bytes(q, (n - 1) as nat));
    }
}

/// Writing out the number that bytes stand for gives the bytes.
pub proof fn lemma_bytes_of_be_value(s: Seq<u8>)
    ensures
        be_bytes(be_value(s), s.len()) == s,
    decreases s.len(),
{
    if s.len() == 0 {
        assert(be_bytes(be_value(s), s.len()) =~= s);
    } else {
        let p = s.drop_last();
        lemma_bytes_of_be_value(p);
        let v = be_value(s);
        assert(v / 256 == be_value(p));
        assert(v % 256 == s.last());
        assert(s =~= p.push(s.last()));
    }
}

/// Lexicographic order of two concatenations whose first parts have the same
/// length.
pub proof fn lemma_lex_concat(a1: Seq<u8>, a2: Seq<u8>, b1: Seq<u8>, b2: Seq<u8>)
    requires
        a1.len() == b1.len(),
    ensures
        lex_lt(a1 + a2, b1 + b2) <==> (lex_lt(a1, b1) || (a1 == b1 && lex_lt(a2, b2))),
    decreases a1.len(),
{
    if a1.len() == 0 {
        assert(a1 + a2 =~= a2);
        assert(b1 + b2 =~= b2);
        assert(a1 =~= b1);
    } else {
        let a = a1 + a2;
        let b = b1 + b2;
        assert(a[0] == a1[0]);
        assert(b[0] == b1[0]);
        assert(a.drop_first() =~= a1.drop_first() + a2);
        assert(b.drop_first() =~= b1.drop_first() + b2);
        lemma_lex_concat(a1.drop_first(), a2, b1.drop_first(), b2);
        if a1[0] == b1[0] {
            if a1.drop_first() =~= b1.drop_first() {
                assert forall|i: int| 0 <= i < a1.len() implies a1[i] == b1[i] by {
                    if i > 0 {
                        assert(a1[i] == a1.drop_first()[i - 1]);
                        assert(b1[i] == b1.drop_first()[i - 1]);
                    }
                }
                assert(a1 =~= b1);
            }
        } else {
            assert(a1[0] != b1[0]);
        }
    }
}

pub proof fn lemma_lex_single(p: u8, q: u8)
    ensures
        lex_lt(seq![p], seq![q]) <==> p < q,
{
    let a = seq![p];
    let b = seq![q];
    assert(a.drop_first() =~= Seq::<u8>::empty());
    assert(b.drop_first() =~= Seq::<u8>::empty());
    assert(!lex_lt(Seq::<u8>::empty(), Seq::<u8>::empty()));
}

/// Big-endian bytes of the same length compare as the numbers they stand for.
pub proof fn lemma_lex_be_bytes(x: nat, y: nat, n: nat)
    requires
        x < pow256(n),
        y < pow256(n),
    ensures
        lex_lt(be_bytes(x, n), be_bytes(y, n)) <==> x < y,
    decreases n,
{
    if n == 0 {
        assert(be_bytes(x, n) =~= Seq::<u8>::empty());
        assert(be_bytes(y, n) =~= Seq::<u8>::empty());
    } else {
        let m = (n - 1) as nat;
        let qx = x / 256;
        let qy = y / 256;
        let hx = be_bytes(qx, m);
        let hy = be_bytes(qy, m);
        let px = (x % 256) as u8;
        let py = (y % 256) as u8;
        lemma_be_bytes_len(qx, m);
        lemma_be_bytes_len(qy, m);
        assert(be_bytes(x, n) =~= hx + seq![px]);
        assert(be_bytes(y, n) =~= hy + seq![py]);
        lemma_lex_concat(hx, seq![px], hy, seq![py]);
        lemma_lex_single(px, py);
        lemma_lex_be_bytes(qx, qy, m);
        lemma_be_value_of_bytes(qx, m);
        lemma_be_value_of_bytes(qy, m);
    }
}

// ---------------------------------------------------------------------------
// Keys
// ---------------------------------------------------------------------------

/// The key of the value whose order key is `order`, for point `id`.
pub open spec fn spec_key(order: u64, id: u32) -> Seq<u8> {
    be_bytes(order as nat, 8) + be_bytes(id as nat, 4)
}

/// What a twelve-byte key stands for: the order key and the point.
pub open spec fn key_entry(key: Seq<u8>) -> (u64, u32) {
    (be_value(key.take(8)) as u64, be_value(key.skip(8)) as u32)
}

/// The order of `(order key, point)` pairs: by order key, then by point.
pub open spec fn entry_lt(a: (u64, u32), b: (u64, u32)) -> bool {
    a.0 < b.0 || (a.0 == b.0 && a.1 < b.1)
}

/// A key gives back the order key and the point it was made from.
pub proof fn lemma_key_entry_of_key(order: u64, id: u32)
    ensures
        spec_key(order, id).len() == KEY_LEN,
        key_entry(spec_key(order, id)) == (order, id),
{
    lemma_pow256_facts();
    lemma_be_bytes_len(order as nat, 8);
    lemma_be_bytes_len(id as nat, 4);
    let k = spec_key(order, id);
    assert(k.take(8) =~= be_bytes(order as nat, 8));
    assert(k.skip(8) =~= be_bytes(id as nat, 4));
    lemma_be_value_of_bytes(order as nat, 8);
    lemma_be_value_of_bytes(id as nat, 4);
}

/// Every twelve-byte string is the key of what it stands for.
pub proof fn lemma_key_of_key_entry(key: Seq<u8>)
    requires
        key.len() == KEY_LEN,
    ensures
        spec_key(key_entry(key).0, key_entry(key).1) == key,
{
    lemma_pow256_facts();
    let hi = key.take(8);
    let lo = key.skip(8);
    lemma_be_value_bound(hi);
    lemma_be_value_bound(lo);
    lemma_bytes_of_be_value(hi);
    lemma_bytes_of_be_value(lo);
    assert(key =~= hi + lo);
}

/// Keys are ascending: the byte order of two keys is the order of the
/// `(order key, point)` pairs they encode.
pub proof fn lemma_key_order(a: (u64, u32), b: (u64, u32))
    ensures
        lex_lt(spec_key(a.0, a.1), spec_key(b.0, b.1)) <==> entry_lt(a, b),
{
    lemma_pow256_facts();
    lemma_be_bytes_len(a.0 as nat, 8);
    lemma_be_bytes_len(b.0 as nat, 8);
    lemma_lex_concat(
        be_bytes(a.0 as nat, 8),
        be_bytes(a.1 as nat, 4),
        be_bytes(b.0 as nat, 8),
        be_bytes(b.1 as nat, 4),
    );
    lemma_lex_be_bytes(a.0 as nat, b.0 as nat, 8);
    lemma_lex_be_bytes(a.1 as nat, b.1 as nat, 4);
    lemma_be_value_of_bytes(a.0 as nat, 8);
    lemma_be_value_of_bytes(b.0 as nat, 8);
}

// ---------------------------------------------------------------------------
// Executable encoding and decoding
// ---------------------------------------------------------------------------

/// Appends the `n` lowest bytes of `x`, most significant first.
fn push_be_bytes(out: &mut Vec<u8>, x: u64, n: usize)
    requires
        n <= 8,
    ensures
        final(out)@ == old(out)@ + be_bytes(x as nat, n as nat),
    decreases n,
{
    if n > 0 {
        push_be_bytes(out, x / 256, n - 1);
        out.push((x % 256) as u8);
        assert(out@ =~= old(out)@ + be_bytes(x as nat, n as nat));
    } else {
        assert(out@ =~= old(out)@ + be_bytes(x as nat, n as nat));
    }
}

/// The number that the big-endian bytes `s[start..end]` stand for.
fn be_value_of(s: &[u8], start: usize, end: usize) -> (r: u64)
    requires
        start <= end <= s@.len(),
        end - start <= 8,
    ensures
        r == be_value(s@.subrange(start as int, end as int)),
{
    let mut acc: u64 = 0;
    let mut i = start;
    assert(s@.subrange(start as int, start as int) =~= Seq::<u8>::empty());
    while i < end
        invariant
            start <= i <= end,
            end <= s@.len(),
            end - start <= 8,
            acc == be_value(s@.subrange(start as int, i as int)),
        decreases end - i,
    {
        proof {
            lemma_be_value_bound(s@.subrange(start as int, i as int));
            lemma_pow256_monotonic((i - start) as nat, 7);
            lemma_pow256_facts();
        }
        acc = acc * 256 + s[i] as u64;
        assert(s@.subrange(start as int, i + 1).drop_last() =~= s@.subrange(start as int, i as int));
        i += 1;
    }
    acc
}

/// The order key of an integer value: the value shifted by `2^63`, so that
/// unsigned order of order keys is signed order of values.
pub open spec fn i64_order_key(v: i64) -> u64 {
    (v + 0x8000_0000_0000_0000) as u64
}

/// The integer value whose order key is `k`.
pub open spec fn i64_from_order_key(k: u64) -> i64 {
    (k - 0x8000_0000_0000_0000) as i64
}

fn i64_order_key_of(v: i64) -> (k: u64)
    ensures
        k == i64_order_key(v),
{
    if v >= 0 {
        v as u64 + SIGN_BIT
    } else {
        (v + i64::MAX + 1) as u64
    }
}

fn i64_from_order_key_of(k: u64) -> (v: i64)
    ensures
        v == i64_from_order_key(k),
{
    if k >= SIGN_BIT {
        (k - SIGN_BIT) as i64
    } else {
        (k as i64) - i64::MAX - 1
    }
}

/// Integer order keys preserve order and can be read back.
pub proof fn lemma_i64_order_key(a: i64, b: i64, k: u64)
    ensures
        a < b <==> i64_order_key(a) < i64_order_key(b),
        i64_from_order_key(i64_order_key(a)) == a,
        i64_order_key(i64_from_order_key(k)) == k,
{
}

/// The order key of a double given by its IEEE 754 bit pattern: negative
/// patterns are inverted, non-negative ones get the sign bit set, so that
/// unsigned order of order keys is the IEEE 754 total order of the doubles.
pub open spec fn f64_bits_order_key(bits: u64) -> u64 {
    if bits >= SIGN_BIT {
        (u64::MAX - bits) as u64
    } else {
        (bits + SIGN_BIT) as u64
    }
}

/// The bit pattern whose order key is `k`.
pub open spec fn f64_bits_from_order_key(k: u64) -> u64 {
    if k >= SIGN_BIT {
        (k - SIGN_BIT) as u64
    } else {
        (u64::MAX - k) as u64
    }
}

/// The IEEE 754 total order of doubles, on their bit patterns: negative
/// doubles (sign bit set) come first, the larger magnitude first; then the
/// non-negative ones, the smaller magnitude first. Between numbers other than
/// zero and NaN this is the numeric order; `-0.0` comes before `+0.0`.
pub open spec fn f64_bits_total_lt(a: u64, b: u64) -> bool {
    let a_negative = a >= SIGN_BIT;
    let b_negative = b >= SIGN_BIT;
    if a_negative && b_negative {
        a > b
    } else if a_negative != b_negative {
        a_negative
    } else {
        a < b
    }
}

fn f64_bits_order_key_of(bits: u64) -> (k: u64)
    ensures
        k == f64_bits_order_key(bits),
{
    if bits >= SIGN_BIT {
        u64::MAX - bits
    } else {
        bits + SIGN_BIT
    }
}

fn f64_bits_from_order_key_of(k: u64) -> (bits: u64)
    ensures
        bits == f64_bits_from_order_key(k),
{
    if k >= SIGN_BIT {
        k - SIGN_BIT
    } else {
        u64::MAX - k
    }
}

/// Order keys of doubles follow the IEEE 754 total order and can be read back.
pub proof fn lemma_f64_bits_order_key(a: u64, b: u64, k: u64)
    ensures
        f64_bits_total_lt(a, b) <==> f64_bits_order_key(a) < f64_bits_order_key(b),
        f64_bits_from_order_key(f64_bits_order_key(a)) == a,
        f64_bits_order_key(f64_bits_from_order_key(k)) == k,
{
}

/// The `(order key, point)` pair that a twelve-byte key stands for.
pub fn decode_key_entry(key: &[u8]) -> (e: (u64, u32))
    requires
        key@.len() == KEY_LEN,
    ensures
        e == key_entry(key@),
{
    let order = be_value_of(key, 0, 8);
    let id = be_value_of(key, 8, KEY_LEN);
    proof {
        assert(key@.take(8) =~= key@.subrange(0, 8));
        assert(key@.skip(8) =~= key@.subrange(8, 12));
        lemma_be_value_bound(key@.subrange(8, 12));
        lemma_pow256_facts();
    }
    (order, id as u32)
}

/// The key of an integer value for a point.
pub fn encode_i64_key_ascending(val: i64, id: u32) -> (key: Vec<u8>)
    ensures
        key@ == spec_key(i64_order_key(val), id),
{
    let mut buf: Vec<u8> = Vec::with_capacity(KEY_LEN);
    push_be_bytes(&mut buf, i64_order_key_of(val), 8);
    push_be_bytes(&mut buf, id as u64, 4);
    assert(buf@ =~= spec_key(i64_order_key(val), id));
    buf
}

/// The point and the integer value of a key.
pub fn decode_i64_key_ascending(key: &[u8]) -> (r: (u32, i64))
    requires
        key@.len() == KEY_LEN,
    ensures
        r.0 == key_entry(key@).1,
        r.1 == i64_from_order_key(key_entry(key@).0),
{
    let (order, id) = decode_key_entry(key);
    (id, i64_from_order_key_of(order))
}

/// The key of a double, given by its bit pattern, for a point.
pub fn encode_f64_key_ascending(bits: u64, id: u32) -> (key: Vec<u8>)
    ensures
        key@ == spec_key(f64_bits_order_key(bits), id),
{
    let mut buf: Vec<u8> = Vec::with_capacity(KEY_LEN);
    push_be_bytes(&mut buf, f64_bits_order_key_of(bits), 8);
    push_be_bytes(&mut buf, id as u64, 4);
    assert(buf@ =~= spec_key(f64_bits_order_key(bits), id));
    buf
}

/// The point and the bit pattern of the double of a key.
pub fn decode_f64_key_ascending(key: &[u8]) -> (r: (u32, u64))
    requires
        key@.len() == KEY_LEN,
    ensures
        r.0 == key_entry(key@).1,
        r.1 == f64_bits_from_order_key(key_entry(key@).0),
{
    let (order, id) = decode_key_entry(key);
    (id, f64_bits_from_order_key_of(order))
}

/// The four big-endian bytes of a point offset, as stored beside its key.
pub fn encode_point_offset(id: u32) -> (bytes: Vec<u8>)
    ensures
        bytes@ == be_bytes(id as nat, 4),
{
    let mut buf: Vec<u8> = Vec::with_capacity(POINT_OFFSET_LEN);
    push_be_bytes(&mut buf, id as u64, 4);
    assert(buf@ =~= be_bytes(id as nat, 4));
    buf
}

/// The point offset that stored bytes stand for, if there are exactly four.
pub fn decode_point_offset(bytes: &[u8]) -> (r: Option<u32>)
    ensures
        r == (if bytes@.len() == POINT_OFFSET_LEN {
            Some(be_value(bytes@) as u32)
        } else {
            None::<u32>
        }),
        r is Some ==> r->0 == be_value(bytes@),
{
    if bytes.len() != POINT_OFFSET_LEN {
        return None;
    }
    let v = be_value_of(bytes, 0, POINT_OFFSET_LEN);
    proof {
        assert(bytes@.subrange(0, 4) =~= bytes@);
        lemma_be_value_bound(bytes@);
        lemma_pow256_facts();
    }
    Some(v as u32)
}

} // verus!
