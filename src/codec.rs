//! Encoding of a raw key followed by a timestamp.
//!
//! The timestamp is bitwise inverted and appended big-endian, so that for a
//! fixed raw key a higher timestamp sorts first.
use vstd::prelude::*;
use crate::order::bytes_lt;

verus! {

/// Number of bytes that an encoded timestamp occupies.
pub const TS_LEN: usize = 8;

/// Errors of the key/timestamp codec.
#[derive(Debug, Clone, Copy, PartialEq, Eq, Structural)]
pub enum CodecError {
    /// The encoded key is shorter than a timestamp.
    KeyLength,
}

/// The eight bytes appended for `ts`: `!ts` in big-endian order.
pub open spec fn ts_bytes(ts: u64) -> Seq<u8> {
    let n = !ts;
    seq![
        (n >> 56u64) as u8,
        (n >> 48u64) as u8,
        (n >> 40u64) as u8,
        (n >> 32u64) as u8,
        (n >> 24u64) as u8,
        (n >> 16u64) as u8,
        (n >> 8u64) as u8,
        n as u8,
    ]
}

/// The big-endian number held in eight bytes.
pub open spec fn be_u64(b0: u8, b1: u8, b2: u8, b3: u8, b4: u8, b5: u8, b6: u8, b7: u8) -> u64 {
    ((b0 as u64) << 56u64) | ((b1 as u64) << 48u64) | ((b2 as u64) << 40u64) | ((b3 as u64)
        << 32u64) | ((b4 as u64) << 24u64) | ((b5 as u64) << 16u64) | ((b6 as u64) << 8u64) | (
    b7 as u64)
}

/// The timestamp that the last eight bytes of `k` encode.
pub open spec fn ts_of(k: Seq<u8>) -> u64
    recommends
        k.len() >= 8,
{
    let n = k.len() - 8;
    !be_u64(k[n], k[n + 1], k[n + 2], k[n + 3], k[n + 4], k[n + 5], k[n + 6], k[n + 7])
}

/// The raw key in front of the encoded timestamp.
pub open spec fn user_key_of(k: Seq<u8>) -> Seq<u8>
    recommends
        k.len() >= 8,
{
    k.subrange(0, k.len() - 8)
}

proof fn lemma_be_bytes(n: u64)
    ensures
        be_u64(
            (n >> 56u64) as u8,
            (n >> 48u64) as u8,
            (n >> 40u64) as u8,
            (n >> 32u64) as u8,
            (n >> 24u64) as u8,
            (n >> 16u64) as u8,
            (n >> 8u64) as u8,
            n as u8,
        ) == n,
{
    assert(((((n >> 56u64) as u8) as u64) << 56u64) | ((((n >> 48u64) as u8) as u64) << 48u64)
        | ((((n >> 40u64) as u8) as u64) << 40u64) | ((((n >> 32u64) as u8) as u64) << 32u64)
        | ((((n >> 24u64) as u8) as u64) << 24u64) | ((((n >> 16u64) as u8) as u64) << 16u64)
        | ((((n >> 8u64) as u8) as u64) << 8u64) | ((n as u8) as u64) == n) by (bit_vector);
}

/// Appending a timestamp and decoding it back gives the timestamp and the raw key.
pub proof fn lemma_round_trip(key: Seq<u8>, ts: u64)
    ensures
        (key + ts_bytes(ts)).len() == key.len() + 8,
        ts_of(key + ts_bytes(ts)) == ts,
        user_key_of(key + ts_bytes(ts)) == key,
{
    let k = key + ts_bytes(ts);
    let n = !ts;
    lemma_be_bytes(n);
    assert(!(!ts) == ts) by (bit_vector);
    assert(k.subrange(0, k.len() - 8) =~= key);
}

/// Byte strings of one length that agree before index `d` and differ
/// upwards there sort in that order.
pub proof fn lemma_first_difference(a: Seq<u8>, b: Seq<u8>, d: int)
    requires
        a.len() == b.len(),
        0 <= d < a.len(),
        forall|i: int| 0 <= i < d ==> a[i] == b[i],
        a[d] < b[d],
    ensures
        bytes_lt(a, b),
    decreases d,
{
    if d > 0 {
        let a1 = a.subrange(1, a.len() as int);
        let b1 = b.subrange(1, b.len() as int);
        assert forall|i: int| 0 <= i < d - 1 implies a1[i] == b1[i] by {
            assert(a1[i] == a[i + 1]);
            assert(b1[i] == b[i + 1]);
        }
        assert(a[0] == b[0]);
        lemma_first_difference(a1, b1, d - 1);
    }
}

/// A common prefix does not change the order.
pub proof fn lemma_prefix_order(p: Seq<u8>, a: Seq<u8>, b: Seq<u8>)
    ensures
        bytes_lt(p + a, p + b) == bytes_lt(a, b),
    decreases p.len(),
{
    if p.len() > 0 {
        let p1 = p.subrange(1, p.len() as int);
        assert((p + a).subrange(1, (p + a).len() as int) =~= p1 + a);
        assert((p + b).subrange(1, (p + b).len() as int) =~= p1 + b);
        assert((p + a)[0] == p[0]);
        assert((p + b)[0] == p[0]);
        lemma_prefix_order(p1, a, b);
    } else {
        assert(p + a =~= a);
        assert(p + b =~= b);
    }
}

proof fn lemma_shift_step(x: u64, y: u64, s: u64)
    requires
        s <= 48,
        s % 8 == 0,
        x >> (s + 8) == y >> (s + 8),
        x >> s < y >> s,
    ensures
        ((x >> s) as u8) < ((y >> s) as u8),
{
    assert(x >> (s + 8) == y >> (s + 8) && x >> s < y >> s && s <= 48 ==> ((x >> s) as u8) < ((y >> s) as u8)) by (bit_vector);
}

/// A later timestamp's encoding sorts first after one raw key.
pub proof fn lemma_newer_sorts_first(key: Seq<u8>, t1: u64, t2: u64)
    requires
        t1 > t2,
    ensures
        bytes_lt(key + ts_bytes(t1), key + ts_bytes(t2)),
{
    let x = !t1;
    let y = !t2;
    assert(x < y) by (bit_vector)
        requires
            t1 > t2,
            x == !t1,
            y == !t2,
    ;
    let a = ts_bytes(t1);
    let b = ts_bytes(t2);
    assert(x >> 56u64 <= y >> 56u64) by (bit_vector) requires x < y;
    assert(x >> 48u64 <= y >> 48u64) by (bit_vector) requires x < y;
    assert(x >> 40u64 <= y >> 40u64) by (bit_vector) requires x < y;
    assert(x >> 32u64 <= y >> 32u64) by (bit_vector) requires x < y;
    assert(x >> 24u64 <= y >> 24u64) by (bit_vector) requires x < y;
    assert(x >> 16u64 <= y >> 16u64) by (bit_vector) requires x < y;
    assert(x >> 8u64 <= y >> 8u64) by (bit_vector) requires x < y;
    assert(x >> 64u64 == 0 && y >> 64u64 == 0) by (bit_vector);
    assert((x >> 56u64) as u8 == x >> 56u64 && (y >> 56u64) as u8 == y >> 56u64) by (bit_vector);
    if x >> 56u64 < y >> 56u64 {
        lemma_first_difference(a, b, 0);
    } else if x >> 48u64 < y >> 48u64 {
        assert(x >> 56u64 == y >> 56u64);
        lemma_shift_step(x, y, 48);
        lemma_first_difference(a, b, 1);
    } else if x >> 40u64 < y >> 40u64 {
        assert((x >> 56u64) as u8 == (y >> 56u64) as u8 && (x >> 48u64) as u8 == (y >> 48u64) as u8) by (bit_vector)
            requires x >> 48u64 == y >> 48u64;
        lemma_shift_step(x, y, 40);
        lemma_first_difference(a, b, 2);
    } else if x >> 32u64 < y >> 32u64 {
        assert((x >> 56u64) as u8 == (y >> 56u64) as u8 && (x >> 48u64) as u8 == (y >> 48u64) as u8
            && (x >> 40u64) as u8 == (y >> 40u64) as u8) by (bit_vector)
            requires x >> 40u64 == y >> 40u64;
        lemma_shift_step(x, y, 32);
        lemma_first_difference(a, b, 3);
    } else if x >> 24u64 < y >> 24u64 {
        assert((x >> 56u64) as u8 == (y >> 56u64) as u8 && (x >> 48u64) as u8 == (y >> 48u64) as u8
            && (x >> 40u64) as u8 == (y >> 40u64) as u8 && (x >> 32u64) as u8 == (y >> 32u64) as u8) by (bit_vector)
            requires x >> 32u64 == y >> 32u64;
        lemma_shift_step(x, y, 24);
        lemma_first_difference(a, b, 4);
    } else if x >> 16u64 < y >> 16u64 {
        assert((x >> 56u64) as u8 == (y >> 56u64) as u8 && (x >> 48u64) as u8 == (y >> 48u64) as u8
            && (x >> 40u64) as u8 == (y >> 40u64) as u8 && (x >> 32u64) as u8 == (y >> 32u64) as u8
            && (x >> 24u64) as u8 == (y >> 24u64) as u8) by (bit_vector)
            requires x >> 24u64 == y >> 24u64;
        lemma_shift_step(x, y, 16);
        lemma_first_difference(a, b, 5);
    } else if x >> 8u64 < y >> 8u64 {
        assert((x >> 56u64) as u8 == (y >> 56u64) as u8 && (x >> 48u64) as u8 == (y >> 48u64) as u8
            && (x >> 40u64) as u8 == (y >> 40u64) as u8 && (x >> 32u64) as u8 == (y >> 32u64) as u8
            && (x >> 24u64) as u8 == (y >> 24u64) as u8 && (x >> 16u64) as u8 == (y >> 16u64) as u8) by (bit_vector)
            requires x >> 16u64 == y >> 16u64;
        lemma_shift_step(x, y, 8);
        lemma_first_difference(a, b, 6);
    } else {
        assert((x >> 56u64) as u8 == (y >> 56u64) as u8 && (x >> 48u64) as u8 == (y >> 48u64) as u8
            && (x >> 40u64) as u8 == (y >> 40u64) as u8 && (x >> 32u64) as u8 == (y >> 32u64) as u8
            && (x >> 24u64) as u8 == (y >> 24u64) as u8 && (x >> 16u64) as u8 == (y >> 16u64) as u8
            && (x >> 8u64) as u8 == (y >> 8u64) as u8 && (x as u8) < (y as u8)) by (bit_vector)
            requires x >> 8u64 == y >> 8u64, x < y;
        lemma_first_difference(a, b, 7);
    }
    lemma_prefix_order(key, a, b);
}

/// `raw_key` followed by the encoding of `ts`.
pub fn append_timestamp(raw_key: &Vec<u8>, ts: u64) -> (r: Vec<u8>)
    requires
        raw_key.len() + 8 <= usize::MAX,
    ensures
        r@ == raw_key@ + ts_bytes(ts),
{
    let mut r = raw_key.clone();
    let n = !ts;
    r.push((n >> 56u64) as u8);
    r.push((n >> 48u64) as u8);
    r.push((n >> 40u64) as u8);
    r.push((n >> 32u64) as u8);
    r.push((n >> 24u64) as u8);
    r.push((n >> 16u64) as u8);
    r.push((n >> 8u64) as u8);
    r.push(n as u8);
    assert(r@ =~= raw_key@ + ts_bytes(ts));
    r
}

/// The timestamp encoded at the end of `encoded`; an error when it is shorter
/// than a timestamp.
pub fn decode_timestamp(encoded: &Vec<u8>) -> (r: Result<u64, CodecError>)
    ensures
        encoded@.len() < 8 ==> r == Err::<u64, CodecError>(CodecError::KeyLength),
        encoded@.len() >= 8 ==> r == Ok::<u64, CodecError>(ts_of(encoded@)),
{
    if encoded.len() < TS_LEN {
        return Err(CodecError::KeyLength);
    }
    let n = encoded.len() - TS_LEN;
    let v = ((encoded[n] as u64) << 56u64) | ((encoded[n + 1] as u64) << 48u64) | ((encoded[n
        + 2] as u64) << 40u64) | ((encoded[n + 3] as u64) << 32u64) | ((encoded[n + 4] as u64)
        << 24u64) | ((encoded[n + 5] as u64) << 16u64) | ((encoded[n + 6] as u64) << 8u64) | (
    encoded[n + 7] as u64);
    Ok(!v)
}

/// The raw key in front of the timestamp; an error when `encoded` is shorter
/// than a timestamp.
pub fn truncate_timestamp(encoded: &Vec<u8>) -> (r: Result<Vec<u8>, CodecError>)
    ensures
        encoded@.len() < 8 <==> r is Err,
        r is Err ==> r == Err::<Vec<u8>, CodecError>(CodecError::KeyLength),
        r is Ok ==> r.unwrap()@ == user_key_of(encoded@),
{
    if encoded.len() < TS_LEN {
        return Err(CodecError::KeyLength);
    }
    let n = encoded.len() - TS_LEN;
    let mut r: Vec<u8> = Vec::new();
    let mut i: usize = 0;
    while i < n
        invariant
            n == encoded.len() - 8,
            i <= n,
            r@ == encoded@.subrange(0, i as int),
        decreases n - i,
    {
        r.push(encoded[i]);
        i += 1;
        assert(r@ =~= encoded@.subrange(0, i as int));
    }
    Ok(r)
}

/// Whether two encoded keys carry the same raw key in front of their
/// timestamps. Keys shorter than a timestamp are compared whole.
pub fn is_same_user_key(a: &Vec<u8>, b: &Vec<u8>) -> (r: bool)
    ensures
        a@.len() >= 8 && b@.len() >= 8 ==> (r <==> user_key_of(a@) == user_key_of(b@)),
        !(a@.len() >= 8 && b@.len() >= 8) ==> (r <==> a@ == b@),
{
    let (la, lb) = if a.len() >= TS_LEN && b.len() >= TS_LEN {
        (a.len() - TS_LEN, b.len() - TS_LEN)
    } else {
        (a.len(), b.len())
    };
    if la != lb {
        proof {
            if a@.len() >= 8 && b@.len() >= 8 {
                assert(user_key_of(a@).len() != user_key_of(b@).len());
            }
        }
        return false;
    }
    let mut i: usize = 0;
    while i < la
        invariant
            la == lb,
            a@.len() >= 8 && b@.len() >= 8 ==> la == a.len() - 8 && lb == b.len() - 8,
            !(a@.len() >= 8 && b@.len() >= 8) ==> la == a.len() && lb == b.len(),
            la <= a.len(),
            lb <= b.len(),
            i <= la,
            forall|j: int| 0 <= j < i ==> a@[j] == b@[j],
        decreases la - i,
    {
        if a[i] != b[i] {
            proof {
                if a@.len() >= 8 && b@.len() >= 8 {
                    assert(user_key_of(a@)[i as int] != user_key_of(b@)[i as int]);
                } else {
                    assert(a@[i as int] != b@[i as int]);
                }
            }
            return false;
        }
        i += 1;
    }
    proof {
        assert(a@.subrange(0, la as int) =~= b@.subrange(0, lb as int));
        if !(a@.len() >= 8 && b@.len() >= 8) {
            assert(a@ =~= a@.subrange(0, la as int));
            assert(b@ =~= b@.subrange(0, lb as int));
        }
    }
    true
}

} // verus!
