//! Protobuf wire-format primitives: the mathematical model of varints, field
//! keys and length-delimited payloads, and the calls into `prost` that encode
//! and decode them.

use vstd::prelude::*;
use vstd::utf8::{decode_utf8, encode_utf8, valid_utf8};

verus! {

#[verifier::external_type_specification]
#[verifier::external_body]
pub struct ExDecodeError(prost::DecodeError);

/// Largest field number that protobuf allows.
pub const MAX_TAG: u32 = 536870911;

/// Wire type of varint-encoded scalars.
pub const WIRE_VARINT: u8 = 0;

/// Wire type of length-delimited payloads (strings, bytes).
pub const WIRE_LENGTH_DELIMITED: u8 = 2;

/// LEB128 encoding of `v`: seven bits per byte, least significant group
/// first, the high bit set on every byte but the last.
pub open spec fn varint_bytes(v: u64) -> Seq<u8>
    decreases v,
{
    if v < 128 {
        seq![v as u8]
    } else {
        seq![(v % 128 + 128) as u8] + varint_bytes(v / 128)
    }
}

/// Reads a LEB128 number from the front of `buf`, using at most `budget`
/// bytes: the value and the number of bytes read.
pub open spec fn leb128_prefix(buf: Seq<u8>, budget: nat) -> Option<(int, nat)>
    decreases budget,
{
    if budget == 0 || buf.len() == 0 {
        None
    } else if buf[0] < 128 {
        Some((buf[0] as int, 1))
    } else {
        match leb128_prefix(buf.drop_first(), (budget - 1) as nat) {
            Some((v, n)) => Some(((buf[0] - 128) + 128 * v, n + 1)),
            None => None,
        }
    }
}

/// The varint at the front of `buf`, as protobuf reads it: at most ten
/// bytes, and a value that fits in 64 bits.
pub open spec fn varint_prefix(buf: Seq<u8>) -> Option<(u64, nat)> {
    match leb128_prefix(buf, 10) {
        Some((v, n)) => if v <= u64::MAX {
            Some((v as u64, n))
        } else {
            None
        },
        None => None,
    }
}

/// The encoded key of a field: its number and wire type packed in a varint.
pub open spec fn key_bytes(tag: u32, wire: u8) -> Seq<u8> {
    varint_bytes((tag * 8 + wire) as u64)
}

/// The field key at the front of `buf`: field number, wire type, bytes read.
/// A key beyond 32 bits, a wire type above 5 and field number 0 are refused.
pub open spec fn key_prefix(buf: Seq<u8>) -> Option<(u32, u8, nat)> {
    match varint_prefix(buf) {
        Some((k, n)) => if k > u32::MAX || k % 8 > 5 || k / 8 < 1 {
            None
        } else {
            Some(((k / 8) as u32, (k % 8) as u8, n))
        },
        None => None,
    }
}


/// A length-delimited payload at the front of `buf`: a varint length, then
/// that many bytes. Yields the payload and the number of bytes read.
pub open spec fn delimited_prefix(buf: Seq<u8>) -> Option<(Seq<u8>, nat)> {
    match varint_prefix(buf) {
        Some((len, n)) => if len > buf.len() - n {
            None
        } else {
            Some((buf.subrange(n as int, n + len), (n + len) as nat))
        },
        None => None,
    }
}

/// A `string` field's value at the front of `buf`, read with wire type
/// `wire`: a length-delimited payload that is valid UTF-8.
pub open spec fn string_value_prefix(wire: u8, buf: Seq<u8>) -> Option<(Seq<char>, nat)> {
    if wire != WIRE_LENGTH_DELIMITED {
        None
    } else {
        match delimited_prefix(buf) {
            Some((bytes, n)) => if valid_utf8(bytes) {
                Some((decode_utf8(bytes), n))
            } else {
                None
            },
            None => None,
        }
    }
}

/// A `bytes` field's value at the front of `buf`, read with wire type `wire`.
pub open spec fn bytes_value_prefix(wire: u8, buf: Seq<u8>) -> Option<(Seq<u8>, nat)> {
    if wire != WIRE_LENGTH_DELIMITED {
        None
    } else {
        delimited_prefix(buf)
    }
}

/// A `uint64` field's value at the front of `buf`, read with wire type `wire`.
pub open spec fn uint64_value_prefix(wire: u8, buf: Seq<u8>) -> Option<(u64, nat)> {
    if wire != WIRE_VARINT {
        None
    } else {
        varint_prefix(buf)
    }
}

/// How many bytes `prost::encoding::skip_field` consumes when it skips a group
/// (wire type 3) with field number `tag` at the front of `buf`, or `None` where
/// it fails.
pub uninterp spec fn group_skip_len(tag: u32, buf: Seq<u8>) -> Option<nat>;

/// How many bytes the value of an unknown field of wire type `wire` occupies
/// at the front of `buf`, for every wire type but groups (3): a varint, eight
/// bytes, a length-delimited payload or four bytes. An end-group marker (4)
/// on its own is refused.
pub open spec fn plain_skip_len(wire: u8, buf: Seq<u8>) -> Option<nat> {
    if wire == 0 {
        match varint_prefix(buf) {
            Some((_, n)) => Some(n),
            None => None,
        }
    } else if wire == 1 {
        if buf.len() >= 8 {
            Some(8)
        } else {
            None
        }
    } else if wire == 2 {
        match delimited_prefix(buf) {
            Some((_, n)) => Some(n),
            None => None,
        }
    } else if wire == 5 {
        if buf.len() >= 4 {
            Some(4)
        } else {
            None
        }
    } else {
        None
    }
}

/// How many bytes the value of an unknown field occupies at the front of
/// `buf`, given its wire type and field number.
pub open spec fn skipped_field_len(wire: u8, tag: u32, buf: Seq<u8>) -> Option<nat> {
    if wire == 3 {
        group_skip_len(tag, buf)
    } else {
        plain_skip_len(wire, buf)
    }
}

/// `prost::encoding::string::encode`: appends the field key (wire type 2),
/// the UTF-8 length of `value` as a varint, then the UTF-8 bytes of `value`.
#[verifier::external_body]
pub(crate) fn put_string_field(tag: u32, value: &String, buf: &mut Vec<u8>)
    requires
        1 <= tag <= MAX_TAG,
    ensures
        final(buf)@ == old(buf)@ + key_bytes(tag, WIRE_LENGTH_DELIMITED) + varint_bytes(
            encode_utf8(value@).len() as u64,
        ) + encode_utf8(value@),
{
    prost::encoding::string::encode(tag, value, buf)
}

/// `prost::encoding::bytes::encode`: appends the field key (wire type 2), the
/// length of `value` as a varint, then the bytes of `value`.
#[verifier::external_body]
pub(crate) fn put_bytes_field(tag: u32, value: &Vec<u8>, buf: &mut Vec<u8>)
    requires
        1 <= tag <= MAX_TAG,
    ensures
        final(buf)@ == old(buf)@ + key_bytes(tag, WIRE_LENGTH_DELIMITED) + varint_bytes(
            value@.len() as u64,
        ) + value@,
{
    prost::encoding::bytes::encode(tag, value, buf)
}

/// `prost::encoding::uint64::encode`: appends the field key (wire type 0),
/// then `value` as a varint.
#[verifier::external_body]
pub(crate) fn put_uint64_field(tag: u32, value: &u64, buf: &mut Vec<u8>)
    requires
        1 <= tag <= MAX_TAG,
    ensures
        final(buf)@ == old(buf)@ + key_bytes(tag, WIRE_VARINT) + varint_bytes(*value),
{
    prost::encoding::uint64::encode(tag, value, buf)
}

/// `prost::encoding::decode_key`: reads a field key from the front of `buf`
/// and yields its field number, its wire type as a number, and the bytes
/// after it.
#[verifier::external_body]
pub(crate) fn take_field_key<'a>(buf: &'a [u8]) -> (res: Result<(u32, u8, &'a [u8]), prost::DecodeError>)
    ensures
        match res {
            Ok((tag, wire, rest)) => key_prefix(buf@) matches Some((t, w, n)) && t == tag && w
                == wire && rest@ == buf@.skip(n as int),
            Err(_) => key_prefix(buf@) is None,
        },
{
    let mut cursor = buf;
    match prost::encoding::decode_key(&mut cursor) {
        Ok((tag, wire_type)) => Ok((tag, wire_type as u8, cursor)),
        Err(e) => Err(e),
    }
}

/// `prost::encoding::string::merge`: reads a `string` field's value from the
/// front of `buf` into `value` and yields the bytes after it. Where it fails,
/// what it leaves in `value` is not stated.
#[verifier::external_body]
pub(crate) fn take_string_value<'a>(wire: u8, value: &mut String, buf: &'a [u8]) -> (res: Result<
    &'a [u8],
    prost::DecodeError,
>)
    requires
        wire <= 5,
    ensures
        match res {
            Ok(rest) => string_value_prefix(wire, buf@) matches Some((s, n)) && final(value)@ == s
                && rest@ == buf@.skip(n as int),
            Err(_) => string_value_prefix(wire, buf@) is None,
        },
{
    let wire_type = prost::encoding::WireType::try_from(u64::from(wire))?;
    let mut cursor = buf;
    match prost::encoding::string::merge(
        wire_type,
        value,
        &mut cursor,
        prost::encoding::DecodeContext::default(),
    ) {
        Ok(()) => Ok(cursor),
        Err(e) => Err(e),
    }
}

/// `prost::encoding::bytes::merge`: reads a `bytes` field's value from the
/// front of `buf` into `value` and yields the bytes after it. Where it fails,
/// what it leaves in `value` is not stated.
#[verifier::external_body]
pub(crate) fn take_bytes_value<'a>(wire: u8, value: &mut Vec<u8>, buf: &'a [u8]) -> (res: Result<
    &'a [u8],
    prost::DecodeError,
>)
    requires
        wire <= 5,
    ensures
        match res {
            Ok(rest) => bytes_value_prefix(wire, buf@) matches Some((b, n)) && final(value)@ == b
                && rest@ == buf@.skip(n as int),
            Err(_) => bytes_value_prefix(wire, buf@) is None,
        },
{
    let wire_type = prost::encoding::WireType::try_from(u64::from(wire))?;
    let mut cursor = buf;
    match prost::encoding::bytes::merge(
        wire_type,
        value,
        &mut cursor,
        prost::encoding::DecodeContext::default(),
    ) {
        Ok(()) => Ok(cursor),
        Err(e) => Err(e),
    }
}

/// `prost::encoding::uint64::merge`: reads a `uint64` field's value from the
/// front of `buf` into `value` and yields the bytes after it. Where it fails,
/// what it leaves in `value` is not stated.
#[verifier::external_body]
pub(crate) fn take_uint64_value<'a>(wire: u8, value: &mut u64, buf: &'a [u8]) -> (res: Result<
    &'a [u8],
    prost::DecodeError,
>)
    requires
        wire <= 5,
    ensures
        match res {
            Ok(rest) => uint64_value_prefix(wire, buf@) matches Some((v, n)) && *final(value) == v
                && rest@ == buf@.skip(n as int),
            Err(_) => uint64_value_prefix(wire, buf@) is None,
        },
{
    let wire_type = prost::encoding::WireType::try_from(u64::from(wire))?;
    let mut cursor = buf;
    match prost::encoding::uint64::merge(
        wire_type,
        value,
        &mut cursor,
        prost::encoding::DecodeContext::default(),
    ) {
        Ok(()) => Ok(cursor),
        Err(e) => Err(e),
    }
}

/// `prost::encoding::skip_field`, with a fresh decode context: skips the value
/// of an unknown field at the front of `buf` and yields the bytes after it.
#[verifier::external_body]
pub(crate) fn skip_field_value<'a>(wire: u8, tag: u32, buf: &'a [u8]) -> (res: Result<
    &'a [u8],
    prost::DecodeError,
>)
    requires
        wire <= 5,
    ensures
        match res {
            Ok(rest) => (if wire == 3 {
                group_skip_len(tag, buf@)
            } else {
                plain_skip_len(wire, buf@)
            }) matches Some(n) && n <= buf@.len() && rest@ == buf@.skip(n as int),
            Err(_) => (if wire == 3 {
                group_skip_len(tag, buf@)
            } else {
                plain_skip_len(wire, buf@)
            }) is None,
        },
{
    let wire_type = prost::encoding::WireType::try_from(u64::from(wire))?;
    let mut cursor = buf;
    match prost::encoding::skip_field(
        wire_type,
        tag,
        &mut cursor,
        prost::encoding::DecodeContext::default(),
    ) {
        Ok(()) => Ok(cursor),
        Err(e) => Err(e),
    }
}

/// `128` raised to `n`.
pub open spec fn pow128(n: nat) -> nat
    decreases n,
{
    if n == 0 {
        1
    } else {
        128 * pow128((n - 1) as nat)
    }
}

/// A read LEB128 number takes at least one and at most `budget` bytes of
/// `buf`, and is never negative.
pub proof fn lemma_leb128_prefix_bounds(buf: Seq<u8>, budget: nat)
    ensures
        leb128_prefix(buf, budget) matches Some((v, n)) ==> 1 <= n <= buf.len() && n <= budget
            && v >= 0,
    decreases budget,
{
    if budget > 0 && buf.len() > 0 && buf[0] >= 128 {
        lemma_leb128_prefix_bounds(buf.drop_first(), (budget - 1) as nat);
    }
}

/// A read varint takes at least one and at most ten bytes of `buf`.
pub proof fn lemma_varint_prefix_bounds(buf: Seq<u8>)
    ensures
        varint_prefix(buf) matches Some((v, n)) ==> 1 <= n <= buf.len() && n <= 10,
{
    lemma_leb128_prefix_bounds(buf, 10);
}

/// A read field key takes at least one byte of `buf`; its wire type is at
/// most 5 and its field number at least 1.
pub proof fn lemma_key_prefix_bounds(buf: Seq<u8>)
    ensures
        key_prefix(buf) matches Some((t, w, n)) ==> 1 <= n <= buf.len() && w <= 5 && t >= 1,
{
    lemma_varint_prefix_bounds(buf);
}

/// A read length-delimited payload lies within `buf`.
pub proof fn lemma_delimited_prefix_bounds(buf: Seq<u8>)
    ensures
        delimited_prefix(buf) matches Some((b, n)) ==> 1 <= n <= buf.len() && b.len() < n,
{
    lemma_varint_prefix_bounds(buf);
}

/// Reading back the LEB128 bytes of `v`, with room for all of them, gives `v`
/// and their count, whatever follows them.
proof fn lemma_leb128_round_trip(v: u64, rest: Seq<u8>, budget: nat)
    requires
        1 <= budget,
        v < pow128(budget),
    ensures
        varint_bytes(v).len() >= 1,
        leb128_prefix(varint_bytes(v) + rest, budget) == Some((v as int, varint_bytes(v).len())),
    decreases v,
{
    let bytes = varint_bytes(v) + rest;
    if v < 128 {
        assert(bytes[0] == v as u8);
    } else {
        let p = pow128((budget - 1) as nat);
        assert(pow128(budget) == 128 * p);
        if budget == 1 {
            assert(pow128(0) == 1);
            assert(false);
        }
        assert(v / 128 < p) by (nonlinear_arith)
            requires
                v < 128 * p,
        ;
        lemma_leb128_round_trip(v / 128, rest, (budget - 1) as nat);
        assert(bytes.drop_first() =~= varint_bytes(v / 128) + rest);
        assert(bytes[0] == (v % 128 + 128) as u8);
    }
}

/// Reading back the varint encoding of `v` gives `v` and the encoding's
/// length, whatever follows it.
pub proof fn lemma_varint_round_trip(v: u64, rest: Seq<u8>)
    ensures
        1 <= varint_bytes(v).len() <= 10,
        varint_prefix(varint_bytes(v) + rest) == Some((v, varint_bytes(v).len())),
{
    reveal_with_fuel(pow128, 11);
    assert(pow128(10) == 1180591620717411303424);
    lemma_leb128_round_trip(v, rest, 10);
    lemma_leb128_prefix_bounds(varint_bytes(v) + rest, 10);
}

/// Reading back the encoded key of a field gives its number and wire type,
/// whatever follows it.
pub proof fn lemma_key_round_trip(tag: u32, wire: u8, rest: Seq<u8>)
    requires
        1 <= tag <= MAX_TAG,
        wire <= 5,
    ensures
        1 <= key_bytes(tag, wire).len(),
        key_prefix(key_bytes(tag, wire) + rest) == Some((tag, wire, key_bytes(tag, wire).len())),
{
    let k = (tag * 8 + wire) as u64;
    lemma_varint_round_trip(k, rest);
    assert(k % 8 == wire as int);
    assert(k / 8 == tag as int);
}

/// Reading back a length-delimited payload gives the payload and the number
/// of bytes it took, whatever follows it.
pub proof fn lemma_delimited_round_trip(payload: Seq<u8>, rest: Seq<u8>)
    requires
        payload.len() <= u64::MAX,
    ensures
        delimited_prefix(varint_bytes(payload.len() as u64) + payload + rest) == Some(
            (payload, varint_bytes(payload.len() as u64).len() + payload.len()),
        ),
{
    let len_bytes = varint_bytes(payload.len() as u64);
    let all = len_bytes + payload + rest;
    assert(all =~= len_bytes + (payload + rest));
    lemma_varint_round_trip(payload.len() as u64, payload + rest);
    assert(all.subrange(len_bytes.len() as int, (len_bytes.len() + payload.len()) as int) =~= payload);
}

} // verus!
