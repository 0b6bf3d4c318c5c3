//! The echo service's `Message` (`message.proto`: `uid` = 1, `data` = 2,
//! `data_length` = 3) and its protobuf encoding.

use vstd::prelude::*;
use vstd::utf8::{encode_utf8, encode_utf8_decode_utf8, encode_utf8_valid_utf8};

use crate::wire::{
    bytes_value_prefix, key_bytes, key_prefix, lemma_delimited_round_trip,
    lemma_key_prefix_bounds, lemma_key_round_trip, put_bytes_field, put_string_field,
    put_uint64_field, skip_field_value, skipped_field_len, string_value_prefix,
    take_bytes_value, take_field_key, take_string_value, take_uint64_value, uint64_value_prefix,
    varint_bytes, WIRE_LENGTH_DELIMITED, WIRE_VARINT,
};

verus! {

/// Field number of `uid`.
pub const UID_TAG: u32 = 1;

/// Field number of `data`.
pub const DATA_TAG: u32 = 2;

/// Field number of `data_length`.
pub const DATA_LENGTH_TAG: u32 = 3;

/// The payload exchanged by the echo service.
#[derive(Clone, Debug)]
pub struct Message {
    /// Identifier of the message.
    pub uid: String,
    /// The payload bytes.
    pub data: Vec<u8>,
    /// The declared number of payload bytes.
    pub data_length: u64,
}

/// The mathematical value of a [`Message`].
pub struct MessageView {
    pub uid: Seq<char>,
    pub data: Seq<u8>,
    pub data_length: u64,
}

impl View for Message {
    type V = MessageView;

    open spec fn view(&self) -> MessageView {
        MessageView { uid: self.uid@, data: self.data@, data_length: self.data_length }
    }
}

/// The message every field of which has its default value.
pub open spec fn empty_message() -> MessageView {
    MessageView { uid: Seq::empty(), data: Seq::empty(), data_length: 0 }
}

/// Bytes of a `string` field: key, UTF-8 length, UTF-8 bytes.
pub open spec fn string_field_bytes(tag: u32, s: Seq<char>) -> Seq<u8> {
    key_bytes(tag, WIRE_LENGTH_DELIMITED) + varint_bytes(encode_utf8(s).len() as u64)
        + encode_utf8(s)
}

/// Bytes of a `bytes` field: key, length, the bytes.
pub open spec fn bytes_field_bytes(tag: u32, b: Seq<u8>) -> Seq<u8> {
    key_bytes(tag, WIRE_LENGTH_DELIMITED) + varint_bytes(b.len() as u64) + b
}

/// Bytes of a `uint64` field: key, then the value as a varint.
pub open spec fn uint64_field_bytes(tag: u32, v: u64) -> Seq<u8> {
    key_bytes(tag, WIRE_VARINT) + varint_bytes(v)
}

/// The protobuf encoding of a message: its fields in field-number order,
/// each left out where it holds its default value.
pub open spec fn encode_message(m: MessageView) -> Seq<u8> {
    (if m.uid.len() > 0 {
        string_field_bytes(UID_TAG, m.uid)
    } else {
        Seq::empty()
    }) + (if m.data.len() > 0 {
        bytes_field_bytes(DATA_TAG, m.data)
    } else {
        Seq::empty()
    }) + (if m.data_length != 0 {
        uint64_field_bytes(DATA_LENGTH_TAG, m.data_length)
    } else {
        Seq::empty()
    })
}

/// Merges the value of field `tag` (wire type `wire`) at the front of `buf`
/// into `m`: the new message and the bytes the value took. A known field
/// takes the value read; an unknown field is skipped.
pub open spec fn merge_field(m: MessageView, tag: u32, wire: u8, buf: Seq<u8>) -> Option<
    (MessageView, nat),
> {
    if tag == UID_TAG {
        match string_value_prefix(wire, buf) {
            Some((s, n)) => Some(
                (MessageView { uid: s, data: m.data, data_length: m.data_length }, n),
            ),
            None => None,
        }
    } else if tag == DATA_TAG {
        match bytes_value_prefix(wire, buf) {
            Some((b, n)) => Some(
                (MessageView { uid: m.uid, data: b, data_length: m.data_length }, n),
            ),
            None => None,
        }
    } else if tag == DATA_LENGTH_TAG {
        match uint64_value_prefix(wire, buf) {
            Some((v, n)) => Some((MessageView { uid: m.uid, data: m.data, data_length: v }, n)),
            None => None,
        }
    } else {
        match skipped_field_len(wire, tag, buf) {
            Some(n) => Some((m, n)),
            None => None,
        }
    }
}

/// Merges every field in `buf`, key after key, into `m`; `None` where a key or
/// a value cannot be read.
pub open spec fn merge_fields(buf: Seq<u8>, m: MessageView) -> Option<MessageView>
    decreases buf.len(),
{
    if buf.len() == 0 {
        Some(m)
    } else {
        match key_prefix(buf) {
            None => None,
            Some((tag, wire, k)) => {
                let rest = buf.skip(k as int);
                match merge_field(m, tag, wire, rest) {
                    None => None,
                    Some((m2, j)) => if 1 <= k <= buf.len() && j <= rest.len() {
                        merge_fields(rest.skip(j as int), m2)
                    } else {
                        None
                    },
                }
            },
        }
    }
}

/// The message that `buf` decodes to, starting from the default message.
pub open spec fn decode_message(buf: Seq<u8>) -> Option<MessageView> {
    merge_fields(buf, empty_message())
}

/// Bytes that do not hold a well-formed encoding of a [`Message`].
#[derive(Clone, Copy, Debug, PartialEq, Eq)]
pub struct MessageDecodeError;

impl Message {
    /// Encodes the message in the protobuf wire format.
    pub fn encode_to_vec(&self) -> (out: Vec<u8>)
        ensures
            out@ == encode_message(self@),
    {
        let mut buf: Vec<u8> = Vec::new();
        if !self.uid.as_str().is_empty() {
            put_string_field(UID_TAG, &self.uid, &mut buf);
        }
        if self.data.len() > 0 {
            put_bytes_field(DATA_TAG, &self.data, &mut buf);
        }
        if self.data_length != 0 {
            put_uint64_field(DATA_LENGTH_TAG, &self.data_length, &mut buf);
        }
        assert(buf@ =~= encode_message(self@));
        buf
    }

    /// Decodes a message from bytes in the protobuf wire format. Unknown
    /// fields are skipped; where a field occurs more than once, its last value
    /// stands.
    pub fn decode(buf: &[u8]) -> (res: Result<Message, MessageDecodeError>)
        ensures
            match res {
                Ok(m) => decode_message(buf@) == Some(m@),
                Err(_) => decode_message(buf@) is None,
            },
    {
        let mut msg = Message { uid: String::new(), data: Vec::new(), data_length: 0 };
        let mut cur: &[u8] = buf;
        assert(msg@ == empty_message()) by {
            assert(msg@.uid =~= Seq::<char>::empty());
            assert(msg@.data =~= Seq::<u8>::empty());
        }
        while cur.len() > 0
            invariant
                merge_fields(cur@, msg@) == decode_message(buf@),
            decreases cur@.len(),
        {
            let ghost before = cur@;
            let ghost m0 = msg@;
            proof {
                lemma_key_prefix_bounds(before);
            }
            let (tag, wire, rest) = match take_field_key(cur) {
                Ok(key) => key,
                Err(_) => return Err(MessageDecodeError),
            };
            let after = if tag == UID_TAG {
                match take_string_value(wire, &mut msg.uid, rest) {
                    Ok(after) => after,
                    Err(_) => return Err(MessageDecodeError),
                }
            } else if tag == DATA_TAG {
                match take_bytes_value(wire, &mut msg.data, rest) {
                    Ok(after) => after,
                    Err(_) => return Err(MessageDecodeError),
                }
            } else if tag == DATA_LENGTH_TAG {
                match take_uint64_value(wire, &mut msg.data_length, rest) {
                    Ok(after) => after,
                    Err(_) => return Err(MessageDecodeError),
                }
            } else {
                match skip_field_value(wire, tag, rest) {
                    Ok(after) => after,
                    Err(_) => return Err(MessageDecodeError),
                }
            };
            proof {
                crate::wire::lemma_delimited_prefix_bounds(rest@);
                crate::wire::lemma_varint_prefix_bounds(rest@);
                assert(merge_field(m0, tag, wire, rest@) matches Some((m2, j)) && m2 == msg@
                    && j <= rest@.len() && after@ == rest@.skip(j as int));
            }
            cur = after;
        }
        Ok(msg)
    }
}

/// Merging a `uid` field read from its own encoding sets `uid` and leaves the
/// bytes that follow.
proof fn lemma_merge_uid_field(s: Seq<char>, tail: Seq<u8>, m: MessageView)
    requires
        encode_utf8(s).len() <= u64::MAX,
    ensures
        merge_fields(string_field_bytes(UID_TAG, s) + tail, m) == merge_fields(
            tail,
            MessageView { uid: s, data: m.data, data_length: m.data_length },
        ),
{
    let key = key_bytes(UID_TAG, WIRE_LENGTH_DELIMITED);
    let payload = encode_utf8(s);
    let body = varint_bytes(payload.len() as u64) + payload;
    let all = string_field_bytes(UID_TAG, s) + tail;
    assert(all =~= key + (body + tail));
    lemma_key_round_trip(UID_TAG, WIRE_LENGTH_DELIMITED, body + tail);
    let rest = all.skip(key.len() as int);
    assert(rest =~= varint_bytes(payload.len() as u64) + payload + tail);
    lemma_delimited_round_trip(payload, tail);
    encode_utf8_valid_utf8(s);
    encode_utf8_decode_utf8(s);
    assert(rest.skip(body.len() as int) =~= tail);
}

/// Merging a `data` field read from its own encoding sets `data` and leaves
/// the bytes that follow.
proof fn lemma_merge_data_field(b: Seq<u8>, tail: Seq<u8>, m: MessageView)
    requires
        b.len() <= u64::MAX,
    ensures
        merge_fields(bytes_field_bytes(DATA_TAG, b) + tail, m) == merge_fields(
            tail,
            MessageView { uid: m.uid, data: b, data_length: m.data_length },
        ),
{
    let key = key_bytes(DATA_TAG, WIRE_LENGTH_DELIMITED);
    let body = varint_bytes(b.len() as u64) + b;
    let all = bytes_field_bytes(DATA_TAG, b) + tail;
    assert(all =~= key + (body + tail));
    lemma_key_round_trip(DATA_TAG, WIRE_LENGTH_DELIMITED, body + tail);
    let rest = all.skip(key.len() as int);
    assert(rest =~= varint_bytes(b.len() as u64) + b + tail);
    lemma_delimited_round_trip(b, tail);
    assert(rest.skip(body.len() as int) =~= tail);
}

/// Merging a `data_length` field read from its own encoding sets
/// `data_length` and leaves the bytes that follow.
proof fn lemma_merge_data_length_field(v: u64, tail: Seq<u8>, m: MessageView)
    ensures
        merge_fields(uint64_field_bytes(DATA_LENGTH_TAG, v) + tail, m) == merge_fields(
            tail,
            MessageView { uid: m.uid, data: m.data, data_length: v },
        ),
{
    let key = key_bytes(DATA_LENGTH_TAG, WIRE_VARINT);
    let body = varint_bytes(v);
    let all = uint64_field_bytes(DATA_LENGTH_TAG, v) + tail;
    assert(all =~= key + (body + tail));
    lemma_key_round_trip(DATA_LENGTH_TAG, WIRE_VARINT, body + tail);
    let rest = all.skip(key.len() as int);
    assert(rest =~= body + tail);
    crate::wire::lemma_varint_round_trip(v, tail);
    assert(rest.skip(body.len() as int) =~= tail);
}

/// Decoding the encoding of a message gives the message back: no field is
/// lost or altered by a round trip through the wire format.
pub proof fn lemma_decode_encode(m: MessageView)
    requires
        encode_utf8(m.uid).len() <= u64::MAX,
        m.data.len() <= u64::MAX,
    ensures
        decode_message(encode_message(m)) == Some(m),
{
    let a = if m.uid.len() > 0 {
        string_field_bytes(UID_TAG, m.uid)
    } else {
        Seq::empty()
    };
    let b = if m.data.len() > 0 {
        bytes_field_bytes(DATA_TAG, m.data)
    } else {
        Seq::empty()
    };
    let c = if m.data_length != 0 {
        uint64_field_bytes(DATA_LENGTH_TAG, m.data_length)
    } else {
        Seq::empty()
    };
    let m1 = MessageView { uid: m.uid, data: Seq::empty(), data_length: 0 };
    let m2 = MessageView { uid: m.uid, data: m.data, data_length: 0 };
    assert(encode_message(m) =~= a + (b + c));
    if m.uid.len() > 0 {
        lemma_merge_uid_field(m.uid, b + c, empty_message());
    } else {
        assert(a + (b + c) =~= b + c);
        assert(m.uid =~= Seq::<char>::empty());
        assert(m1 == empty_message());
    }
    if m.data.len() > 0 {
        lemma_merge_data_field(m.data, c, m1);
    } else {
        assert(b + c =~= c);
        assert(m.data =~= Seq::<u8>::empty());
        assert(m2 == m1);
    }
    if m.data_length != 0 {
        lemma_merge_data_length_field(m.data_length, Seq::empty(), m2);
        assert(c + Seq::<u8>::empty() =~= c);
    }
}

/// The wire form of each field, byte for byte, as protobuf writes it: `uid`
/// is key byte `0x0a`, the UTF-8 length and the UTF-8 bytes; `data` is key
/// byte `0x12`, the length and the bytes in order; `data_length` is key byte
/// `0x18` and the varint. A message is its non-default fields in that order,
/// and each field alone decodes to a message holding exactly that value.
pub proof fn lemma_field_wire_forms(s: Seq<char>, d: Seq<u8>, v: u64)
    requires
        encode_utf8(s).len() <= u64::MAX,
        d.len() <= u64::MAX,
    ensures
        s.len() > 0 ==> encode_message(MessageView { uid: s, data: Seq::empty(), data_length: 0 })
            == seq![0x0au8] + varint_bytes(encode_utf8(s).len() as u64) + encode_utf8(s),
        d.len() > 0 ==> encode_message(MessageView { uid: Seq::empty(), data: d, data_length: 0 })
            == seq![0x12u8] + varint_bytes(d.len() as u64) + d,
        v != 0 ==> encode_message(MessageView { uid: Seq::empty(), data: Seq::empty(), data_length: v })
            == seq![0x18u8] + varint_bytes(v),
        encode_message(MessageView { uid: s, data: d, data_length: v }) == encode_message(
            MessageView { uid: s, data: Seq::empty(), data_length: 0 },
        ) + encode_message(MessageView { uid: Seq::empty(), data: d, data_length: 0 })
            + encode_message(MessageView { uid: Seq::empty(), data: Seq::empty(), data_length: v }),
        decode_message(seq![0x0au8] + varint_bytes(encode_utf8(s).len() as u64) + encode_utf8(s))
            == Some(MessageView { uid: s, data: Seq::empty(), data_length: 0 }),
        decode_message(seq![0x12u8] + varint_bytes(d.len() as u64) + d) == Some(
            MessageView { uid: Seq::empty(), data: d, data_length: 0 },
        ),
        decode_message(seq![0x18u8] + varint_bytes(v)) == Some(
            MessageView { uid: Seq::empty(), data: Seq::empty(), data_length: v },
        ),
{
    let e = Seq::<u8>::empty();
    assert(key_bytes(UID_TAG, WIRE_LENGTH_DELIMITED) =~= seq![0x0au8]);
    assert(key_bytes(DATA_TAG, WIRE_LENGTH_DELIMITED) =~= seq![0x12u8]);
    assert(key_bytes(DATA_LENGTH_TAG, WIRE_VARINT) =~= seq![0x18u8]);
    let ms = MessageView { uid: s, data: Seq::empty(), data_length: 0 };
    let md = MessageView { uid: Seq::empty(), data: d, data_length: 0 };
    let mv = MessageView { uid: Seq::empty(), data: Seq::empty(), data_length: v };
    assert(encode_message(ms) =~= (if s.len() > 0 {
        string_field_bytes(UID_TAG, s)
    } else {
        e
    }));
    assert(encode_message(md) =~= (if d.len() > 0 {
        bytes_field_bytes(DATA_TAG, d)
    } else {
        e
    }));
    assert(encode_message(mv) =~= (if v != 0 {
        uint64_field_bytes(DATA_LENGTH_TAG, v)
    } else {
        e
    }));
    assert(encode_message(MessageView { uid: s, data: d, data_length: v }) =~= encode_message(ms)
        + encode_message(md) + encode_message(mv));
    lemma_merge_uid_field(s, e, empty_message());
    assert(string_field_bytes(UID_TAG, s) + e =~= string_field_bytes(UID_TAG, s));
    lemma_merge_data_field(d, e, empty_message());
    assert(bytes_field_bytes(DATA_TAG, d) + e =~= bytes_field_bytes(DATA_TAG, d));
    lemma_merge_data_length_field(v, e, empty_message());
    assert(uint64_field_bytes(DATA_LENGTH_TAG, v) + e =~= uint64_field_bytes(DATA_LENGTH_TAG, v));
    assert(empty_message().uid =~= Seq::<char>::empty());
}

} // verus!
