//! The echo service: checks the payload that a [`Message`] declares and
//! answers with a message whose payload carries the server's reply.

use vstd::prelude::*;
use vstd::string::{StrSliceExecFns, StringExecFns};
use vstd::utf8::{
    decode_utf8, encode_utf8, encode_utf8_decode_utf8, encode_utf8_valid_utf8, is_ascii_chars,
    is_ascii_chars_encode_utf8, valid_utf8,
};

use crate::message::Message;

verus! {

/// Text that the server puts before the payload in its reply.
pub const REPLY_PREFIX: &'static str = "Server reply: ";

/// Why a request is refused.
#[derive(Clone, Copy, Debug, PartialEq, Eq, Structural)]
pub enum EchoError {
    /// The declared payload length does not fit in `usize`.
    DeclaredLengthTooLarge,
    /// The payload holds fewer bytes than its declared length.
    PayloadTooShort,
    /// The declared part of the payload holds a byte that is not ASCII.
    NotAscii,
    /// The reply's length does not fit in `u64`; this cannot arise where
    /// `usize` has at most 64 bits.
    ReplyTooLong,
}

impl EchoError {
    /// The error's description, as the service reports it.
    pub fn description(&self) -> (text: &'static str)
        ensures
            *self == EchoError::DeclaredLengthTooLarge ==> text@
                == "declared data length exceeds usize"@,
            *self == EchoError::PayloadTooShort ==> text@
                == "payload shorter than declared data length"@,
            *self == EchoError::NotAscii ==> text@ == "payload is not ASCII encoded"@,
            *self == EchoError::ReplyTooLong ==> text@ == "reply payload length exceeds u64"@,
    {
        match self {
            EchoError::DeclaredLengthTooLarge => "declared data length exceeds usize",
            EchoError::PayloadTooShort => "payload shorter than declared data length",
            EchoError::NotAscii => "payload is not ASCII encoded",
            EchoError::ReplyTooLong => "reply payload length exceeds u64",
        }
    }

    /// Whether the error lies with the request (rather than with the server).
    pub fn is_invalid_argument(&self) -> (b: bool)
        ensures
            b == (*self != EchoError::ReplyTooLong),
    {
        match self {
            EchoError::ReplyTooLong => false,
            _ => true,
        }
    }
}

/// Every byte of `b` is an ASCII byte.
pub open spec fn ascii_bytes(b: Seq<u8>) -> bool {
    forall|i: int| 0 <= i < b.len() ==> b[i] < 128
}

/// The characters that ASCII bytes stand for.
pub open spec fn ascii_text(b: Seq<u8>) -> Seq<char> {
    Seq::new(b.len(), |i: int| b[i] as char)
}

/// The declared payload of `data`: its first `declared` bytes, which must
/// exist and be ASCII.
pub open spec fn declared_payload(data: Seq<u8>, declared: u64) -> Result<Seq<u8>, EchoError> {
    if declared > usize::MAX {
        Err(EchoError::DeclaredLengthTooLarge)
    } else if data.len() < declared {
        Err(EchoError::PayloadTooShort)
    } else if !ascii_bytes(data.take(declared as int)) {
        Err(EchoError::NotAscii)
    } else {
        Ok(data.take(declared as int))
    }
}

/// `<[u8]>::is_ascii`: whether every byte of `bytes` is below 128.
#[verifier::external_body]
fn bytes_are_ascii(bytes: &[u8]) -> (b: bool)
    ensures
        b == ascii_bytes(bytes@),
{
    bytes.is_ascii()
}

/// `std::str::from_utf8`: the text that `bytes` encode, where they are valid
/// UTF-8.
#[verifier::external_body]
fn utf8_text(bytes: &[u8]) -> (res: Option<&str>)
    ensures
        match res {
            Some(s) => valid_utf8(bytes@) && s@ == decode_utf8(bytes@),
            None => !valid_utf8(bytes@),
        },
{
    match std::str::from_utf8(bytes) {
        Ok(s) => Some(s),
        Err(_) => None,
    }
}

/// ASCII bytes are the UTF-8 encoding of the characters they stand for.
proof fn lemma_ascii_text_encoding(b: Seq<u8>)
    requires
        ascii_bytes(b),
    ensures
        is_ascii_chars(ascii_text(b)),
        encode_utf8(ascii_text(b)) == b,
        valid_utf8(b),
        decode_utf8(b) == ascii_text(b),
{
    let cs = ascii_text(b);
    assert forall|i: int| 0 <= i < cs.len() implies '\0' <= #[trigger] cs[i] <= '\u{7f}' by {
        assert(b[i] < 128);
    }
    is_ascii_chars_encode_utf8(cs);
    assert forall|i: int| 0 <= i < b.len() implies #[trigger] encode_utf8(cs)[i] == b[i] by {
        assert(cs[i] as u8 == encode_utf8(cs)[i]);
    }
    assert(encode_utf8(cs) =~= b);
    encode_utf8_valid_utf8(cs);
    encode_utf8_decode_utf8(cs);
}

/// The UTF-8 encoding of two texts one after the other is the encoding of
/// the first followed by that of the second.
pub proof fn lemma_encode_utf8_concat(a: Seq<char>, b: Seq<char>)
    ensures
        encode_utf8(a + b) == encode_utf8(a) + encode_utf8(b),
    decreases a.len(),
{
    if a.len() == 0 {
        assert(a + b =~= b);
        assert(encode_utf8(a) =~= Seq::<u8>::empty());
        assert(Seq::<u8>::empty() + encode_utf8(b) =~= encode_utf8(b));
    } else {
        assert((a + b).drop_first() =~= a.drop_first() + b);
        lemma_encode_utf8_concat(a.drop_first(), b);
        assert((a + b)[0] == a[0]);
        assert(encode_utf8(a + b) =~= encode_utf8(a) + encode_utf8(b));
    }
}

/// Reads the ASCII payload of a message: the first `declared_length` bytes
/// of `data`, as text.
pub fn decode_ascii_payload(data: &[u8], declared_length: u64) -> (res: Result<String, EchoError>)
    ensures
        match res {
            Ok(s) => declared_payload(data@, declared_length) matches Ok(p) && s@ == ascii_text(p)
                && s@ == ascii_text(data@.take(declared_length as int)),
            Err(e) => declared_payload(data@, declared_length) == Err::<Seq<u8>, EchoError>(e),
        },
{
    let expected_length: usize = match usize::try_from(declared_length) {
        Ok(n) => n,
        Err(_) => return Err(EchoError::DeclaredLengthTooLarge),
    };
    if data.len() < expected_length {
        return Err(EchoError::PayloadTooShort);
    }
    let ascii_slice = &data[0..expected_length];
    assert(ascii_slice@ =~= data@.take(declared_length as int));
    if !bytes_are_ascii(ascii_slice) {
        return Err(EchoError::NotAscii);
    }
    proof {
        lemma_ascii_text_encoding(ascii_slice@);
    }
    match utf8_text(ascii_slice) {
        Some(text) => Ok(text.to_owned()),
        None => Err(EchoError::NotAscii),
    }
}

/// Builds the server's answer to `request`: the same `uid`, and as payload
/// the reply prefix followed by the request's declared ASCII payload, with
/// `data_length` the reply's length.
pub fn build_response_message(request: Message) -> (res: Result<Message, EchoError>)
    ensures
        match res {
            Ok(reply) => declared_payload(request.data@, request.data_length) matches Ok(p)
                && reply.uid == request.uid && reply.data@ == encode_utf8(REPLY_PREFIX@) + p
                && reply.data@ == encode_utf8(REPLY_PREFIX@) + request.data@.take(
                request.data_length as int,
            ) && reply.data_length == reply.data@.len(),
            Err(e) => declared_payload(request.data@, request.data_length) == Err::<
                Seq<u8>,
                EchoError,
            >(e),
        },
{
    let Message { uid, data, data_length } = request;
    let payload = decode_ascii_payload(data.as_slice(), data_length)?;
    let reply_text = String::from_str(REPLY_PREFIX).concat(payload.as_str());
    let reply_bytes = reply_text.as_str().as_bytes_vec();
    proof {
        let p = data@.take(data_length as int);
        lemma_ascii_text_encoding(p);
        lemma_encode_utf8_concat(REPLY_PREFIX@, payload@);
    }
    let reply_length = match u64::try_from(reply_bytes.len()) {
        Ok(n) => n,
        Err(_) => return Err(EchoError::ReplyTooLong),
    };
    Ok(Message { uid, data: reply_bytes, data_length: reply_length })
}

/// The echo service.
#[derive(Debug, Clone, Copy)]
pub struct MessageEchoService;

impl MessageEchoService {
    /// Creates a new instance of the echo service.
    pub fn new() -> (service: Self)
        ensures
            service == MessageEchoService,
    {
        MessageEchoService
    }

    /// Answers one request: the reply that [`build_response_message`] builds,
    /// or the reason the request is refused.
    pub fn echo(&self, request: Message) -> (res: Result<Message, EchoError>)
        ensures
            match res {
                Ok(reply) => declared_payload(request.data@, request.data_length) matches Ok(p)
                    && reply.uid == request.uid && reply.data@ == encode_utf8(REPLY_PREFIX@) + p
                    && reply.data@ == encode_utf8(REPLY_PREFIX@) + request.data@.take(
                    request.data_length as int,
                ) && reply.data_length == reply.data@.len(),
                Err(e) => declared_payload(request.data@, request.data_length) == Err::<
                    Seq<u8>,
                    EchoError,
                >(e),
            },
    {
        build_response_message(request)
    }
}

impl Default for MessageEchoService {
    fn default() -> (service: Self)
        ensures
            service == MessageEchoService,
    {
        MessageEchoService
    }
}

/// A request is accepted exactly when its declared length fits in `usize`,
/// its data holds at least that many bytes, and those first bytes are all
/// ASCII; the accepted payload is then exactly those first bytes, in order.
pub proof fn lemma_declared_payload_is_declared_prefix(data: Seq<u8>, declared: u64)
    ensures
        declared_payload(data, declared) is Ok <==> (declared <= usize::MAX && declared
            <= data.len() && forall|i: int| 0 <= i < declared ==> data[i] < 128),
        declared_payload(data, declared) matches Ok(p) ==> p.len() == declared && forall|i: int|
            0 <= i < declared ==> p[i] == data[i],
{
    if declared <= usize::MAX && declared <= data.len() {
        let t = data.take(declared as int);
        if forall|i: int| 0 <= i < declared ==> data[i] < 128 {
            assert forall|i: int| 0 <= i < t.len() implies t[i] < 128 by {
                assert(t[i] == data[i]);
            }
        } else {
            let i = choose|i: int| 0 <= i < declared && !(data[i] < 128);
            assert(t[i] == data[i]);
        }
    }
}

/// The bytes that open every reply: `Server reply: ` in ASCII.
pub proof fn lemma_reply_prefix_bytes()
    ensures
        encode_utf8(REPLY_PREFIX@) == seq![
            83u8, 101u8, 114u8, 118u8, 101u8, 114u8, 32u8, 114u8, 101u8, 112u8, 108u8, 121u8, 58u8,
            32u8,
        ],
{
    let b = seq![
        83u8, 101u8, 114u8, 118u8, 101u8, 114u8, 32u8, 114u8, 101u8, 112u8, 108u8, 121u8, 58u8,
        32u8,
    ];
    reveal_strlit("Server reply: ");
    assert(ascii_bytes(b));
    lemma_ascii_text_encoding(b);
    assert(ascii_text(b) =~= REPLY_PREFIX@);
}

} // verus!
