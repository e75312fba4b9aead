//! Messages and their binary encoding.

use vstd::bytes::{
    lemma_auto_spec_u64_to_from_le_bytes, spec_u64_from_le_bytes, spec_u64_to_le_bytes,
};
use vstd::prelude::*;
use vstd::slice::spec_slice_len;
use vstd::utf8::{
    decode_utf8, encode_utf8, encode_utf8_decode_utf8, encode_utf8_valid_utf8, valid_utf8,
};

use crate::error::StoreError;

verus! {

/// One record of the log: the offset it was stored under and its payload.
#[derive(Debug)]
pub struct Message {
    pub offset: u64,
    pub value: String,
}

/// The mathematical value of a [`Message`].
pub struct MessageView {
    pub offset: u64,
    pub value: Seq<char>,
}

impl View for Message {
    type V = MessageView;

    open spec fn view(&self) -> MessageView {
        MessageView { offset: self.offset, value: self.value@ }
    }
}

/// The bytes that stand for a message: its offset as eight little-endian
/// bytes, the length of its payload in bytes likewise, then the payload in
/// UTF-8.
pub open spec fn encoding(m: MessageView) -> Seq<u8> {
    let text = encode_utf8(m.value);
    spec_u64_to_le_bytes(m.offset) + spec_u64_to_le_bytes(text.len() as u64) + text
}

/// The message that `bytes` begin with, if they begin with one. Bytes after
/// the payload are not looked at.
pub open spec fn decoding(bytes: Seq<u8>) -> Option<MessageView> {
    if bytes.len() < 16 {
        None
    } else {
        let n = spec_u64_from_le_bytes(bytes.subrange(8, 16)) as int;
        if bytes.len() - 16 < n {
            None
        } else if !valid_utf8(bytes.subrange(16, 16 + n)) {
            None
        } else {
            Some(
                MessageView {
                    offset: spec_u64_from_le_bytes(bytes.subrange(0, 8)),
                    value: decode_utf8(bytes.subrange(16, 16 + n)),
                },
            )
        }
    }
}

/// Decoding undoes encoding, whatever follows the encoded message.
pub proof fn lemma_decoding_inverts_encoding(m: MessageView, rest: Seq<u8>)
    requires
        encode_utf8(m.value).len() <= u64::MAX,
    ensures
        decoding(encoding(m) + rest) == Some(m),
        decoding(encoding(m)) == Some(m),
{
    lemma_auto_spec_u64_to_from_le_bytes();
    encode_utf8_valid_utf8(m.value);
    encode_utf8_decode_utf8(m.value);
    let text = encode_utf8(m.value);
    let head = spec_u64_to_le_bytes(m.offset);
    let len = spec_u64_to_le_bytes(text.len() as u64);
    let all = encoding(m) + rest;
    assert(all.subrange(0, 8) =~= head);
    assert(all.subrange(8, 16) =~= len);
    assert(all.subrange(16, 16 + text.len() as int) =~= text);
    assert(encoding(m) + Seq::<u8>::empty() =~= encoding(m));
    let bare = encoding(m);
    assert(bare.subrange(0, 8) =~= head);
    assert(bare.subrange(8, 16) =~= len);
    assert(bare.subrange(16, 16 + text.len() as int) =~= text);
}

/// The error type of the `bincode` crate, carried through unopened.
#[verifier::external_type_specification]
#[verifier::external_body]
pub struct ExBincodeErrorKind(bincode::ErrorKind);

/// `bincode::serialize` on the pair of an offset and a payload. With the
/// settings of that function an integer is written as fixed-width
/// little-endian bytes and a string as its length in bytes, a `u64`, followed
/// by its UTF-8 bytes; a pair is its two parts, one after the other. The
/// call does not fail on such a pair: that function sets no limit on the
/// size, it writes into a vector, and an integer and a string are written
/// without a test that could refuse them.
#[verifier::external_body]
fn bincode_serialize(offset: u64, value: &str) -> (r: Result<Vec<u8>, Box<bincode::ErrorKind>>)
    ensures
        r is Ok,
        r matches Ok(bytes) ==> bytes@ == encoding((MessageView { offset, value: value@ })),
{
    bincode::serialize(&(offset, value))
}

/// `bincode::deserialize` to the pair of an offset and a payload. It reads
/// eight bytes for the offset and eight for the payload's length, takes that
/// many bytes and takes them as the payload where they are UTF-8; it fails
/// where the input ends too early or the payload is not UTF-8, and ignores
/// what follows the payload.
#[verifier::external_body]
fn bincode_deserialize(bytes: &[u8]) -> (r: Result<(u64, String), Box<bincode::ErrorKind>>)
    ensures
        match r {
            Ok(pair) => decoding(bytes@) == Some(MessageView { offset: pair.0, value: pair.1@ }),
            Err(_) => decoding(bytes@) is None,
        },
{
    bincode::deserialize::<(u64, String)>(bytes)
}

impl Message {
    /// The encoding of this message, from which the message decodes again.
    /// Every message has one: this does not fail.
    pub fn encode(&self) -> (r: Result<Vec<u8>, StoreError>)
        ensures
            r is Ok,
            r matches Ok(bytes) ==> bytes@ == encoding(self@) && decoding(bytes@) == Some(self@),
    {
        let payload = self.value.as_str().as_bytes();
        proof {
            assert(payload@.len() == spec_slice_len(payload));
            lemma_decoding_inverts_encoding(self@, Seq::empty());
        }
        match bincode_serialize(self.offset, self.value.as_str()) {
            Ok(bytes) => Ok(bytes),
            Err(_) => Err(StoreError::Io),
        }
    }

    /// The message that `bytes` begin with; `InvalidData` exactly where they
    /// do not begin with one.
    pub fn decode(bytes: &[u8]) -> (r: Result<Message, StoreError>)
        ensures
            match r {
                Ok(message) => decoding(bytes@) == Some(message@),
                Err(e) => e == StoreError::InvalidData && decoding(bytes@) is None,
            },
    {
        match bincode_deserialize(bytes) {
            Ok(pair) => Ok(Message { offset: pair.0, value: pair.1 }),
            Err(_) => Err(StoreError::InvalidData),
        }
    }

    /// A message with the given offset and payload.
    pub fn new(offset: u64, value_str: String) -> (message: Message)
        ensures
            message.offset == offset,
            message.value == value_str,
    {
        Message { offset, value: value_str }
    }
}

} // verus!
