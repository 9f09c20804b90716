//! Message payloads: the capability a payload type must offer, a plain
//! string-backed message, and a generic single-payload wrapper.

use vstd::prelude::*;
use vstd::utf8::{decode_utf8, encode_utf8, valid_utf8};

verus! {

/// The capability a message payload type offers: a serialized byte form,
/// and recovery of the value from such bytes.
pub trait Message: Sized {
    /// The serialized form of this message.
    spec fn bytes_of(&self) -> Seq<u8>;

    /// The byte sequences from which a message of this type can be
    /// recovered.
    spec fn parseable(bytes: Seq<u8>) -> bool;

    /// Serializes the message.
    fn serialize(&self) -> (r: Vec<u8>)
        ensures
            r@ == self.bytes_of(),
    ;

    /// Recovers a message from its serialized form.
    fn deserialize(bytes: &[u8]) -> (r: Self)
        requires
            Self::parseable(bytes@),
        ensures
            r.bytes_of() == bytes@,
    ;
}

/// A message whose whole payload is one human-readable string.
#[derive(Debug)]
pub struct MessageString {
    /// The message's text.
    pub message: String,
}

impl View for MessageString {
    type V = Seq<char>;

    open spec fn view(&self) -> Seq<char> {
        self.message@
    }
}

impl Clone for MessageString {
    fn clone(&self) -> (r: Self)
        ensures
            r@ == self@,
    {
        MessageString { message: self.message.clone() }
    }
}

impl MessageString {
    /// Wraps a string as a message.
    pub fn new(message: String) -> (r: Self)
        ensures
            r@ == message@,
    {
        MessageString { message }
    }
}

/// Relies on `String::from_utf8`: for valid UTF-8 input it returns a string
/// holding exactly those bytes, decoded.
#[verifier::external_body]
fn string_from_utf8_bytes(bytes: &[u8]) -> (r: String)
    requires
        valid_utf8(bytes@),
    ensures
        r@ == decode_utf8(bytes@),
{
    String::from_utf8(bytes.to_vec()).unwrap()
}

impl Message for MessageString {
    open spec fn bytes_of(&self) -> Seq<u8> {
        encode_utf8(self@)
    }

    open spec fn parseable(bytes: Seq<u8>) -> bool {
        valid_utf8(bytes)
    }

    fn serialize(&self) -> (r: Vec<u8>) {
        self.message.as_str().as_bytes_vec()
    }

    fn deserialize(bytes: &[u8]) -> (r: Self) {
        let r = MessageString { message: string_from_utf8_bytes(bytes) };
        proof {
            vstd::utf8::decode_utf8_encode_utf8(bytes@);
        }
        r
    }
}

/// Serializing a string message always yields bytes the message can be
/// recovered from, and recovery gives back the original text.
pub proof fn lemma_message_string_round_trip(m: MessageString)
    ensures
        MessageString::parseable(m.bytes_of()),
        decode_utf8(m.bytes_of()) == m@,
{
    vstd::utf8::encode_utf8_valid_utf8(m@);
    vstd::utf8::encode_utf8_decode_utf8(m@);
}

/// A message carrying one payload value of any duplicable kind.
#[derive(Debug, Clone, PartialEq, Eq)]
pub struct PayloadMessage<T> {
    payload: T,
}

impl<T> PayloadMessage<T> {
    /// The payload carried by this message.
    pub closed spec fn spec_payload(&self) -> T {
        self.payload
    }

    /// Wraps a payload value as a message.
    pub fn new(payload: T) -> (r: Self)
        ensures
            r.spec_payload() == payload,
    {
        PayloadMessage { payload }
    }

    /// The payload carried by this message.
    pub fn payload(&self) -> (r: &T)
        ensures
            *r == self.spec_payload(),
    {
        &self.payload
    }
}

} // verus!
