//! Codec contracts: how a typed key or value becomes bytes and back.
use vstd::prelude::*;
use vstd::utf8::*;

verus! {

/// A value that can be rebuilt from the bytes the engine stores.
///
/// `decode_spec` describes, over views, what the bytes mean: `None` for bytes
/// that are malformed for this type.
pub trait Deserializable: Sized + View {
    type Error;

    spec fn decode_spec(bytes: Seq<u8>) -> Option<Self::V>;

    fn deserialize(bytes: &[u8]) -> (r: Result<Self, Self::Error>)
        ensures
            r is Ok <==> Self::decode_spec(bytes@) is Some,
            r is Ok ==> Self::decode_spec(bytes@) == Some(r->Ok_0@),
    ;
}

/// A value that can be written to the engine as bytes.
pub trait Serializable: View {
    spec fn encode_spec(v: Self::V) -> Seq<u8>;

    fn serialize(self) -> (r: Vec<u8>)
        ensures
            r@ == Self::encode_spec(self@),
    ;
}

#[verifier::external_type_specification]
#[verifier::external_body]
pub struct ExUtf8Error(core::str::Utf8Error);

/// Relies on std::str::from_utf8: it succeeds exactly on valid UTF-8 and then
/// holds the characters those bytes encode.
#[verifier::external_body]
fn text_from_utf8(bytes: &[u8]) -> (r: Result<&str, core::str::Utf8Error>)
    ensures
        r is Ok <==> valid_utf8(bytes@),
        r is Ok ==> r->Ok_0@ == decode_utf8(bytes@),
{
    core::str::from_utf8(bytes)
}

impl Deserializable for String {
    type Error = core::str::Utf8Error;

    open spec fn decode_spec(bytes: Seq<u8>) -> Option<Seq<char>> {
        if valid_utf8(bytes) {
            Some(decode_utf8(bytes))
        } else {
            None
        }
    }

    fn deserialize(bytes: &[u8]) -> (r: Result<String, core::str::Utf8Error>) {
        match text_from_utf8(bytes) {
            Ok(s) => Ok(s.to_owned()),
            Err(e) => Err(e),
        }
    }
}

impl<'a> Serializable for &'a str {
    open spec fn encode_spec(v: Seq<char>) -> Seq<u8> {
        encode_utf8(v)
    }

    fn serialize(self) -> (r: Vec<u8>) {
        vstd::slice::slice_to_vec(self.as_bytes())
    }
}

/// Text written through the `&str` codec reads back as the same text through
/// the `String` codec.
pub proof fn lemma_text_round_trip(s: Seq<char>)
    ensures
        <String as Deserializable>::decode_spec(<&str as Serializable>::encode_spec(s)) == Some(s),
{
    encode_utf8_valid_utf8(s);
    encode_utf8_decode_utf8(s);
}

} // verus!
