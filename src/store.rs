//! The typed side of store operations: what is handed to the engine for a
//! write, and what is made of the bytes it hands back on a read or a scan.
use vstd::prelude::*;
use crate::codec::{Deserializable, Serializable};

verus! {

/// Which half of a stored record could not be decoded.
#[derive(Debug)]
pub enum EntryError<KE, VE> {
    Key(KE),
    Value(VE),
}

/// The key and value bytes that a `put` or a `merge` hands to the engine.
pub fn encode_record<K: Serializable, V: Serializable>(k: K, v: V) -> (r: (Vec<u8>, Vec<u8>))
    ensures
        r.0@ == K::encode_spec(k@),
        r.1@ == V::encode_spec(v@),
{
    let kb = k.serialize();
    let vb = v.serialize();
    (kb, vb)
}

/// The result of a `get`: `None` when the engine found nothing, else the
/// decoded value, or the decode error when the stored bytes do not decode.
pub fn decode_lookup<V: Deserializable>(found: Option<&[u8]>) -> (r: Result<Option<V>, V::Error>)
    ensures
        match found {
            None => r matches Ok(None),
            Some(b) => match V::decode_spec(b@) {
                Some(v) => r is Ok && r->Ok_0 is Some && r->Ok_0->Some_0@ == v,
                None => r is Err,
            },
        },
{
    match found {
        None => Ok(None),
        Some(vb) => match V::deserialize(vb) {
            Ok(v) => Ok(Some(v)),
            Err(e) => Err(e),
        },
    }
}

/// One step of a scan: the decoded key and value of a stored record, or which
/// of the two did not decode (the key is tried first).
pub fn decode_entry<K: Deserializable, V: Deserializable>(kb: &[u8], vb: &[u8]) -> (r: Result<
    (K, V),
    EntryError<K::Error, V::Error>,
>)
    ensures
        match (K::decode_spec(kb@), V::decode_spec(vb@)) {
            (Some(k), Some(v)) => r is Ok && r->Ok_0.0@ == k && r->Ok_0.1@ == v,
            (None, _) => r matches Err(EntryError::Key(_)),
            (Some(_), None) => r matches Err(EntryError::Value(_)),
        },
{
    let k = match K::deserialize(kb) {
        Ok(k) => k,
        Err(e) => return Err(EntryError::Key(e)),
    };
    let v = match V::deserialize(vb) {
        Ok(v) => v,
        Err(e) => return Err(EntryError::Value(e)),
    };
    Ok((k, v))
}

} // verus!
