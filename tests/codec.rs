use mergedb::{Deserializable, Serializable};

#[test]
fn text_round_trip() {
    for s in ["", "a", "héllo wörld", "日本語", "emoji 🎉"] {
        let bytes = s.serialize();
        assert_eq!(bytes, s.as_bytes().to_vec());
        let back = String::deserialize(&bytes).unwrap();
        assert_eq!(back, s);
    }
}

#[test]
fn text_decode_rejects_invalid_utf8() {
    assert!(String::deserialize(&[0xff, 0xfe]).is_err());
    assert!(String::deserialize(&[b'a', 0xc3]).is_err());
}

#[test]
fn text_decode_reads_bytes() {
    assert_eq!(String::deserialize(&[0x68, 0x69]).unwrap(), "hi");
    assert_eq!(String::deserialize(&[0xc3, 0xa9]).unwrap(), "é");
}
