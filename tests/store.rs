use mergedb::store::{decode_entry, decode_lookup, encode_record};
use mergedb::{EntryError, StringSet};

#[test]
fn put_then_get() {
    let (kb, vb) = encode_record("a", "1");
    assert_eq!(kb, b"a".to_vec());
    assert_eq!(vb, b"1".to_vec());
    let got: Option<String> = decode_lookup::<String>(Some(&vb)).unwrap();
    assert_eq!(got, Some("1".to_string()));
}

#[test]
fn get_absent_is_none() {
    let got = decode_lookup::<String>(None);
    assert!(matches!(got, Ok(None)));
}

#[test]
fn get_undecodable_is_error() {
    assert!(decode_lookup::<String>(Some(&[0xff])).is_err());
    assert!(decode_lookup::<StringSet>(Some(&[0xc0])).is_err());
}

#[test]
fn entry_decodes_both_halves() {
    let (k, v) = decode_entry::<String, String>(b"key", b"value").unwrap();
    assert_eq!(k, "key");
    assert_eq!(v, "value");
}

#[test]
fn entry_reports_which_half_failed() {
    let r = decode_entry::<String, String>(&[0xff], b"value");
    assert!(matches!(r, Err(EntryError::Key(_))));
    let r = decode_entry::<String, String>(b"key", &[0xff]);
    assert!(matches!(r, Err(EntryError::Value(_))));
    let r = decode_entry::<String, String>(&[0xff], &[0xff]);
    assert!(matches!(r, Err(EntryError::Key(_))));
}

#[test]
fn key_bytes_order_keys() {
    let mut keys: Vec<Vec<u8>> = ["c", "a", "b"].iter().map(|k| encode_record(*k, "").0).collect();
    keys.sort();
    let names: Vec<String> = keys
        .iter()
        .map(|k| decode_entry::<String, String>(k, b"").unwrap().0)
        .collect();
    assert_eq!(names, vec!["a", "b", "c"]);
}
