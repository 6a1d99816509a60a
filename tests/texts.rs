use mergedb::string_set::{concat_merge, deserialize, serialize_single};

#[test]
fn single_fixstr() {
    assert_eq!(serialize_single("a"), vec![0xa1, b'a']);
    assert_eq!(serialize_single(""), vec![0xa0]);
}

#[test]
fn single_str8_str16_str32() {
    let s32 = "x".repeat(32);
    let b = serialize_single(&s32);
    assert_eq!(&b[..2], &[0xd9, 32]);
    assert_eq!(b.len(), 34);

    let s300 = "y".repeat(300);
    let b = serialize_single(&s300);
    assert_eq!(&b[..3], &[0xda, 0x01, 0x2c]);
    assert_eq!(b.len(), 303);

    let s70000 = "z".repeat(70000);
    let b = serialize_single(&s70000);
    assert_eq!(&b[..5], &[0xdb, 0x00, 0x01, 0x11, 0x70]);
    assert_eq!(b.len(), 70005);
    assert_eq!(deserialize(&b), vec![s70000]);
}

#[test]
fn deserialize_reads_run() {
    let mut b = serialize_single("one");
    b.extend(serialize_single("two"));
    b.extend(serialize_single("héllo"));
    assert_eq!(deserialize(&b), vec!["one", "two", "héllo"]);
}

#[test]
fn deserialize_stops_at_garbage() {
    let mut b = serialize_single("one");
    b.push(0xc0);
    b.extend(serialize_single("two"));
    assert_eq!(deserialize(&b), vec!["one"]);
    assert!(deserialize(&[]).is_empty());
    assert!(deserialize(&[0xa3, b'a']).is_empty());
    assert!(deserialize(&[0xa1, 0xff]).is_empty());
}

#[test]
fn concat_merge_sorts_and_dedups() {
    let op1 = serialize_single("pear");
    let op2 = serialize_single("apple");
    let op3 = serialize_single("pear");
    let ops: Vec<&[u8]> = vec![&op1, &op2, &op3];
    let r = concat_merge(b"fruit", None, &ops).unwrap();
    assert_eq!(deserialize(&r), vec!["apple", "pear"]);
}

#[test]
fn concat_merge_with_base() {
    let mut base = serialize_single("banana");
    base.extend(serialize_single("cherry"));
    let op1 = serialize_single("apple");
    let op2 = serialize_single("cherry");
    let ops: Vec<&[u8]> = vec![&op1, &op2];
    let r = concat_merge(b"fruit", Some(&base), &ops).unwrap();
    let mut expected = serialize_single("apple");
    expected.extend(serialize_single("banana"));
    expected.extend(serialize_single("cherry"));
    assert_eq!(r, expected);
}

#[test]
fn concat_merge_unsorted_base_and_multi_item_operand() {
    let mut base = serialize_single("zeta");
    base.extend(serialize_single("alpha"));
    let mut op = serialize_single("mid");
    op.extend(serialize_single("alpha"));
    op.extend(serialize_single("beta"));
    let ops: Vec<&[u8]> = vec![&op];
    let r = concat_merge(b"k", Some(&base), &ops).unwrap();
    assert_eq!(deserialize(&r), vec!["alpha", "beta", "mid", "zeta"]);
}

#[test]
fn concat_merge_nothing() {
    let ops: Vec<&[u8]> = vec![];
    assert_eq!(concat_merge(b"k", None, &ops), Some(vec![]));
}

#[test]
fn concat_merge_keeps_readable_prefix_of_corrupt_operand() {
    let mut op = serialize_single("ok");
    op.extend([0xa5, b'x']);
    let good = serialize_single("fine");
    let ops: Vec<&[u8]> = vec![&op, &good];
    let r = concat_merge(b"k", None, &ops).unwrap();
    assert_eq!(deserialize(&r), vec!["fine", "ok"]);
}

#[test]
fn texts_order_by_bytes() {
    let op1 = serialize_single("b");
    let op2 = serialize_single("B");
    let op3 = serialize_single("ab");
    let op4 = serialize_single("a");
    let op5 = serialize_single("é");
    let ops: Vec<&[u8]> = vec![&op1, &op2, &op3, &op4, &op5];
    let r = concat_merge(b"k", None, &ops).unwrap();
    assert_eq!(deserialize(&r), vec!["B", "a", "ab", "b", "é"]);
}
