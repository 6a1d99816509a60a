use mergedb::reducer::merge;
use mergedb::string_set::serialize_single;
use mergedb::{AssociateMergeable, Deserializable, Serializable, StringSet};

fn set(items: &[&str]) -> StringSet {
    StringSet::new(items.iter().map(|s| s.to_string()).collect())
}

fn items(s: &StringSet) -> Vec<&str> {
    s.items().iter().map(|s| s.as_str()).collect()
}

fn union(a: &[&str], b: &[&str]) -> Vec<String> {
    let mut x = set(a);
    let mut y = set(b);
    x.merge(&mut y);
    x.items().clone()
}

#[test]
fn new_sorts_and_dedups() {
    let s = set(&["c", "a", "b", "a"]);
    assert_eq!(items(&s), vec!["a", "b", "c"]);
    assert!(set(&[]).items().is_empty());
}

#[test]
fn set_round_trip() {
    for list in [vec![], vec!["a"], vec!["x", "héllo", "b", "x"]] {
        let s = set(&list);
        let expected = s.items().clone();
        let bytes = s.into_bytes();
        let back = StringSet::deserialize(&bytes).unwrap();
        assert_eq!(back.items(), &expected);
    }
}

#[test]
fn set_bytes_are_sorted_run() {
    let bytes = set(&["b", "a"]).into_bytes();
    assert_eq!(bytes, vec![0xa1, b'a', 0xa1, b'b']);
}

#[test]
fn set_decode_sorts_stored_run() {
    let mut b = serialize_single("z");
    b.extend(serialize_single("a"));
    b.extend(serialize_single("z"));
    let s = StringSet::deserialize(&b).unwrap();
    assert_eq!(items(&s), vec!["a", "z"]);
}

#[test]
fn set_decode_rejects_malformed() {
    let mut b = serialize_single("a");
    b.push(0xc0);
    assert!(StringSet::deserialize(&b).is_err());
    assert!(StringSet::deserialize(&[0xa2, b'a']).is_err());
    assert!(StringSet::deserialize(&[0xa1, 0xff]).is_err());
    assert!(StringSet::deserialize(&[]).unwrap().items().is_empty());
}

#[test]
fn merge_is_union() {
    assert_eq!(union(&["a", "c"], &["b", "c"]), vec!["a", "b", "c"]);
    assert_eq!(union(&[], &["b"]), vec!["b"]);
}

#[test]
fn merge_associative_example() {
    let mut ab = set(&["a", "x"]);
    ab.merge(&mut set(&["b"]));
    ab.merge(&mut set(&["c", "x"]));
    let mut bc = set(&["b"]);
    bc.merge(&mut set(&["c", "x"]));
    let mut a_bc = set(&["a", "x"]);
    a_bc.merge(&mut bc);
    assert_eq!(ab.items(), a_bc.items());
}

#[test]
fn merge_commutative_example() {
    assert_eq!(union(&["q", "a"], &["m"]), union(&["m"], &["q", "a"]));
}

#[test]
fn merge_redelivery_example() {
    let mut once = set(&["a"]);
    once.merge(&mut set(&["b"]));
    let before = once.items().clone();
    once.merge(&mut set(&["b"]));
    assert_eq!(once.items(), &before);
}

#[test]
fn skip_policy_drops_operand() {
    assert!(StringSet::handle_deser_error(b"k", &[0xc0], mergedb::MalformedSet).is_none());
}

#[test]
fn reducer_merges_operands_into_set() {
    let a = set(&["a"]).into_bytes();
    let b = set(&["b"]).into_bytes();
    let ops: Vec<&[u8]> = vec![&a, &b];
    let out = merge::<StringSet>(b"set:x", None, &ops).unwrap();
    let s = StringSet::deserialize(&out).unwrap();
    assert_eq!(items(&s), vec!["a", "b"]);
}

#[test]
fn reducer_skips_corrupt_operand() {
    let a = set(&["a"]).into_bytes();
    let bad: Vec<u8> = vec![0xa4, b'x'];
    let c = set(&["c"]).into_bytes();
    let with_bad: Vec<&[u8]> = vec![&a, &bad, &c];
    let without: Vec<&[u8]> = vec![&a, &c];
    let r1 = merge::<StringSet>(b"k", None, &with_bad);
    let r2 = merge::<StringSet>(b"k", None, &without);
    assert_eq!(r1, r2);
    assert_eq!(r1.unwrap(), set(&["a", "c"]).into_bytes());
}

#[test]
fn reducer_all_corrupt_gives_nothing() {
    let bad: Vec<u8> = vec![0xc0];
    let ops: Vec<&[u8]> = vec![&bad, &bad];
    assert_eq!(merge::<StringSet>(b"k", None, &ops), None);
    let none: Vec<&[u8]> = vec![];
    assert_eq!(merge::<StringSet>(b"k", None, &none), None);
    assert_eq!(merge::<StringSet>(b"k", Some(&bad), &none), None);
}

#[test]
fn reducer_corrupt_base_is_dropped() {
    let bad: Vec<u8> = vec![0xa9];
    let b = set(&["b"]).into_bytes();
    let ops: Vec<&[u8]> = vec![&b];
    assert_eq!(merge::<StringSet>(b"k", Some(&bad), &ops).unwrap(), b);
}

#[test]
fn reducer_folds_into_put_base() {
    let base = set(&["old"]).into_bytes();
    let n = set(&["new"]).into_bytes();
    let ops: Vec<&[u8]> = vec![&n];
    let out = merge::<StringSet>(b"k", Some(&base), &ops).unwrap();
    assert_eq!(out, set(&["new", "old"]).into_bytes());
    let only_base: Vec<&[u8]> = vec![];
    assert_eq!(merge::<StringSet>(b"k", Some(&base), &only_base).unwrap(), base);
}

#[test]
fn reducer_batches_agree() {
    let a = set(&["a"]).into_bytes();
    let b = set(&["b", "d"]).into_bytes();
    let c = set(&["c", "a"]).into_bytes();
    let all: Vec<&[u8]> = vec![&a, &b, &c];
    let whole = merge::<StringSet>(b"k", None, &all).unwrap();
    let first: Vec<&[u8]> = vec![&a, &b];
    let partial = merge::<StringSet>(b"k", None, &first).unwrap();
    let rest: Vec<&[u8]> = vec![&c];
    let rebased = merge::<StringSet>(b"k", Some(&partial), &rest).unwrap();
    assert_eq!(whole, rebased);
    let tail: Vec<&[u8]> = vec![&b, &c];
    let tail_merged = merge::<StringSet>(b"k", None, &tail).unwrap();
    let combined: Vec<&[u8]> = vec![&a, &tail_merged];
    assert_eq!(merge::<StringSet>(b"k", None, &combined).unwrap(), whole);
}

#[test]
fn reducer_redelivery_unchanged() {
    let a = set(&["a"]).into_bytes();
    let b = set(&["b"]).into_bytes();
    let once: Vec<&[u8]> = vec![&a, &b];
    let twice: Vec<&[u8]> = vec![&a, &b, &a];
    assert_eq!(merge::<StringSet>(b"k", None, &once), merge::<StringSet>(b"k", None, &twice));
}

#[test]
fn set_serialize_matches_stored_form() {
    assert_eq!(set(&["b", "a", "b"]).serialize(), vec![0xa1, b'a', 0xa1, b'b']);
    assert_eq!(set(&[]).serialize(), Vec::<u8>::new());
}
