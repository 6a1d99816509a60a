//! Sets of text kept as sorted runs of MessagePack `str` pieces, merged by union.
use vstd::prelude::*;
use vstd::utf8::*;
use crate::codec::{Deserializable, Serializable};
use crate::reducer::{
    base_view, decode_operand, fold_operands, fold_step, operand_views, reduce, AssociateMergeable,
};
use crate::msgpack::{
    all_fit, encode_str, encode_strs, lemma_read_str_shrinks, push_str, read_str_header,
    read_str_spec, read_strs, read_strs_prefix, take_str, MAX_STR_BYTES,
};
use crate::order::{
    adjacent_distinct, canonical, lemma_canonical, lemma_is_canonical,
    lemma_sorted_distinct_strict, lemma_strict_is_sorted, sorted, strictly_sorted,
};

verus! {

broadcast use vstd::seq_lib::group_to_multiset_ensures;

/// The texts that a run of strings holds.
pub open spec fn views(s: Seq<String>) -> Seq<Seq<char>> {
    s.map_values(|x: String| x@)
}

/// Relies on slice::sort_unstable: the same items, in ascending order
/// (`str` orders by its bytes).
#[verifier::external_body]
fn sort_texts(v: &mut Vec<String>)
    ensures
        views(final(v)@).to_multiset() == views(old(v)@).to_multiset(),
        sorted(views(final(v)@)),
{
    v.sort_unstable();
}

/// Relies on itertools::kmerge: every item of both runs, and ascending when
/// both runs are.
#[verifier::external_body]
fn kmerge_texts(a: Vec<String>, b: Vec<String>) -> (r: Vec<String>)
    ensures
        views(r@).to_multiset() == views(a@).to_multiset().add(views(b@).to_multiset()),
        sorted(views(a@)) && sorted(views(b@)) ==> sorted(views(r@)),
{
    itertools::kmerge(vec![a, b]).collect()
}

/// Relies on itertools::Itertools::dedup: drops every item equal to the one
/// before it, keeping the order of the rest.
#[verifier::external_body]
fn dedup_texts(v: Vec<String>) -> (r: Vec<String>)
    ensures
        views(r@).to_set() == views(v@).to_set(),
        adjacent_distinct(views(r@)),
        sorted(views(v@)) ==> sorted(views(r@)),
{
    itertools::Itertools::dedup(v.into_iter()).collect()
}

proof fn lemma_multiset_to_set(a: Seq<Seq<char>>, b: Seq<Seq<char>>)
    requires
        a.to_multiset() == b.to_multiset(),
    ensures
        a.to_set() == b.to_set(),
{
    assert forall|x: Seq<char>| a.to_set().contains(x) <==> b.to_set().contains(x) by {
        assert(a.contains(x) <==> a.to_multiset().count(x) > 0);
        assert(b.contains(x) <==> b.to_multiset().count(x) > 0);
    }
    assert(a.to_set() =~= b.to_set());
}

proof fn lemma_merged_to_set(r: Seq<Seq<char>>, a: Seq<Seq<char>>, b: Seq<Seq<char>>)
    requires
        r.to_multiset() == a.to_multiset().add(b.to_multiset()),
    ensures
        r.to_set() == (a + b).to_set(),
{
    vstd::seq_lib::lemma_multiset_commutative(a, b);
    lemma_multiset_to_set(r, a + b);
}

proof fn lemma_to_set_concat(a: Seq<Seq<char>>, b: Seq<Seq<char>>)
    ensures
        (a + b).to_set() == a.to_set().union(b.to_set()),
{
    let ab = a + b;
    assert forall|x: Seq<char>| ab.to_set().contains(x) <==> a.to_set().union(b.to_set()).contains(x) by {
        if ab.to_set().contains(x) {
            let k = choose|k: int| 0 <= k < ab.len() && ab[k] == x;
            if k >= a.len() {
                assert(b[k - a.len()] == x);
            }
        }
        if a.to_set().contains(x) {
            let k = choose|k: int| 0 <= k < a.len() && a[k] == x;
            assert(ab[k] == x);
        }
        if b.to_set().contains(x) {
            let k = choose|k: int| 0 <= k < b.len() && b[k] == x;
            assert(ab[k + a.len()] == x);
        }
    }
    assert(ab.to_set() =~= a.to_set().union(b.to_set()));
}

/// Items taken from runs that fit still fit.
proof fn lemma_fit_subset(r: Seq<Seq<char>>, l: Seq<Seq<char>>)
    requires
        all_fit(l),
        r.to_set().subset_of(l.to_set()),
    ensures
        all_fit(r),
{
    assert forall|i: int| 0 <= i < r.len() implies encode_utf8(#[trigger] r[i]).len()
        <= MAX_STR_BYTES by {
        assert(r.to_set().contains(r[i]));
        let k = choose|k: int| 0 <= k < l.len() && l[k] == r[i];
        assert(encode_utf8(l[k]).len() <= MAX_STR_BYTES);
    }
}

proof fn lemma_read_str_fits(b: Seq<u8>)
    requires
        read_str_spec(b) is Some,
    ensures
        encode_utf8(read_str_spec(b).unwrap().0).len() <= MAX_STR_BYTES,
{
    let (len, h) = read_str_header(b).unwrap();
    let p = b.subrange(h as int, (h + len) as int);
    decode_utf8_encode_utf8(p);
    if b[0] == 0xdb {
        let (b1, b2, b3, b4) = (b[1] as nat, b[2] as nat, b[3] as nat, b[4] as nat);
        assert(((b1 * 256 + b2) * 256 + b3) * 256 + b4 <= 0xffff_ffff) by (nonlinear_arith)
            requires
                b1 < 256,
                b2 < 256,
                b3 < 256,
                b4 < 256,
        ;
    } else if b[0] == 0xda {
        let (b1, b2) = (b[1] as nat, b[2] as nat);
        assert(b1 * 256 + b2 <= 0xffff_ffff) by (nonlinear_arith)
            requires
                b1 < 256,
                b2 < 256,
        ;
    }
}

proof fn lemma_fit_concat(a: Seq<Seq<char>>, b: Seq<Seq<char>>)
    requires
        all_fit(a),
        all_fit(b),
    ensures
        all_fit(a + b),
{
    assert forall|i: int| 0 <= i < (a + b).len() implies encode_utf8(#[trigger] (a + b)[i]).len()
        <= MAX_STR_BYTES by {
        if i >= a.len() {
            assert((a + b)[i] == b[i - a.len()]);
        }
    }
}

/// Every piece that can be read fits in a `str` header.
pub proof fn lemma_read_strs_prefix_fit(b: Seq<u8>)
    ensures
        all_fit(read_strs_prefix(b)),
    decreases b.len(),
{
    if let Some((s, tail)) = read_str_spec(b) {
        if tail.len() < b.len() {
            lemma_read_str_fits(b);
            lemma_read_strs_prefix_fit(tail);
            lemma_fit_concat(seq![s], read_strs_prefix(tail));
        }
    }
}

/// Every piece of a complete run fits in a `str` header.
pub proof fn lemma_read_strs_fit(b: Seq<u8>)
    requires
        read_strs(b) is Some,
    ensures
        all_fit(read_strs(b).unwrap()),
    decreases b.len(),
{
    if b.len() > 0 {
        let (s, tail) = read_str_spec(b).unwrap();
        lemma_read_str_fits(b);
        lemma_read_strs_fit(tail);
        lemma_fit_concat(seq![s], read_strs(tail).unwrap());
    }
}

/// Reads pieces from the front of `buf` until one cannot be read, appending them to `out`.
fn read_prefix_into(buf: &[u8], out: &mut Vec<String>)
    ensures
        views(final(out)@) == views(old(out)@) + read_strs_prefix(buf@),
{
    let ghost start = views(out@);
    let mut unparsed: &[u8] = buf;
    loop
        invariant
            views(out@) + read_strs_prefix(unparsed@) == start + read_strs_prefix(buf@),
        ensures
            views(out@) == start + read_strs_prefix(buf@),
        decreases unparsed@.len(),
    {
        match take_str(unparsed) {
            Some((s, tail)) => {
                proof {
                    lemma_read_str_shrinks(unparsed@);
                }
                let ghost before = views(out@);
                out.push(s.to_owned());
                proof {
                    assert(views(out@) =~= before.push(s@));
                    assert(before + read_strs_prefix(unparsed@) =~= views(out@) + read_strs_prefix(tail@));
                }
                unparsed = tail;
            },
            None => {
                proof {
                    assert(views(out@) + read_strs_prefix(unparsed@) =~= views(out@));
                }
                break;
            },
        }
    }
}

/// Reads all of `buf` as a run of pieces, or `None` if some part of it is not one.
fn read_all(buf: &[u8]) -> (r: Option<Vec<String>>)
    ensures
        match r {
            Some(v) => read_strs(buf@) == Some(views(v@)),
            None => read_strs(buf@) is None,
        },
{
    let mut out: Vec<String> = Vec::new();
    let mut unparsed: &[u8] = buf;
    proof {
        assert(views(out@) =~= Seq::<Seq<char>>::empty());
        match read_strs(buf@) {
            Some(l) => assert(views(out@) + l =~= l),
            None => {},
        }
    }
    while unparsed.len() > 0
        invariant
            read_strs(buf@) == (match read_strs(unparsed@) {
                Some(l) => Some(views(out@) + l),
                None => None,
            }),
        decreases unparsed@.len(),
    {
        match take_str(unparsed) {
            Some((s, tail)) => {
                proof {
                    lemma_read_str_shrinks(unparsed@);
                }
                let ghost before = views(out@);
                out.push(s.to_owned());
                proof {
                    assert(views(out@) =~= before.push(s@));
                    match read_strs(tail@) {
                        Some(l) => assert(before + (seq![s@] + l) =~= views(out@) + l),
                        None => {},
                    }
                }
                unparsed = tail;
            },
            None => {
                return None;
            },
        }
    }
    proof {
        assert(views(out@) + Seq::<Seq<char>>::empty() =~= views(out@));
    }
    Some(out)
}

/// Lays the pieces end to end.
fn encode_texts(items: &Vec<String>) -> (r: Vec<u8>)
    requires
        all_fit(views(items@)),
    ensures
        r@ == encode_strs(views(items@)),
{
    let mut r: Vec<u8> = Vec::new();
    let mut i: usize = 0;
    proof {
        assert(views(items@).take(0) =~= Seq::<Seq<char>>::empty());
    }
    while i < items.len()
        invariant
            i <= items.len(),
            all_fit(views(items@)),
            r@ == encode_strs(views(items@).take(i as int)),
        decreases items.len() - i,
    {
        proof {
            assert(encode_utf8(views(items@)[i as int]).len() <= MAX_STR_BYTES);
            assert(views(items@).take(i + 1).drop_last() =~= views(items@).take(i as int));
        }
        push_str(&mut r, items[i].as_str());
        i = i + 1;
    }
    proof {
        assert(views(items@).take(i as int) =~= views(items@));
    }
    r
}

/// Sorts the items and keeps each once: the canonical run of what came in.
fn canonicalize(v: Vec<String>) -> (r: Vec<String>)
    ensures
        views(r@) == canonical(views(v@)),
{
    let mut v = v;
    let ghost input = views(v@);
    sort_texts(&mut v);
    let r = dedup_texts(v);
    proof {
        lemma_multiset_to_set(views(v@), input);
        lemma_sorted_distinct_strict(views(r@));
        lemma_is_canonical(views(r@), input);
    }
    r
}

/// Decodes a run of `str` pieces, stopping at the first piece that cannot be read.
pub fn deserialize(s: &[u8]) -> (r: Vec<String>)
    ensures
        views(r@) == read_strs_prefix(s@),
{
    let mut r: Vec<String> = Vec::new();
    proof {
        assert(views(r@) =~= Seq::<Seq<char>>::empty());
    }
    read_prefix_into(s, &mut r);
    proof {
        assert(views(r@) =~= read_strs_prefix(s@));
    }
    r
}

/// Encodes one piece of text as a merge operand.
pub fn serialize_single(s: &str) -> (r: Vec<u8>)
    requires
        encode_utf8(s@).len() <= MAX_STR_BYTES,
    ensures
        r@ == encode_str(s@),
{
    let mut r: Vec<u8> = Vec::new();
    push_str(&mut r, s);
    proof {
        assert(r@ =~= encode_str(s@));
    }
    r
}

/// The texts of the stored value, read leniently.
pub open spec fn base_texts(base: Option<Seq<u8>>) -> Seq<Seq<char>> {
    match base {
        Some(b) => read_strs_prefix(b),
        None => seq![],
    }
}

/// The texts of all operands, in order, each read leniently.
pub open spec fn operand_texts(ops: Seq<Seq<u8>>) -> Seq<Seq<char>>
    decreases ops.len(),
{
    if ops.len() == 0 {
        seq![]
    } else {
        operand_texts(ops.drop_last()) + read_strs_prefix(ops.last())
    }
}

proof fn lemma_operand_texts_fit(ops: Seq<Seq<u8>>)
    ensures
        all_fit(operand_texts(ops)),
    decreases ops.len(),
{
    if ops.len() > 0 {
        lemma_operand_texts_fit(ops.drop_last());
        lemma_read_strs_prefix_fit(ops.last());
        lemma_fit_concat(operand_texts(ops.drop_last()), read_strs_prefix(ops.last()));
    }
}

/// Merges runs of `str` pieces: every text of the stored value and of the
/// operands, read up to the first piece that cannot be read, sorted by bytes
/// and kept once. The stored value is sorted as well, so a base written by a
/// plain `put` in any order still merges into a sorted run.
pub fn concat_merge(
    _new_key: &[u8],
    existing_val: Option<&[u8]>,
    operands: &[&[u8]],
) -> (r: Option<Vec<u8>>)
    ensures
        r is Some,
        r->Some_0@ == encode_strs(
            canonical(base_texts(base_view(existing_val)) + operand_texts(operand_views(operands@))),
        ),
{
    let mut existing: Vec<String> = Vec::new();
    proof {
        assert(views(existing@) =~= Seq::<Seq<char>>::empty());
    }
    match existing_val {
        Some(unparsed) => read_prefix_into(unparsed, &mut existing),
        None => {},
    }
    let ghost base = views(existing@);
    proof {
        assert(base =~= base_texts(base_view(existing_val)));
    }
    let mut merged_inputs: Vec<String> = Vec::new();
    let mut i: usize = 0;
    proof {
        assert(views(merged_inputs@) =~= operand_texts(operand_views(operands@).take(0)));
    }
    while i < operands.len()
        invariant
            i <= operands.len(),
            views(merged_inputs@) == operand_texts(operand_views(operands@).take(i as int)),
        decreases operands.len() - i,
    {
        read_prefix_into(operands[i], &mut merged_inputs);
        proof {
            let t = operand_views(operands@).take(i + 1);
            assert(t.drop_last() =~= operand_views(operands@).take(i as int));
        }
        i = i + 1;
    }
    proof {
        assert(operand_views(operands@).take(i as int) =~= operand_views(operands@));
    }
    let ghost ops = views(merged_inputs@);
    sort_texts(&mut existing);
    sort_texts(&mut merged_inputs);
    proof {
        lemma_multiset_to_set(views(existing@), base);
        lemma_multiset_to_set(views(merged_inputs@), ops);
    }
    let ghost sorted_base = views(existing@);
    let ghost sorted_ops = views(merged_inputs@);
    let all = kmerge_texts(existing, merged_inputs);
    let unique = dedup_texts(all);
    proof {
        lemma_merged_to_set(views(all@), sorted_base, sorted_ops);
        lemma_to_set_concat(sorted_base, sorted_ops);
        lemma_to_set_concat(base, ops);
        lemma_sorted_distinct_strict(views(unique@));
        lemma_is_canonical(views(unique@), base + ops);
        lemma_read_strs_prefix_fit(match base_view(existing_val) {
            Some(b) => b,
            None => Seq::<u8>::empty(),
        });
        lemma_operand_texts_fit(operand_views(operands@));
        lemma_fit_concat(base, ops);
        lemma_fit_subset(views(unique@), base + ops);
    }
    Some(encode_texts(&unique))
}

/// Bytes that are not a run of complete `str` pieces.
#[derive(Debug)]
pub struct MalformedSet;

/// A set of texts, merged by union. It is held as its strictly sorted run
/// (by bytes), which is also the order in which it is stored.
#[derive(Debug)]
pub struct StringSet {
    items: Vec<String>,
}

impl View for StringSet {
    type V = Seq<Seq<char>>;

    closed spec fn view(&self) -> Seq<Seq<char>> {
        views(self.items@)
    }
}

impl StringSet {
    #[verifier::type_invariant]
    spec fn inv(self) -> bool {
        strictly_sorted(views(self.items@)) && all_fit(views(self.items@))
    }

    /// The set of the given texts.
    pub fn new(items: Vec<String>) -> (r: StringSet)
        requires
            all_fit(views(items@)),
        ensures
            r@ == canonical(views(items@)),
    {
        let ghost input = views(items@);
        let c = canonicalize(items);
        proof {
            lemma_canonical(input);
            lemma_fit_subset(views(c@), input);
        }
        StringSet { items: c }
    }

    /// The texts, in ascending byte order.
    pub fn items(&self) -> (r: &Vec<String>)
        ensures
            views(r@) == self@,
    {
        &self.items
    }
}

impl Deserializable for StringSet {
    type Error = MalformedSet;

    open spec fn decode_spec(bytes: Seq<u8>) -> Option<Seq<Seq<char>>> {
        match read_strs(bytes) {
            Some(l) => Some(canonical(l)),
            None => None,
        }
    }

    fn deserialize(bytes: &[u8]) -> (r: Result<StringSet, MalformedSet>) {
        match read_all(bytes) {
            Some(v) => {
                proof {
                    lemma_read_strs_fit(bytes@);
                }
                Ok(StringSet::new(v))
            },
            None => Err(MalformedSet),
        }
    }
}

impl Serializable for StringSet {
    open spec fn encode_spec(v: Seq<Seq<char>>) -> Seq<u8> {
        encode_strs(v)
    }

    fn serialize(self) -> (r: Vec<u8>) {
        proof {
            use_type_invariant(&self);
        }
        encode_texts(&self.items)
    }
}

impl AssociateMergeable for StringSet {
    open spec fn combine(a: Seq<Seq<char>>, b: Seq<Seq<char>>) -> Seq<Seq<char>> {
        canonical(a + b)
    }

    open spec fn recover(key: Seq<u8>, buf: Seq<u8>) -> Option<Seq<Seq<char>>> {
        None
    }

    open spec fn encode_value(v: Seq<Seq<char>>) -> Seq<u8> {
        encode_strs(v)
    }

    proof fn lemma_combine_associative(a: Seq<Seq<char>>, b: Seq<Seq<char>>, c: Seq<Seq<char>>) {
        lemma_union_associative(a, b, c);
    }

    fn merge(&mut self, other: &mut StringSet) {
        let mut left = StringSet { items: Vec::new() };
        let mut right = StringSet { items: Vec::new() };
        std::mem::swap(self, &mut left);
        std::mem::swap(other, &mut right);
        proof {
            use_type_invariant(&left);
            use_type_invariant(&right);
        }
        let ghost a = views(left.items@);
        let ghost b = views(right.items@);
        proof {
            lemma_strict_is_sorted(a);
            lemma_strict_is_sorted(b);
        }
        let all = kmerge_texts(left.items, right.items);
        let unique = dedup_texts(all);
        proof {
            lemma_merged_to_set(views(all@), a, b);
            lemma_sorted_distinct_strict(views(unique@));
            lemma_is_canonical(views(unique@), a + b);
            lemma_fit_concat(a, b);
            lemma_to_set_concat(a, b);
            lemma_fit_subset(views(unique@), a + b);
        }
        *self = StringSet { items: unique };
    }

    /// Skips an operand that does not decode.
    fn handle_deser_error(_key: &[u8], _buf: &[u8], _err: MalformedSet) -> (r: Option<StringSet>) {
        None
    }

    fn into_bytes(self) -> (r: Vec<u8>) {
        proof {
            use_type_invariant(&self);
        }
        encode_texts(&self.items)
    }
}

proof fn lemma_same_items_same_canonical(x: Seq<Seq<char>>, y: Seq<Seq<char>>)
    requires
        x.to_set() == y.to_set(),
    ensures
        canonical(x) == canonical(y),
{
    lemma_canonical(x);
    lemma_is_canonical(canonical(x), y);
}

/// Union of sets is associative.
pub proof fn lemma_union_associative(a: Seq<Seq<char>>, b: Seq<Seq<char>>, c: Seq<Seq<char>>)
    ensures
        StringSet::combine(StringSet::combine(a, b), c) == StringSet::combine(a, StringSet::combine(b, c)),
{
    let ab = canonical(a + b);
    let bc = canonical(b + c);
    lemma_canonical(a + b);
    lemma_canonical(b + c);
    lemma_to_set_concat(a, b);
    lemma_to_set_concat(b, c);
    lemma_to_set_concat(ab, c);
    lemma_to_set_concat(a, bc);
    assert((ab + c).to_set() =~= (a + bc).to_set());
    lemma_same_items_same_canonical(ab + c, a + bc);
}

/// Union of sets does not depend on the order of its operands.
pub proof fn lemma_union_commutative(a: Seq<Seq<char>>, b: Seq<Seq<char>>)
    ensures
        StringSet::combine(a, b) == StringSet::combine(b, a),
{
    lemma_to_set_concat(a, b);
    lemma_to_set_concat(b, a);
    assert((a + b).to_set() =~= (b + a).to_set());
    lemma_same_items_same_canonical(a + b, b + a);
}

/// Merging an operand that was already merged changes nothing.
pub proof fn lemma_union_redelivery(a: Seq<Seq<char>>, b: Seq<Seq<char>>)
    ensures
        StringSet::combine(StringSet::combine(a, b), b) == StringSet::combine(a, b),
{
    let ab = canonical(a + b);
    lemma_canonical(a + b);
    lemma_to_set_concat(a, b);
    lemma_to_set_concat(ab, b);
    assert((ab + b).to_set() =~= (a + b).to_set());
    lemma_same_items_same_canonical(ab + b, a + b);
}

/// A stored set reads back as itself.
pub proof fn lemma_set_round_trip(v: Seq<Seq<char>>)
    requires
        strictly_sorted(v),
        all_fit(v),
    ensures
        StringSet::decode_spec(StringSet::encode_value(v)) == Some(v),
{
    crate::msgpack::lemma_strs_round_trip(v);
    lemma_is_canonical(v, v);
}

proof fn lemma_decoded_sorted(key: Seq<u8>, b: Seq<u8>)
    ensures
        decode_operand::<StringSet>(key, b) is Some ==> strictly_sorted(
            decode_operand::<StringSet>(key, b).unwrap(),
        ),
{
    if let Some(l) = read_strs(b) {
        lemma_canonical(l);
    }
}

proof fn lemma_step_grows(acc: Option<Seq<Seq<char>>>, d: Option<Seq<Seq<char>>>)
    requires
        acc is Some ==> strictly_sorted(acc.unwrap()),
        d is Some ==> strictly_sorted(d.unwrap()),
    ensures
        fold_step::<StringSet>(acc, d) is Some ==> strictly_sorted(
            fold_step::<StringSet>(acc, d).unwrap(),
        ),
        acc is Some ==> fold_step::<StringSet>(acc, d) is Some && acc.unwrap().to_set().subset_of(
            fold_step::<StringSet>(acc, d).unwrap().to_set(),
        ),
        d is Some ==> fold_step::<StringSet>(acc, d) is Some && d.unwrap().to_set().subset_of(
            fold_step::<StringSet>(acc, d).unwrap().to_set(),
        ),
{
    if let (Some(m), Some(dv)) = (acc, d) {
        lemma_canonical(m + dv);
        lemma_to_set_concat(m, dv);
    }
}

proof fn lemma_fold_sorted(key: Seq<u8>, acc: Option<Seq<Seq<char>>>, ops: Seq<Seq<u8>>)
    requires
        acc is Some ==> strictly_sorted(acc.unwrap()),
    ensures
        fold_operands::<StringSet>(key, acc, ops) is Some ==> strictly_sorted(
            fold_operands::<StringSet>(key, acc, ops).unwrap(),
        ),
    decreases ops.len(),
{
    if ops.len() > 0 {
        lemma_fold_sorted(key, acc, ops.drop_last());
        lemma_decoded_sorted(key, ops.last());
        lemma_step_grows(
            fold_operands::<StringSet>(key, acc, ops.drop_last()),
            decode_operand::<StringSet>(key, ops.last()),
        );
    }
}

proof fn lemma_fold_covers(key: Seq<u8>, acc: Option<Seq<Seq<char>>>, ops: Seq<Seq<u8>>, i: int)
    requires
        acc is Some ==> strictly_sorted(acc.unwrap()),
        0 <= i < ops.len(),
        decode_operand::<StringSet>(key, ops[i]) is Some,
    ensures
        fold_operands::<StringSet>(key, acc, ops) is Some,
        decode_operand::<StringSet>(key, ops[i]).unwrap().to_set().subset_of(
            fold_operands::<StringSet>(key, acc, ops).unwrap().to_set(),
        ),
    decreases ops.len(),
{
    let prev = fold_operands::<StringSet>(key, acc, ops.drop_last());
    lemma_fold_sorted(key, acc, ops.drop_last());
    lemma_decoded_sorted(key, ops.last());
    lemma_step_grows(prev, decode_operand::<StringSet>(key, ops.last()));
    if i < ops.len() - 1 {
        lemma_fold_covers(key, acc, ops.drop_last(), i);
        assert(ops.drop_last()[i] == ops[i]);
    }
}

/// Re-delivering an operand that was already folded in leaves the reduced set
/// unchanged.
pub proof fn lemma_set_redelivery(key: Seq<u8>, base: Option<Seq<u8>>, ops: Seq<Seq<u8>>, i: int)
    requires
        0 <= i < ops.len(),
    ensures
        reduce::<StringSet>(key, base, ops.push(ops[i])) == reduce::<StringSet>(key, base, ops),
{
    let start = match base {
        Some(b) => decode_operand::<StringSet>(key, b),
        None => None,
    };
    let more = ops.push(ops[i]);
    assert(more.drop_last() =~= ops);
    match base {
        Some(b) => lemma_decoded_sorted(key, b),
        None => {},
    }
    let d = decode_operand::<StringSet>(key, ops[i]);
    if let Some(dv) = d {
        lemma_fold_covers(key, start, ops, i);
        lemma_fold_sorted(key, start, ops);
        let rv = fold_operands::<StringSet>(key, start, ops).unwrap();
        lemma_to_set_concat(rv, dv);
        assert((rv + dv).to_set() =~= rv.to_set());
        lemma_is_canonical(rv, rv + dv);
    }
}

} // verus!
