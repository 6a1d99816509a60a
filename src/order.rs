//! The byte order in which text is sorted, and sorted runs of distinct text.
use vstd::prelude::*;
use vstd::utf8::*;

verus! {

/// Lexicographic order on byte strings: a proper prefix comes first.
pub open spec fn bytes_lt(a: Seq<u8>, b: Seq<u8>) -> bool
    decreases a.len(),
{
    if a.len() == 0 {
        b.len() > 0
    } else if b.len() == 0 {
        false
    } else if a[0] != b[0] {
        a[0] < b[0]
    } else {
        bytes_lt(a.drop_first(), b.drop_first())
    }
}

/// Text is ordered by its UTF-8 bytes.
pub open spec fn text_lt(a: Seq<char>, b: Seq<char>) -> bool {
    bytes_lt(encode_utf8(a), encode_utf8(b))
}

/// Every later item is not smaller than an earlier one.
pub open spec fn sorted(s: Seq<Seq<char>>) -> bool {
    forall|i: int, j: int| 0 <= i < j < s.len() ==> !text_lt(#[trigger] s[j], #[trigger] s[i])
}

/// Every later item is strictly greater than an earlier one.
pub open spec fn strictly_sorted(s: Seq<Seq<char>>) -> bool {
    forall|i: int, j: int| 0 <= i < j < s.len() ==> text_lt(#[trigger] s[i], #[trigger] s[j])
}

/// No two neighbours are equal.
pub open spec fn adjacent_distinct(s: Seq<Seq<char>>) -> bool {
    forall|i: int| 0 <= i < s.len() - 1 ==> #[trigger] s[i] != s[i + 1]
}

pub proof fn lemma_bytes_lt_irreflexive(a: Seq<u8>)
    ensures
        !bytes_lt(a, a),
    decreases a.len(),
{
    if a.len() > 0 {
        lemma_bytes_lt_irreflexive(a.drop_first());
    }
}

pub proof fn lemma_bytes_lt_transitive(a: Seq<u8>, b: Seq<u8>, c: Seq<u8>)
    requires
        bytes_lt(a, b),
        bytes_lt(b, c),
    ensures
        bytes_lt(a, c),
    decreases a.len(),
{
    if a.len() > 0 && b.len() > 0 && c.len() > 0 && a[0] == b[0] && b[0] == c[0] {
        lemma_bytes_lt_transitive(a.drop_first(), b.drop_first(), c.drop_first());
    }
}

pub proof fn lemma_bytes_lt_total(a: Seq<u8>, b: Seq<u8>)
    ensures
        a =~= b || bytes_lt(a, b) || bytes_lt(b, a),
    decreases a.len(),
{
    if a.len() > 0 && b.len() > 0 && a[0] == b[0] {
        lemma_bytes_lt_total(a.drop_first(), b.drop_first());
        if a.drop_first() =~= b.drop_first() {
            assert(a =~= seq![a[0]] + a.drop_first());
            assert(b =~= seq![b[0]] + b.drop_first());
        }
    }
}

pub proof fn lemma_text_lt_irreflexive(a: Seq<char>)
    ensures
        !text_lt(a, a),
{
    lemma_bytes_lt_irreflexive(encode_utf8(a));
}

pub proof fn lemma_text_lt_transitive(a: Seq<char>, b: Seq<char>, c: Seq<char>)
    requires
        text_lt(a, b),
        text_lt(b, c),
    ensures
        text_lt(a, c),
{
    lemma_bytes_lt_transitive(encode_utf8(a), encode_utf8(b), encode_utf8(c));
}

pub proof fn lemma_text_lt_total(a: Seq<char>, b: Seq<char>)
    ensures
        a == b || text_lt(a, b) || text_lt(b, a),
{
    lemma_bytes_lt_total(encode_utf8(a), encode_utf8(b));
    encode_utf8_decode_utf8(a);
    encode_utf8_decode_utf8(b);
}

/// A strictly sorted run is sorted.
pub proof fn lemma_strict_is_sorted(s: Seq<Seq<char>>)
    requires
        strictly_sorted(s),
    ensures
        sorted(s),
{
    assert forall|i: int, j: int| 0 <= i < j < s.len() implies !text_lt(
        #[trigger] s[j],
        #[trigger] s[i],
    ) by {
        if text_lt(s[j], s[i]) {
            lemma_text_lt_transitive(s[i], s[j], s[i]);
            lemma_text_lt_irreflexive(s[i]);
        }
    }
}

/// A sorted run without equal neighbours is strictly sorted.
pub proof fn lemma_sorted_distinct_strict(s: Seq<Seq<char>>)
    requires
        sorted(s),
        adjacent_distinct(s),
    ensures
        strictly_sorted(s),
    decreases s.len(),
{
    if s.len() > 1 {
        let t = s.drop_last();
        assert(sorted(t));
        assert(adjacent_distinct(t)) by {
            assert forall|i: int| 0 <= i < t.len() - 1 implies #[trigger] t[i] != t[i + 1] by {
                assert(s[i] != s[i + 1]);
            }
        }
        lemma_sorted_distinct_strict(t);
        let n = s.len() - 1;
        assert(text_lt(s[n - 1], s[n])) by {
            lemma_text_lt_total(s[n - 1], s[n]);
        }
        assert forall|i: int, j: int| 0 <= i < j < s.len() implies text_lt(
            #[trigger] s[i],
            #[trigger] s[j],
        ) by {
            if j == n && i < n - 1 {
                assert(text_lt(t[i], t[n - 1]));
                lemma_text_lt_transitive(s[i], s[n - 1], s[n]);
            } else if j < n {
                assert(text_lt(t[i], t[j]));
            }
        }
    }
}

/// Two strictly sorted runs that hold the same items are equal.
pub proof fn lemma_strictly_sorted_unique(a: Seq<Seq<char>>, b: Seq<Seq<char>>)
    requires
        strictly_sorted(a),
        strictly_sorted(b),
        a.to_set() == b.to_set(),
    ensures
        a == b,
    decreases a.len(),
{
    if a.len() == 0 {
        if b.len() > 0 {
            assert(b.to_set().contains(b[0]));
        }
    } else if b.len() == 0 {
        assert(a.to_set().contains(a[0]));
    } else {
        assert(a.to_set().contains(a[0]));
        assert(b.to_set().contains(b[0]));
        let i = choose|i: int| 0 <= i < b.len() && b[i] == a[0];
        let j = choose|j: int| 0 <= j < a.len() && a[j] == b[0];
        if i > 0 {
            assert(text_lt(b[0], b[i]));
            if j > 0 {
                assert(text_lt(a[0], a[j]));
                lemma_text_lt_transitive(a[0], b[0], a[0]);
                lemma_text_lt_irreflexive(a[0]);
            } else {
                lemma_text_lt_irreflexive(a[0]);
            }
        }
        assert(a[0] == b[0]);
        let ta = a.drop_first();
        let tb = b.drop_first();
        assert(strictly_sorted(ta));
        assert(strictly_sorted(tb));
        assert(ta.to_set() =~= tb.to_set()) by {
            assert forall|x: Seq<char>| ta.to_set().contains(x) implies tb.to_set().contains(x) by {
                let k = choose|k: int| 0 <= k < ta.len() && ta[k] == x;
                assert(a[k + 1] == x);
                assert(text_lt(a[0], x));
                assert(b.to_set().contains(x));
                let m = choose|m: int| 0 <= m < b.len() && b[m] == x;
                if m == 0 {
                    lemma_text_lt_irreflexive(x);
                }
                assert(tb[m - 1] == x);
            }
            assert forall|x: Seq<char>| tb.to_set().contains(x) implies ta.to_set().contains(x) by {
                let k = choose|k: int| 0 <= k < tb.len() && tb[k] == x;
                assert(b[k + 1] == x);
                assert(text_lt(b[0], x));
                assert(a.to_set().contains(x));
                let m = choose|m: int| 0 <= m < a.len() && a[m] == x;
                if m == 0 {
                    lemma_text_lt_irreflexive(x);
                }
                assert(ta[m - 1] == x);
            }
        }
        lemma_strictly_sorted_unique(ta, tb);
        assert(a =~= seq![a[0]] + ta);
        assert(b =~= seq![b[0]] + tb);
    }
}

/// The sorted union of two sorted runs, equal items kept once.
pub open spec fn union_sorted(a: Seq<Seq<char>>, b: Seq<Seq<char>>) -> Seq<Seq<char>>
    decreases a.len() + b.len(),
{
    if a.len() == 0 {
        b
    } else if b.len() == 0 {
        a
    } else if a[0] == b[0] {
        seq![a[0]] + union_sorted(a.drop_first(), b.drop_first())
    } else if text_lt(a[0], b[0]) {
        seq![a[0]] + union_sorted(a.drop_first(), b)
    } else {
        seq![b[0]] + union_sorted(a, b.drop_first())
    }
}

/// The strictly sorted run that holds the items of `s`.
pub open spec fn canonical(s: Seq<Seq<char>>) -> Seq<Seq<char>>
    decreases s.len(),
{
    if s.len() == 0 {
        s
    } else {
        union_sorted(canonical(s.drop_last()), seq![s.last()])
    }
}

proof fn lemma_cons_strictly_sorted(x: Seq<char>, rest: Seq<Seq<char>>)
    requires
        strictly_sorted(rest),
        forall|y: Seq<char>| rest.to_set().contains(y) ==> text_lt(x, y),
    ensures
        strictly_sorted(seq![x] + rest),
{
    let s = seq![x] + rest;
    assert forall|i: int, j: int| 0 <= i < j < s.len() implies text_lt(
        #[trigger] s[i],
        #[trigger] s[j],
    ) by {
        if i == 0 {
            assert(rest.to_set().contains(rest[j - 1]));
        } else {
            assert(text_lt(rest[i - 1], rest[j - 1]));
        }
    }
}

proof fn lemma_strictly_sorted_head_least(s: Seq<Seq<char>>)
    requires
        strictly_sorted(s),
        s.len() > 0,
    ensures
        forall|y: Seq<char>| s.drop_first().to_set().contains(y) ==> text_lt(s[0], y),
        forall|y: Seq<char>| s.to_set().contains(y) ==> y == s[0] || text_lt(s[0], y),
{
    assert forall|y: Seq<char>| s.drop_first().to_set().contains(y) implies text_lt(s[0], y) by {
        let k = choose|k: int| 0 <= k < s.drop_first().len() && s.drop_first()[k] == y;
        assert(s[k + 1] == y);
    }
    assert forall|y: Seq<char>| s.to_set().contains(y) implies y == s[0] || text_lt(s[0], y) by {
        let k = choose|k: int| 0 <= k < s.len() && s[k] == y;
        if k > 0 {
            assert(text_lt(s[0], s[k]));
        }
    }
}

proof fn lemma_to_set_cons(x: Seq<char>, s: Seq<Seq<char>>)
    ensures
        (seq![x] + s).to_set() == s.to_set().insert(x),
{
    let t = seq![x] + s;
    assert(t.to_set() =~= s.to_set().insert(x)) by {
        assert forall|y: Seq<char>| t.to_set().contains(y) implies s.to_set().insert(x).contains(y) by {
            let k = choose|k: int| 0 <= k < t.len() && t[k] == y;
            if k > 0 {
                assert(s[k - 1] == y);
            }
        }
        assert forall|y: Seq<char>| s.to_set().insert(x).contains(y) implies t.to_set().contains(y) by {
            if y == x {
                assert(t[0] == y);
            } else {
                let k = choose|k: int| 0 <= k < s.len() && s[k] == y;
                assert(t[k + 1] == y);
            }
        }
    }
}

proof fn lemma_drop_first_set(s: Seq<Seq<char>>)
    requires
        s.len() > 0,
    ensures
        s.to_set() == s.drop_first().to_set().insert(s[0]),
{
    assert(s =~= seq![s[0]] + s.drop_first());
    lemma_to_set_cons(s[0], s.drop_first());
}

/// The union of two strictly sorted runs is strictly sorted and holds the
/// items of both.
pub proof fn lemma_union_sorted(a: Seq<Seq<char>>, b: Seq<Seq<char>>)
    requires
        strictly_sorted(a),
        strictly_sorted(b),
    ensures
        strictly_sorted(union_sorted(a, b)),
        union_sorted(a, b).to_set() == a.to_set().union(b.to_set()),
    decreases a.len() + b.len(),
{
    if a.len() == 0 {
        assert(a.to_set().union(b.to_set()) =~= b.to_set());
    } else if b.len() == 0 {
        assert(a.to_set().union(b.to_set()) =~= a.to_set());
    } else {
        lemma_strictly_sorted_head_least(a);
        lemma_strictly_sorted_head_least(b);
        lemma_drop_first_set(a);
        lemma_drop_first_set(b);
        let ta = a.drop_first();
        let tb = b.drop_first();
        assert(strictly_sorted(ta));
        assert(strictly_sorted(tb));
        if a[0] == b[0] {
            let r = union_sorted(ta, tb);
            lemma_union_sorted(ta, tb);
            lemma_cons_strictly_sorted(a[0], r);
            lemma_to_set_cons(a[0], r);
            assert(a.to_set().union(b.to_set()) =~= r.to_set().insert(a[0]));
        } else if text_lt(a[0], b[0]) {
            let r = union_sorted(ta, b);
            lemma_union_sorted(ta, b);
            assert forall|y: Seq<char>| r.to_set().contains(y) implies text_lt(a[0], y) by {
                if b.to_set().contains(y) && y != b[0] {
                    lemma_text_lt_transitive(a[0], b[0], y);
                }
            }
            lemma_cons_strictly_sorted(a[0], r);
            lemma_to_set_cons(a[0], r);
            assert(a.to_set().union(b.to_set()) =~= r.to_set().insert(a[0]));
        } else {
            lemma_text_lt_total(a[0], b[0]);
            let r = union_sorted(a, tb);
            lemma_union_sorted(a, tb);
            assert forall|y: Seq<char>| r.to_set().contains(y) implies text_lt(b[0], y) by {
                if a.to_set().contains(y) && y != a[0] {
                    lemma_text_lt_transitive(b[0], a[0], y);
                }
            }
            lemma_cons_strictly_sorted(b[0], r);
            lemma_to_set_cons(b[0], r);
            assert(a.to_set().union(b.to_set()) =~= r.to_set().insert(b[0]));
        }
    }
}

/// The canonical run of `s` is strictly sorted and holds exactly the items of `s`.
pub proof fn lemma_canonical(s: Seq<Seq<char>>)
    ensures
        strictly_sorted(canonical(s)),
        canonical(s).to_set() == s.to_set(),
    decreases s.len(),
{
    if s.len() > 0 {
        let t = s.drop_last();
        lemma_canonical(t);
        let one = seq![s.last()];
        lemma_union_sorted(canonical(t), one);
        assert(s =~= t.push(s.last()));
        assert(one.to_set() =~= set![s.last()]) by {
            lemma_to_set_cons(s.last(), Seq::<Seq<char>>::empty());
            assert(one =~= seq![s.last()] + Seq::<Seq<char>>::empty());
        }
        assert(s.to_set() =~= t.to_set().insert(s.last()));
    }
}

/// A strictly sorted run with the same items as `s` is its canonical run.
pub proof fn lemma_is_canonical(r: Seq<Seq<char>>, s: Seq<Seq<char>>)
    requires
        strictly_sorted(r),
        r.to_set() == s.to_set(),
    ensures
        r == canonical(s),
{
    lemma_canonical(s);
    lemma_strictly_sorted_unique(r, canonical(s));
}

} // verus!
