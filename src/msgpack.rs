//! MessagePack `str` framing: one piece of text as a header and its UTF-8 bytes,
//! and runs of such pieces laid end to end.
use vstd::prelude::*;
use vstd::utf8::*;

verus! {

/// The largest byte length a `str` header can announce.
pub const MAX_STR_BYTES: u64 = 0xffff_ffff;

/// The shortest header for a payload of `n` bytes: fixstr, str8, str16 or str32,
/// lengths big-endian.
pub open spec fn str_header(n: nat) -> Seq<u8> {
    if n < 32 {
        seq![(0xa0 + n) as u8]
    } else if n < 256 {
        seq![0xd9u8, n as u8]
    } else if n < 65536 {
        seq![0xdau8, (n / 256) as u8, (n % 256) as u8]
    } else {
        seq![
            0xdbu8,
            (n / 256 / 256 / 256) as u8,
            (n / 256 / 256 % 256) as u8,
            (n / 256 % 256) as u8,
            (n % 256) as u8,
        ]
    }
}

/// One piece of text in `str` framing.
pub open spec fn encode_str(s: Seq<char>) -> Seq<u8> {
    str_header(encode_utf8(s).len()) + encode_utf8(s)
}

/// The announced payload length and the header's own length, if `b` starts
/// with a `str` header.
pub open spec fn read_str_header(b: Seq<u8>) -> Option<(nat, nat)> {
    if b.len() == 0 {
        None
    } else if 0xa0 <= b[0] <= 0xbf {
        Some(((b[0] - 0xa0) as nat, 1))
    } else if b[0] == 0xd9 && b.len() >= 2 {
        Some((b[1] as nat, 2))
    } else if b[0] == 0xda && b.len() >= 3 {
        Some((b[1] as nat * 256 + b[2] as nat, 3))
    } else if b[0] == 0xdb && b.len() >= 5 {
        Some((((b[1] as nat * 256 + b[2] as nat) * 256 + b[3] as nat) * 256 + b[4] as nat, 5))
    } else {
        None
    }
}

/// The text at the front of `b` and the bytes after it, if `b` starts with a
/// complete `str` whose payload is valid UTF-8.
pub open spec fn read_str_spec(b: Seq<u8>) -> Option<(Seq<char>, Seq<u8>)> {
    match read_str_header(b) {
        Some((len, h)) => {
            if h + len <= b.len() && valid_utf8(b.subrange(h as int, (h + len) as int)) {
                Some((decode_utf8(b.subrange(h as int, (h + len) as int)), b.subrange((h + len) as int, b.len() as int)))
            } else {
                None
            }
        },
        None => None,
    }
}

/// The pieces read from the front of `b` until the first one that cannot be read.
pub open spec fn read_strs_prefix(b: Seq<u8>) -> Seq<Seq<char>>
    decreases b.len(),
{
    match read_str_spec(b) {
        Some((s, tail)) => {
            if tail.len() < b.len() {
                seq![s] + read_strs_prefix(tail)
            } else {
                seq![]
            }
        },
        None => seq![],
    }
}

/// The pieces of `b`, if all of `b` is a run of complete pieces.
pub open spec fn read_strs(b: Seq<u8>) -> Option<Seq<Seq<char>>>
    decreases b.len(),
{
    if b.len() == 0 {
        Some(seq![])
    } else {
        match read_str_spec(b) {
            Some((s, tail)) => {
                if tail.len() < b.len() {
                    match read_strs(tail) {
                        Some(rest) => Some(seq![s] + rest),
                        None => None,
                    }
                } else {
                    None
                }
            },
            None => None,
        }
    }
}

/// A run of pieces laid end to end.
pub open spec fn encode_strs(l: Seq<Seq<char>>) -> Seq<u8>
    decreases l.len(),
{
    if l.len() == 0 {
        seq![]
    } else {
        encode_strs(l.drop_last()) + encode_str(l.last())
    }
}

/// Every piece fits in a `str` header.
pub open spec fn all_fit(l: Seq<Seq<char>>) -> bool {
    forall|i: int| 0 <= i < l.len() ==> encode_utf8(#[trigger] l[i]).len() <= MAX_STR_BYTES
}

/// Relies on rmp::decode::read_str_from_slice: reads one `str` (marker,
/// big-endian length, UTF-8 payload) from the front and hands back the rest.
#[verifier::external_body]
pub(crate) fn take_str<'a>(buf: &'a [u8]) -> (r: Option<(&'a str, &'a [u8])>)
    ensures
        match r {
            Some((s, tail)) => read_str_spec(buf@) == Some((s@, tail@)),
            None => read_str_spec(buf@) is None,
        },
{
    rmp::decode::read_str_from_slice(buf).ok()
}

/// Relies on rmp::encode::write_str: appends the shortest `str` header for the
/// byte length and then the bytes; writing into a `Vec` cannot fail.
#[verifier::external_body]
pub(crate) fn push_str(buf: &mut Vec<u8>, s: &str)
    requires
        encode_utf8(s@).len() <= MAX_STR_BYTES,
    ensures
        final(buf)@ == old(buf)@ + encode_str(s@),
{
    let _ = rmp::encode::write_str(buf, s);
}

/// A read piece takes at least one byte.
pub proof fn lemma_read_str_shrinks(b: Seq<u8>)
    requires
        read_str_spec(b) is Some,
    ensures
        read_str_spec(b).unwrap().1.len() < b.len(),
{
}

proof fn lemma_header_round_trip(n: nat, rest: Seq<u8>)
    requires
        n <= MAX_STR_BYTES,
    ensures
        read_str_header(str_header(n) + rest) == Some((n, str_header(n).len())),
{
    let b = str_header(n) + rest;
    if n < 32 {
    } else if n < 256 {
    } else if n < 65536 {
        assert(b[1] as nat * 256 + b[2] as nat == n);
    } else {
        let q1 = n / 256;
        let q2 = q1 / 256;
        let q3 = q2 / 256;
        assert(q3 < 256);
        assert(((b[1] as nat * 256 + b[2] as nat) * 256 + b[3] as nat) * 256 + b[4] as nat == n);
    }
}

/// A piece in `str` framing reads back as itself, whatever follows it.
pub proof fn lemma_str_round_trip(s: Seq<char>, rest: Seq<u8>)
    requires
        encode_utf8(s).len() <= MAX_STR_BYTES,
    ensures
        read_str_spec(encode_str(s) + rest) == Some((s, rest)),
{
    let p = encode_utf8(s);
    let h = str_header(p.len());
    let b = encode_str(s) + rest;
    assert(b =~= h + (p + rest));
    lemma_header_round_trip(p.len(), p + rest);
    assert(b.subrange(h.len() as int, (h.len() + p.len()) as int) =~= p);
    assert(b.subrange((h.len() + p.len()) as int, b.len() as int) =~= rest);
    encode_utf8_valid_utf8(s);
    encode_utf8_decode_utf8(s);
}

proof fn lemma_encode_strs_cons(x: Seq<char>, l: Seq<Seq<char>>)
    ensures
        encode_strs(seq![x] + l) == encode_str(x) + encode_strs(l),
    decreases l.len(),
{
    let xl = seq![x] + l;
    if l.len() == 0 {
        assert(xl.drop_last() =~= Seq::<Seq<char>>::empty());
        assert(xl.last() == x);
        assert(encode_strs(xl.drop_last()) =~= Seq::<u8>::empty());
        assert(encode_strs(l) =~= Seq::<u8>::empty());
        assert(encode_strs(xl) =~= encode_str(x) + encode_strs(l));
    } else {
        assert(xl.drop_last() =~= seq![x] + l.drop_last());
        lemma_encode_strs_cons(x, l.drop_last());
        assert(encode_strs(xl) =~= encode_str(x) + encode_strs(l));
    }
}

/// A run of pieces reads back as the same pieces, whole or piece by piece.
pub proof fn lemma_strs_round_trip(l: Seq<Seq<char>>)
    requires
        all_fit(l),
    ensures
        read_strs(encode_strs(l)) == Some(l),
        read_strs_prefix(encode_strs(l)) == l,
    decreases l.len(),
{
    if l.len() > 0 {
        let x = l[0];
        let t = l.drop_first();
        assert(l =~= seq![x] + t);
        lemma_encode_strs_cons(x, t);
        assert(all_fit(t)) by {
            assert forall|i: int| 0 <= i < t.len() implies encode_utf8(#[trigger] t[i]).len()
                <= MAX_STR_BYTES by {
                assert(t[i] == l[i + 1]);
            }
        }
        assert(encode_utf8(l[0]).len() <= MAX_STR_BYTES);
        lemma_strs_round_trip(t);
        lemma_str_round_trip(x, encode_strs(t));
        assert(encode_str(x).len() > 0);
    } else {
        assert(encode_strs(l) =~= Seq::<u8>::empty());
    }
}

} // verus!
