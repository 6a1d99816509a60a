//! The associative merge reducer: folds a stored base value and the pending
//! merge operands of one key into at most one new stored value.
use vstd::prelude::*;
use crate::codec::Deserializable;

verus! {

/// A value type that the engine can accumulate by merging.
///
/// `combine` is what `merge` makes of two values and must be associative;
/// `recover` is the decode-error policy: what becomes of an operand whose bytes
/// do not decode (`None` drops it from the fold).
pub trait AssociateMergeable: Sized + Deserializable {
    spec fn combine(a: Self::V, b: Self::V) -> Self::V;

    spec fn recover(key: Seq<u8>, buf: Seq<u8>) -> Option<Self::V>;

    spec fn encode_value(v: Self::V) -> Seq<u8>;

    proof fn lemma_combine_associative(a: Self::V, b: Self::V, c: Self::V)
        ensures
            Self::combine(Self::combine(a, b), c) == Self::combine(a, Self::combine(b, c)),
    ;

    fn merge(&mut self, other: &mut Self)
        ensures
            final(self)@ == Self::combine(old(self)@, old(other)@),
    ;

    fn handle_deser_error(key: &[u8], buf: &[u8], err: Self::Error) -> (r: Option<Self>)
        ensures
            match r {
                Some(v) => Self::recover(key@, buf@) == Some(v@),
                None => Self::recover(key@, buf@) is None,
            },
    ;

    fn into_bytes(self) -> (r: Vec<u8>)
        ensures
            r@ == Self::encode_value(self@),
    ;
}

/// The bytes each operand holds.
pub open spec fn operand_views(ops: Seq<&[u8]>) -> Seq<Seq<u8>> {
    ops.map_values(|o: &[u8]| o@)
}

/// The bytes of an optional stored value.
pub open spec fn base_view(base: Option<&[u8]>) -> Option<Seq<u8>> {
    match base {
        Some(b) => Some(b@),
        None => None,
    }
}

/// An operand decoded, or what the policy makes of it when it does not decode.
pub open spec fn decode_operand<V: AssociateMergeable>(key: Seq<u8>, buf: Seq<u8>) -> Option<V::V> {
    match V::decode_spec(buf) {
        Some(v) => Some(v),
        None => V::recover(key, buf),
    }
}

/// One step of the fold: a dropped operand leaves the running value as it
/// was, the first one starts it, later ones are combined into it.
pub open spec fn fold_step<V: AssociateMergeable>(acc: Option<V::V>, d: Option<V::V>) -> Option<V::V> {
    match d {
        None => acc,
        Some(dv) => match acc {
            None => Some(dv),
            Some(m) => Some(V::combine(m, dv)),
        },
    }
}

/// The running value after folding `ops`, in order, into `acc`.
pub open spec fn fold_operands<V: AssociateMergeable>(
    key: Seq<u8>,
    acc: Option<V::V>,
    ops: Seq<Seq<u8>>,
) -> Option<V::V>
    decreases ops.len(),
{
    if ops.len() == 0 {
        acc
    } else {
        fold_step::<V>(fold_operands::<V>(key, acc, ops.drop_last()), decode_operand::<V>(key, ops.last()))
    }
}

/// The value that a base and its pending operands reduce to.
pub open spec fn reduce<V: AssociateMergeable>(
    key: Seq<u8>,
    base: Option<Seq<u8>>,
    ops: Seq<Seq<u8>>,
) -> Option<V::V> {
    let start = match base {
        Some(b) => decode_operand::<V>(key, b),
        None => None,
    };
    fold_operands::<V>(key, start, ops)
}

fn decode_or_recover<V: AssociateMergeable>(key: &[u8], buf: &[u8]) -> (r: Option<V>)
    ensures
        match r {
            Some(v) => decode_operand::<V>(key@, buf@) == Some(v@),
            None => decode_operand::<V>(key@, buf@) is None,
        },
{
    match V::deserialize(buf) {
        Ok(v) => Some(v),
        Err(err) => V::handle_deser_error(key, buf, err),
    }
}

/// Folds the stored value `existing_val` (if any) and the operands, in order,
/// into the bytes to store; `None` when nothing survives decoding.
pub fn merge<V: AssociateMergeable>(
    key: &[u8],
    existing_val: Option<&[u8]>,
    operands: &[&[u8]],
) -> (r: Option<Vec<u8>>)
    ensures
        match reduce::<V>(key@, base_view(existing_val), operand_views(operands@)) {
            Some(v) => r is Some && r->Some_0@ == V::encode_value(v),
            None => r is None,
        },
{
    let mut merged: Option<V> = match existing_val {
        Some(unparsed) => decode_or_recover::<V>(key, unparsed),
        None => None,
    };
    let ghost start = match existing_val {
        Some(b) => decode_operand::<V>(key@, b@),
        None => None,
    };
    let mut i: usize = 0;
    while i < operands.len()
        invariant
            i <= operands.len(),
            fold_operands::<V>(key@, start, operand_views(operands@).take(i as int)) == (match merged {
                Some(m) => Some(m@),
                None => None,
            }),
        decreases operands.len() - i,
    {
        let deser = decode_or_recover::<V>(key, operands[i]);
        proof {
            assert(operand_views(operands@).take(i + 1).drop_last() =~= operand_views(operands@).take(
                i as int,
            ));
        }
        merged = match merged {
            None => deser,
            Some(m) => match deser {
                None => Some(m),
                Some(d) => {
                    let mut m = m;
                    let mut d = d;
                    m.merge(&mut d);
                    Some(m)
                },
            },
        };
        i = i + 1;
    }
    proof {
        assert(operand_views(operands@).take(i as int) =~= operand_views(operands@));
    }
    match merged {
        Some(value) => Some(value.into_bytes()),
        None => None,
    }
}

proof fn lemma_fold_skip<V: AssociateMergeable>(
    key: Seq<u8>,
    acc: Option<V::V>,
    ops: Seq<Seq<u8>>,
    i: int,
)
    requires
        0 <= i < ops.len(),
        decode_operand::<V>(key, ops[i]) is None,
    ensures
        fold_operands::<V>(key, acc, ops) == fold_operands::<V>(key, acc, ops.remove(i)),
    decreases ops.len(),
{
    if i == ops.len() - 1 {
        assert(ops.remove(i) =~= ops.drop_last());
    } else {
        lemma_fold_skip::<V>(key, acc, ops.drop_last(), i);
        assert(ops.remove(i).drop_last() =~= ops.drop_last().remove(i));
        assert(ops.remove(i).last() == ops.last());
    }
}

/// Under the skip policy, an operand that does not decode leaves the result
/// exactly as if it had never been enqueued.
pub proof fn lemma_corrupt_operand_skipped<V: AssociateMergeable>(
    key: Seq<u8>,
    base: Option<Seq<u8>>,
    ops: Seq<Seq<u8>>,
    i: int,
)
    requires
        0 <= i < ops.len(),
        V::decode_spec(ops[i]) is None,
        V::recover(key, ops[i]) is None,
    ensures
        reduce::<V>(key, base, ops) == reduce::<V>(key, base, ops.remove(i)),
{
    let start = match base {
        Some(b) => decode_operand::<V>(key, b),
        None => None,
    };
    lemma_fold_skip::<V>(key, start, ops, i);
}

/// Folding a concatenation folds the second part into the result of the first.
pub proof fn lemma_fold_concat<V: AssociateMergeable>(
    key: Seq<u8>,
    acc: Option<V::V>,
    ops1: Seq<Seq<u8>>,
    ops2: Seq<Seq<u8>>,
)
    ensures
        fold_operands::<V>(key, acc, ops1 + ops2) == fold_operands::<V>(
            key,
            fold_operands::<V>(key, acc, ops1),
            ops2,
        ),
    decreases ops2.len(),
{
    if ops2.len() == 0 {
        assert(ops1 + ops2 =~= ops1);
    } else {
        lemma_fold_concat::<V>(key, acc, ops1, ops2.drop_last());
        assert((ops1 + ops2).drop_last() =~= ops1 + ops2.drop_last());
        assert((ops1 + ops2).last() == ops2.last());
    }
}

proof fn lemma_fold_from_start<V: AssociateMergeable>(
    key: Seq<u8>,
    acc: Option<V::V>,
    ops: Seq<Seq<u8>>,
)
    ensures
        fold_operands::<V>(key, acc, ops) == fold_step::<V>(acc, fold_operands::<V>(key, None, ops)),
    decreases ops.len(),
{
    if ops.len() > 0 {
        lemma_fold_from_start::<V>(key, acc, ops.drop_last());
        let d = decode_operand::<V>(key, ops.last());
        let rest = fold_operands::<V>(key, None, ops.drop_last());
        if let (Some(m), Some(r), Some(dv)) = (acc, rest, d) {
            V::lemma_combine_associative(m, r, dv);
        }
    }
}

/// The engine may reduce a run of operands on its own, without the base, and
/// enqueue the stored result in their place: if that result reads back as
/// itself, the final value is the same as folding all operands at once.
pub proof fn lemma_partial_merge<V: AssociateMergeable>(
    key: Seq<u8>,
    base: Option<Seq<u8>>,
    ops1: Seq<Seq<u8>>,
    ops2: Seq<Seq<u8>>,
    ops3: Seq<Seq<u8>>,
)
    requires
        reduce::<V>(key, None, ops2) is Some,
        V::decode_spec(V::encode_value(reduce::<V>(key, None, ops2).unwrap())) == reduce::<V>(
            key,
            None,
            ops2,
        ),
    ensures
        reduce::<V>(
            key,
            base,
            ops1 + seq![V::encode_value(reduce::<V>(key, None, ops2).unwrap())] + ops3,
        ) == reduce::<V>(key, base, ops1 + ops2 + ops3),
{
    let start = match base {
        Some(b) => decode_operand::<V>(key, b),
        None => None,
    };
    let e = seq![V::encode_value(reduce::<V>(key, None, ops2).unwrap())];
    lemma_fold_concat::<V>(key, start, ops1 + e, ops3);
    lemma_fold_concat::<V>(key, start, ops1, e);
    lemma_fold_concat::<V>(key, start, ops1 + ops2, ops3);
    lemma_fold_concat::<V>(key, start, ops1, ops2);
    let a1 = fold_operands::<V>(key, start, ops1);
    lemma_fold_from_start::<V>(key, a1, ops2);
    assert(e.drop_last() =~= Seq::<Seq<u8>>::empty());
    assert(fold_operands::<V>(key, a1, e.drop_last()) == a1);
    assert(fold_operands::<V>(key, a1, e) == fold_step::<V>(a1, decode_operand::<V>(key, e.last())));
}

/// Storing a reduced value and reducing again with more operands gives the
/// same value as reducing all operands at once, provided the stored value
/// reads back as itself.
pub proof fn lemma_rebase<V: AssociateMergeable>(
    key: Seq<u8>,
    base: Option<Seq<u8>>,
    ops1: Seq<Seq<u8>>,
    ops2: Seq<Seq<u8>>,
)
    requires
        match reduce::<V>(key, base, ops1) {
            Some(v) => V::decode_spec(V::encode_value(v)) == Some(v),
            None => true,
        },
    ensures
        reduce::<V>(
            key,
            match reduce::<V>(key, base, ops1) {
                Some(v) => Some(V::encode_value(v)),
                None => None,
            },
            ops2,
        ) == reduce::<V>(key, base, ops1 + ops2),
{
    let start = match base {
        Some(b) => decode_operand::<V>(key, b),
        None => None,
    };
    lemma_fold_concat::<V>(key, start, ops1, ops2);
}

} // verus!
