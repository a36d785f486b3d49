//! Facts about filtered sequences that the other modules share.

use vstd::prelude::*;

verus! {

/// Filtering a sequence with one more item keeps that item or not, and the
/// rest as before.
pub proof fn lemma_filter_push<A>(s: Seq<A>, a: A, keep: spec_fn(A) -> bool)
    ensures
        s.push(a).filter(keep) == if keep(a) {
            s.filter(keep).push(a)
        } else {
            s.filter(keep)
        },
{
    reveal(Seq::filter);
    assert(s.push(a).drop_last() =~= s);
}

/// A filter that refuses every item leaves nothing.
pub proof fn lemma_filter_none<A>(s: Seq<A>, keep: spec_fn(A) -> bool)
    requires
        forall|i: int| 0 <= i < s.len() ==> !keep(#[trigger] s[i]),
    ensures
        s.filter(keep) == Seq::<A>::empty(),
{
    let out = s.filter(keep);
    if out.len() > 0 {
        s.lemma_filter_pred(keep, 0);
        assert(out.contains(out[0]));
        s.lemma_filter_contains_rev(keep, out[0]);
    }
    assert(out =~= Seq::<A>::empty());
}

/// A filter that accepts every item leaves the sequence as it is.
pub proof fn lemma_filter_all<A>(s: Seq<A>, keep: spec_fn(A) -> bool)
    requires
        forall|i: int| 0 <= i < s.len() ==> keep(#[trigger] s[i]),
    ensures
        s.filter(keep) == s,
    decreases s.len(),
{
    if s.len() == 0 {
        s.lemma_filter_len(keep);
        assert(s.filter(keep) =~= s);
    } else {
        lemma_filter_all(s.drop_last(), keep);
        lemma_filter_push(s.drop_last(), s.last(), keep);
        assert(s.drop_last().push(s.last()) =~= s);
    }
}

} // verus!
