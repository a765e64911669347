//! Small general lemmas about `Seq::filter` that the space builder's loop
//! invariants step through.

use vstd::prelude::*;

verus! {

/// Extending the filtered prefix of a sequence by one element.
pub proof fn lemma_filter_take_step<A>(s: Seq<A>, pred: spec_fn(A) -> bool, k: int)
    requires
        0 <= k < s.len(),
    ensures
        s.take(k + 1).filter(pred) == if pred(s[k]) {
            s.take(k).filter(pred).push(s[k])
        } else {
            s.take(k).filter(pred)
        },
{
    reveal(Seq::filter);
    let t = s.take(k + 1);
    assert(t.drop_last() =~= s.take(k));
    assert(t.last() == s[k]);
}

/// Taking the whole sequence is the identity.
pub proof fn lemma_take_all<A>(s: Seq<A>)
    ensures
        s.take(s.len() as int) == s,
{
    assert(s.take(s.len() as int) =~= s);
}

/// Every element of a filtered sequence is an element of the sequence.
pub proof fn lemma_filter_is_subset<A>(s: Seq<A>, pred: spec_fn(A) -> bool)
    ensures
        forall|i: int|
            0 <= i < s.filter(pred).len() ==> s.contains(#[trigger] s.filter(pred)[i]),
    decreases s.len(),
{
    reveal(Seq::filter);
    if s.len() > 0 {
        let d = s.drop_last();
        lemma_filter_is_subset(d, pred);
        assert forall|i: int| 0 <= i < s.filter(pred).len() implies s.contains(
            #[trigger] s.filter(pred)[i],
        ) by {
            if i < d.filter(pred).len() {
                assert(s.filter(pred)[i] == d.filter(pred)[i]);
                assert(d.contains(d.filter(pred)[i]));
                let j = choose|j: int| 0 <= j < d.len() && d[j] == d.filter(pred)[i];
                assert(s[j] == d[j]);
            } else {
                assert(s.filter(pred)[i] == s.last());
                assert(s[s.len() - 1] == s.last());
            }
        }
    }
}

/// A filter that rejects at least one element strictly shrinks the sequence.
pub proof fn lemma_filter_shorter<A>(s: Seq<A>, pred: spec_fn(A) -> bool, i: int)
    requires
        0 <= i < s.len(),
        !pred(s[i]),
    ensures
        s.filter(pred).len() < s.len(),
    decreases s.len(),
{
    reveal(Seq::filter);
    broadcast use vstd::seq_lib::group_filter_ensures;

    let d = s.drop_last();
    if i == s.len() - 1 {
        assert(s.filter(pred) == d.filter(pred));
        assert(d.filter(pred).len() <= d.len());
    } else {
        assert(d[i] == s[i]);
        lemma_filter_shorter(d, pred, i);
    }
}

/// Filtering twice is filtering by the conjunction.
pub proof fn lemma_filter_filter<A>(
    s: Seq<A>,
    p: spec_fn(A) -> bool,
    q: spec_fn(A) -> bool,
    r: spec_fn(A) -> bool,
)
    requires
        forall|x: A| #[trigger] r(x) == (p(x) && q(x)),
    ensures
        s.filter(p).filter(q) == s.filter(r),
    decreases s.len(),
{
    reveal(Seq::filter);
    if s.len() == 0 {
        assert(s.filter(p).len() == 0);
    } else {
        let d = s.drop_last();
        let a = s.last();
        lemma_filter_filter(d, p, q, r);
        if p(a) {
            let fp = d.filter(p).push(a);
            assert(s.filter(p) == fp);
            assert(fp.drop_last() =~= d.filter(p));
            assert(fp.last() == a);
            assert(fp.filter(q) == if q(a) {
                d.filter(p).filter(q).push(a)
            } else {
                d.filter(p).filter(q)
            });
        }
    }
}

/// Filtering a single element keeps or drops it.
pub proof fn lemma_filter_single<A>(x: A, pred: spec_fn(A) -> bool)
    ensures
        seq![x].filter(pred) == if pred(x) {
            seq![x]
        } else {
            Seq::<A>::empty()
        },
{
    reveal(Seq::filter);
    assert(seq![x].drop_last() =~= Seq::<A>::empty());
    assert(Seq::<A>::empty().filter(pred) =~= Seq::<A>::empty());
    if pred(x) {
        assert(seq![x].filter(pred) =~= seq![x]);
    }
}

/// An empty filter result means no element satisfies the predicate.
pub proof fn lemma_filter_all_rejected<A>(s: Seq<A>, pred: spec_fn(A) -> bool)
    requires
        s.filter(pred).len() == 0,
    ensures
        forall|i: int| 0 <= i < s.len() ==> !pred(#[trigger] s[i]),
{
    broadcast use vstd::seq_lib::group_filter_ensures;

    assert forall|i: int| 0 <= i < s.len() implies !pred(#[trigger] s[i]) by {
        if pred(s[i]) {
            assert(s.filter(pred).contains(s[i]));
        }
    }
}

} // verus!
