//! Small reusable facts about sequences, used by the retain-style loops that
//! implement cascading deletion.

use vstd::prelude::*;

verus! {

/// Filtering a sequence extended by one element keeps the element exactly
/// when it satisfies the predicate.
pub proof fn lemma_filter_push<A>(s: Seq<A>, x: A, p: spec_fn(A) -> bool)
    ensures
        s.push(x).filter(p) == if p(x) {
            s.filter(p).push(x)
        } else {
            s.filter(p)
        },
{
    reveal(Seq::filter);
    assert(s.push(x).drop_last() =~= s);
    assert(s.push(x).last() == x);
}

/// A pairwise relation over the distinct positions of a sequence survives
/// filtering.
pub proof fn lemma_filter_pairwise<A>(s: Seq<A>, p: spec_fn(A) -> bool, r: spec_fn(A, A) -> bool)
    requires
        forall|i: int, j: int|
            0 <= i < s.len() && 0 <= j < s.len() && i != j ==> #[trigger] r(s[i], s[j]),
    ensures
        forall|i: int, j: int|
            0 <= i < s.filter(p).len() && 0 <= j < s.filter(p).len() && i != j ==> #[trigger] r(
                s.filter(p)[i],
                s.filter(p)[j],
            ),
    decreases s.len(),
{
    reveal(Seq::filter);
    if s.len() > 0 {
        let rest = s.drop_last();
        let last = s.last();
        assert forall|i: int, j: int|
            0 <= i < rest.len() && 0 <= j < rest.len() && i != j implies #[trigger] r(
            rest[i],
            rest[j],
        ) by {
            assert(rest[i] == s[i] && rest[j] == s[j]);
        }
        lemma_filter_pairwise(rest, p, r);
        let t = s.filter(p);
        let rt = rest.filter(p);
        if p(last) {
            assert(t == rt.push(last));
            assert forall|i: int, j: int|
                0 <= i < t.len() && 0 <= j < t.len() && i != j implies #[trigger] r(
                t[i],
                t[j],
            ) by {
                if i < rt.len() && j < rt.len() {
                    assert(t[i] == rt[i] && t[j] == rt[j]);
                } else if j == rt.len() {
                    assert(t[i] == rt[i] && t[j] == last);
                    assert(rt.contains(rt[i]));
                    rest.lemma_filter_contains_rev(p, rt[i]);
                    let k = choose|k: int| 0 <= k < rest.len() && rest[k] == rt[i];
                    assert(rest[k] == s[k]);
                    assert(r(s[k], s[s.len() - 1]));
                } else {
                    assert(t[j] == rt[j] && t[i] == last);
                    assert(rt.contains(rt[j]));
                    rest.lemma_filter_contains_rev(p, rt[j]);
                    let k = choose|k: int| 0 <= k < rest.len() && rest[k] == rt[j];
                    assert(rest[k] == s[k]);
                    assert(r(s[s.len() - 1], s[k]));
                }
            }
        } else {
            assert(t == rt);
        }
    }
}

/// A prefix one longer is the prefix extended by the next element.
pub proof fn lemma_take_succ<A>(s: Seq<A>, i: int)
    requires
        0 <= i < s.len(),
    ensures
        s.take(i + 1) =~= s.take(i).push(s[i]),
{
}

} // verus!
