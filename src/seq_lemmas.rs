//! Facts about filtering sequences.

use vstd::prelude::*;

verus! {

/// One step of filtering a sequence from the front.
pub proof fn lemma_filter_step<A>(s: Seq<A>, i: int, pred: spec_fn(A) -> bool)
    requires
        0 <= i < s.len(),
    ensures
        s.take(i + 1).filter(pred) == if pred(s[i]) {
            s.take(i).filter(pred).push(s[i])
        } else {
            s.take(i).filter(pred)
        },
{
    reveal(Seq::filter);
    assert(s.take(i + 1).drop_last() =~= s.take(i));
}

/// Every element of a filtered sequence comes from the sequence and passes the test.
pub proof fn lemma_filter_members<A>(s: Seq<A>, pred: spec_fn(A) -> bool)
    ensures
        forall|i: int|
            0 <= i < s.filter(pred).len() ==> exists|j: int|
                0 <= j < s.len() && #[trigger] s.filter(pred)[i] == s[j] && pred(s[j]),
    decreases s.len(),
{
    reveal(Seq::filter);
    if s.len() > 0 {
        let d = s.drop_last();
        lemma_filter_members(d, pred);
        assert forall|i: int| 0 <= i < s.filter(pred).len() implies exists|j: int|
            0 <= j < s.len() && #[trigger] s.filter(pred)[i] == s[j] && pred(s[j]) by {
            if i < d.filter(pred).len() {
                let j = choose|j: int| 0 <= j < d.len() && #[trigger] d.filter(pred)[i] == d[j] && pred(d[j]);
                assert(s[j] == d[j]);
            } else {
                assert(s.filter(pred)[i] == s[s.len() - 1]);
            }
        }
    }
}

/// Filtering keeps a relation that holds between every earlier and later element.
pub proof fn lemma_filter_pairwise<A>(s: Seq<A>, pred: spec_fn(A) -> bool, rel: spec_fn(A, A) -> bool)
    requires
        forall|i: int, j: int| 0 <= i < j < s.len() ==> rel(s[i], s[j]),
    ensures
        forall|i: int, j: int|
            0 <= i < j < s.filter(pred).len() ==> rel(s.filter(pred)[i], s.filter(pred)[j]),
    decreases s.len(),
{
    reveal(Seq::filter);
    if s.len() > 0 {
        let d = s.drop_last();
        let f = s.filter(pred);
        let fd = d.filter(pred);
        lemma_filter_pairwise(d, pred, rel);
        lemma_filter_members(d, pred);
        assert forall|i: int, j: int| 0 <= i < j < f.len() implies rel(f[i], f[j]) by {
            if j < fd.len() {
                assert(f[i] == fd[i] && f[j] == fd[j]);
            } else {
                let k = choose|k: int| 0 <= k < d.len() && #[trigger] fd[i] == d[k] && pred(d[k]);
                assert(f[i] == s[k]);
                assert(f[j] == s[s.len() - 1]);
            }
        }
    }
}

/// A longer prefix keeps at least as many elements through a filter.
pub proof fn lemma_filter_prefix_len<A>(s: Seq<A>, i: int, j: int, pred: spec_fn(A) -> bool)
    requires
        0 <= i <= j <= s.len(),
    ensures
        s.take(i).filter(pred).len() <= s.take(j).filter(pred).len(),
    decreases j - i,
{
    if i < j {
        lemma_filter_step(s, i, pred);
        lemma_filter_prefix_len(s, i + 1, j, pred);
    }
}

/// Filtering a sequence whose first `n` elements pass and whose others fail
/// keeps exactly the first `n`.
pub proof fn lemma_filter_keeps_prefix<A>(s: Seq<A>, n: int, pred: spec_fn(A) -> bool)
    requires
        0 <= n <= s.len(),
        forall|i: int| 0 <= i < n ==> pred(#[trigger] s[i]),
        forall|i: int| n <= i < s.len() ==> !pred(#[trigger] s[i]),
    ensures
        s.filter(pred) == s.take(n),
    decreases s.len(),
{
    reveal(Seq::filter);
    if s.len() > 0 {
        let d = s.drop_last();
        if n == s.len() {
            lemma_filter_keeps_prefix(d, n - 1, pred);
            assert(d.take(n - 1).push(s.last()) =~= s.take(n));
        } else {
            lemma_filter_keeps_prefix(d, n, pred);
            assert(d.take(n) =~= s.take(n));
        }
    } else {
        assert(s.take(n) =~= s);
    }
}

} // verus!
