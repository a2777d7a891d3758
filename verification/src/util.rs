//! Small general facts about sequences that several proofs lean on.
use vstd::prelude::*;

verus! {

/// Pushing extends the set of members by exactly the pushed value.
pub proof fn lemma_contains_push<T>(s: Seq<T>, x: T)
    ensures
        forall|m: T| #[trigger] s.push(x).contains(m) <==> s.contains(m) || m == x,
{
    assert forall|m: T| #[trigger] s.push(x).contains(m) implies s.contains(m) || m == x by {
        let k = choose|k: int| 0 <= k < s.push(x).len() && s.push(x)[k] == m;
        if k < s.len() {
            assert(s[k] == m);
        }
    }
    assert forall|m: T| s.contains(m) || m == x implies #[trigger] s.push(x).contains(m) by {
        if m == x {
            assert(s.push(x)[s.len() as int] == m);
        } else {
            let k = choose|k: int| 0 <= k < s.len() && s[k] == m;
            assert(s.push(x)[k] == m);
        }
    }
}

/// Filtering keeps only members of the original that satisfy the test.
pub proof fn lemma_filter_members<T>(s: Seq<T>, pred: spec_fn(T) -> bool)
    ensures
        forall|x: T| #[trigger] s.filter(pred).contains(x) ==> s.contains(x) && pred(x),
    decreases s.len(),
{
    reveal_with_fuel(Seq::filter, 2);
    if s.len() > 0 {
        lemma_filter_members(s.drop_last(), pred);
        assert forall|x: T| #[trigger] s.filter(pred).contains(x) implies s.contains(x) && pred(
            x,
        ) by {
            if pred(s.last()) {
                lemma_contains_push(s.drop_last().filter(pred), s.last());
                if x == s.last() {
                    assert(s[s.len() - 1] == x);
                } else {
                    assert(s.drop_last().filter(pred).contains(x));
                    let k = choose|k: int|
                        0 <= k < s.drop_last().len() && s.drop_last()[k] == x;
                    assert(s[k] == x);
                }
            } else {
                assert(s.drop_last().filter(pred).contains(x));
                let k = choose|k: int| 0 <= k < s.drop_last().len() && s.drop_last()[k] == x;
                assert(s[k] == x);
            }
        }
    }
}

/// Filtering a sequence of pairwise distinct entries leaves its entries
/// pairwise distinct.
pub proof fn lemma_filter_no_dup<T>(s: Seq<T>, pred: spec_fn(T) -> bool)
    requires
        forall|i: int, j: int| 0 <= i < j < s.len() ==> s[i] != s[j],
    ensures
        forall|i: int, j: int|
            0 <= i < j < s.filter(pred).len() ==> s.filter(pred)[i] != s.filter(pred)[j],
    decreases s.len(),
{
    reveal_with_fuel(Seq::filter, 2);
    if s.len() > 0 {
        lemma_filter_no_dup(s.drop_last(), pred);
        lemma_filter_members(s.drop_last(), pred);
        let fd = s.drop_last().filter(pred);
        if pred(s.last()) {
            assert(s.filter(pred) == fd.push(s.last()));
            assert forall|i: int, j: int| 0 <= i < j < s.filter(pred).len() implies s.filter(
                pred,
            )[i] != s.filter(pred)[j] by {
                if j < fd.len() {
                    assert(s.filter(pred)[i] == fd[i] && s.filter(pred)[j] == fd[j]);
                } else {
                    assert(s.filter(pred)[j] == s.last());
                    assert(s.filter(pred)[i] == fd[i]);
                    assert(fd.contains(fd[i]));
                    assert(s.drop_last().contains(fd[i]));
                    let w = choose|w: int|
                        0 <= w < s.drop_last().len() && s.drop_last()[w] == fd[i];
                    assert(s[w] == fd[i]);
                    assert(s[w] != s[s.len() - 1]);
                }
            }
        } else {
            assert(s.filter(pred) == fd);
        }
    }
}

} // verus!
