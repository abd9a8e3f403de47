//! Ranking scored candidates: best first, ties in the order of the input.

use crate::score::{
    better_than_transitive,
    not_better_than_transitive,
    Score,
    ScoreValue,
};
use vstd::prelude::*;

verus! {

/// The mathematical values of a list of scores.
pub open spec fn values(scores: Seq<Score>) -> Seq<ScoreValue> {
    Seq::new(scores.len(), |i: int| scores[i]@)
}

/// Every score of the list is a well-formed one.
pub open spec fn all_wf(scores: Seq<ScoreValue>) -> bool {
    forall|i: int| 0 <= i < scores.len() ==> (#[trigger] scores[i]).wf()
}

/// Candidate `i` ranks before candidate `j`: its score is better, or the
/// scores tie and it comes earlier in the input.
pub open spec fn ranks_before(scores: Seq<ScoreValue>, i: int, j: int) -> bool {
    scores[i].better_than(scores[j]) || (!scores[j].better_than(scores[i]) && i < j)
}

/// Candidate `j` is one of those listed in `order`.
pub open spec fn listed(order: Seq<usize>, j: int) -> bool {
    exists|p: int| 0 <= p < order.len() && #[trigger] order[p] == j
}

/// `order` lists the best `n` of the first `seen` candidates (all of them
/// when there are no more than `n`), best first, and whatever is left out
/// ranks after everything listed.
pub open spec fn is_ranking(scores: Seq<ScoreValue>, order: Seq<usize>, seen: int, n: int) -> bool {
    &&& order.len() == if seen <= n {
        seen
    } else {
        n
    }
    &&& forall|p: int| 0 <= p < order.len() ==> 0 <= #[trigger] order[p] < seen
    &&& forall|p: int, q: int|
        0 <= p < q < order.len() ==> #[trigger] ranks_before(
            scores,
            order[p] as int,
            order[q] as int,
        )
    &&& forall|j: int, p: int|
        0 <= j < seen && !listed(order, j) && 0 <= p < order.len() ==> #[trigger] ranks_before(
            scores,
            order[p] as int,
            j,
        )
    &&& seen <= n ==> forall|j: int| 0 <= j < seen ==> #[trigger] listed(order, j)
}

/// `order` lists the best `n` of all candidates, best first, ties in the
/// order of the input.
pub open spec fn is_top_ranking(scores: Seq<ScoreValue>, order: Seq<usize>, n: int) -> bool {
    is_ranking(scores, order, scores.len() as int, n)
}

/// Of two different candidates exactly one ranks before the other.
pub proof fn ranks_before_total(scores: Seq<ScoreValue>, i: int, j: int)
    requires
        i != j,
    ensures
        ranks_before(scores, i, j) != ranks_before(scores, j, i),
{
}

/// Ranking before is transitive.
pub proof fn ranks_before_transitive(scores: Seq<ScoreValue>, i: int, j: int, k: int)
    requires
        all_wf(scores),
        0 <= i < scores.len(),
        0 <= j < scores.len(),
        0 <= k < scores.len(),
        ranks_before(scores, i, j),
        ranks_before(scores, j, k),
    ensures
        ranks_before(scores, i, k),
{
    let x = scores[i];
    let y = scores[j];
    let z = scores[k];
    if x.better_than(y) && y.better_than(z) {
        better_than_transitive(x, y, z);
    } else if x.better_than(y) {
        if !x.better_than(z) {
            not_better_than_transitive(x, z, y);
        }
    } else if y.better_than(z) {
        if !x.better_than(z) {
            not_better_than_transitive(y, x, z);
        }
    } else {
        not_better_than_transitive(z, y, x);
    }
}

/// Where two rankings of the same scores agree up to position `p` and
/// differ there, the entry of the first ranks before that of the second.
proof fn lemma_ranks_ahead(
    scores: Seq<ScoreValue>,
    first: Seq<usize>,
    second: Seq<usize>,
    n: int,
    p: int,
)
    requires
        is_top_ranking(scores, first, n),
        is_top_ranking(scores, second, n),
        0 <= p < first.len(),
        forall|q: int| 0 <= q < p ==> first[q] == second[q],
        first[p] != second[p],
    ensures
        ranks_before(scores, first[p] as int, second[p] as int),
{
    let v = second[p] as int;
    if listed(first, v) {
        let q = choose|q: int| 0 <= q < first.len() && first[q] == v;
        if q < p {
            assert(ranks_before(scores, second[q] as int, second[p] as int));
        } else {
            assert(ranks_before(scores, first[p] as int, first[q] as int));
        }
    } else {
        assert(ranks_before(scores, first[p] as int, v));
    }
}

/// Two rankings of the same scores agree on their first `upto` entries.
proof fn lemma_rankings_agree(
    scores: Seq<ScoreValue>,
    first: Seq<usize>,
    second: Seq<usize>,
    n: int,
    upto: int,
)
    requires
        is_top_ranking(scores, first, n),
        is_top_ranking(scores, second, n),
        0 <= upto <= first.len(),
    ensures
        forall|q: int| 0 <= q < upto ==> first[q] == second[q],
    decreases upto,
{
    if upto > 0 {
        lemma_rankings_agree(scores, first, second, n, upto - 1);
        let p = upto - 1;
        if first[p] != second[p] {
            lemma_ranks_ahead(scores, first, second, n, p);
            lemma_ranks_ahead(scores, second, first, n, p);
            ranks_before_total(scores, first[p] as int, second[p] as int);
        }
    }
}

/// There is one ranking only: two lists that both hold the best `n` of the
/// same scores, best first and ties in input order, are the same list.
pub proof fn top_ranking_unique(
    scores: Seq<ScoreValue>,
    first: Seq<usize>,
    second: Seq<usize>,
    n: int,
)
    requires
        is_top_ranking(scores, first, n),
        is_top_ranking(scores, second, n),
    ensures
        first == second,
{
    lemma_rankings_agree(scores, first, second, n, first.len() as int);
    assert(first =~= second);
}

/// A ranking of at least as many as there are candidates lists them all.
pub proof fn full_ranking_lists_all(scores: Seq<ScoreValue>, order: Seq<usize>, n: int)
    requires
        is_top_ranking(scores, order, n),
        n >= scores.len(),
    ensures
        order.len() == scores.len(),
        forall|j: int| 0 <= j < scores.len() ==> #[trigger] listed(order, j),
{
}

/// The list after candidate `x` has been put at slot `p`, and the last
/// entry dropped where the list would outgrow `n`.
pub open spec fn with_candidate(order: Seq<usize>, x: usize, p: int, n: int) -> Seq<usize> {
    if p < n {
        let longer = order.insert(p, x);
        if longer.len() > n {
            longer.subrange(0, longer.len() - 1)
        } else {
            longer
        }
    } else {
        order
    }
}

/// `p` is where candidate `x` belongs in `order`: after every entry that
/// it does not beat, before every entry that it beats.
pub open spec fn is_slot(scores: Seq<ScoreValue>, order: Seq<usize>, x: int, p: int) -> bool {
    &&& 0 <= p <= order.len()
    &&& forall|q: int|
        p <= q < order.len() ==> scores[x].better_than(#[trigger] scores[order[q] as int])
    &&& p > 0 ==> !scores[x].better_than(scores[order[p - 1] as int])
}

/// Every entry before the slot of `x` ranks before `x`.
proof fn lemma_before_slot(
    scores: Seq<ScoreValue>,
    order: Seq<usize>,
    x: int,
    p: int,
    n: int,
    q: int,
)
    requires
        all_wf(scores),
        0 <= x < scores.len(),
        is_ranking(scores, order, x, n),
        is_slot(scores, order, x, p),
        0 <= q < p,
    ensures
        ranks_before(scores, order[q] as int, x),
{
    let last = order[p - 1] as int;
    assert(ranks_before(scores, last, x));
    if q < p - 1 {
        assert(ranks_before(scores, order[q] as int, order[p - 1] as int));
        ranks_before_transitive(scores, order[q] as int, last, x);
    }
}

/// A candidate that enters the list ranks before every candidate left out
/// so far.
proof fn lemma_before_left_out(
    scores: Seq<ScoreValue>,
    order: Seq<usize>,
    x: int,
    p: int,
    n: int,
    j: int,
)
    requires
        all_wf(scores),
        0 <= x < scores.len(),
        is_ranking(scores, order, x, n),
        is_slot(scores, order, x, p),
        p < n,
        0 <= j < x,
        !listed(order, j),
    ensures
        ranks_before(scores, x, j),
{
    assert(x > n);
    let tail = order.len() - 1;
    let last = order[tail] as int;
    assert(scores[x].better_than(scores[order[tail] as int]));
    assert(ranks_before(scores, x, last));
    assert(ranks_before(scores, order[tail] as int, j));
    ranks_before_transitive(scores, x, last, j);
}

/// Putting the next candidate at its slot keeps the list a ranking.
proof fn lemma_ranking_step(scores: Seq<ScoreValue>, order: Seq<usize>, x: usize, p: int, n: int)
    requires
        all_wf(scores),
        0 <= x < scores.len(),
        0 <= n,
        is_ranking(scores, order, x as int, n),
        is_slot(scores, order, x as int, p),
    ensures
        is_ranking(scores, with_candidate(order, x, p, n), x + 1, n),
{
    let next = with_candidate(order, x, p, n);
    let len = order.len() as int;
    if p < n {
        let longer = order.insert(p, x);
        order.insert_ensures(p, x);
        assert forall|q: int| p < q <= len implies #[trigger] longer[q] == order[q - 1] by {
            assert(longer[(q - 1) + 1] == order[q - 1]);
        }
        assert forall|a: int, b: int| 0 <= a < b < longer.len() implies #[trigger] ranks_before(
            scores,
            longer[a] as int,
            longer[b] as int,
        ) by {
            if b < p {
                assert(ranks_before(scores, order[a] as int, order[b] as int));
            } else if b == p {
                lemma_before_slot(scores, order, x as int, p, n, a);
            } else if a == p {
                assert(scores[x as int].better_than(scores[order[b - 1] as int]));
            } else if a < p {
                assert(ranks_before(scores, order[a] as int, order[b - 1] as int));
            } else {
                assert(ranks_before(scores, order[a - 1] as int, order[b - 1] as int));
            }
        }
        assert forall|j: int| listed(order, j) implies listed(longer, j) by {
            let r = choose|r: int| 0 <= r < order.len() && order[r] == j;
            if r < p {
                assert(longer[r] == j);
            } else {
                assert(longer[r + 1] == j);
            }
        }
        assert(longer[p] == x);
        assert(listed(longer, x as int));
        assert forall|j: int, a: int|
            0 <= j < x + 1 && !listed(longer, j) && 0 <= a < longer.len() implies #[trigger] ranks_before(
            scores,
            longer[a] as int,
            j,
        ) by {
            assert(!listed(order, j));
            if a < p {
                assert(ranks_before(scores, order[a] as int, j));
            } else if a == p {
                lemma_before_left_out(scores, order, x as int, p, n, j);
            } else {
                assert(ranks_before(scores, order[a - 1] as int, j));
            }
        }
        if longer.len() > n {
            assert(len == n);
            assert forall|q: int| 0 <= q < next.len() implies next[q] == longer[q] by {}
            assert forall|a: int, b: int| 0 <= a < b < next.len() implies #[trigger] ranks_before(
                scores,
                next[a] as int,
                next[b] as int,
            ) by {
                assert(ranks_before(scores, longer[a] as int, longer[b] as int));
            }
            assert forall|j: int, a: int|
                0 <= j < x + 1 && !listed(next, j) && 0 <= a < next.len() implies #[trigger] ranks_before(
                scores,
                next[a] as int,
                j,
            ) by {
                if listed(longer, j) {
                    let r = choose|r: int| 0 <= r < longer.len() && longer[r] == j;
                    if r < next.len() {
                        assert(next[r] == j);
                    }
                    assert(r == n);
                    assert(ranks_before(scores, longer[a] as int, longer[n] as int));
                } else {
                    assert(ranks_before(scores, longer[a] as int, j));
                }
            }
            assert forall|q: int| 0 <= q < next.len() implies 0 <= #[trigger] next[q] < x + 1 by {
                assert(next[q] == longer[q]);
            }
        } else {
            assert(next == longer);
            if x + 1 <= n {
                assert forall|j: int| 0 <= j < x + 1 implies #[trigger] listed(next, j) by {
                    if j < x {
                        assert(listed(order, j));
                    }
                }
            }
        }
    } else {
        assert(len == n && p == n);
        assert forall|j: int, a: int|
            0 <= j < x + 1 && !listed(next, j) && 0 <= a < next.len() implies #[trigger] ranks_before(
            scores,
            next[a] as int,
            j,
        ) by {
            if j == x {
                lemma_before_slot(scores, order, x as int, p, n, a);
            } else {
                assert(ranks_before(scores, order[a] as int, j));
            }
        }
    }
}

/// Finds where candidate `x` belongs among the candidates ranked so far.
fn find_slot(scores: &Vec<Score>, order: &Vec<usize>, x: usize) -> (p: usize)
    requires
        x < scores.len(),
        forall|q: int| 0 <= q < order.len() ==> #[trigger] order[q] < scores.len(),
    ensures
        is_slot(values(scores@), order@, x as int, p as int),
{
    let mut p: usize = order.len();
    while p > 0 && scores[x].is_better_than(&scores[order[p - 1]])
        invariant
            p <= order.len(),
            x < scores.len(),
            forall|q: int| 0 <= q < order.len() ==> #[trigger] order[q] < scores.len(),
            forall|q: int|
                p <= q < order.len() ==> values(scores@)[x as int].better_than(
                    #[trigger] values(scores@)[order[q] as int],
                ),
        decreases p,
    {
        p -= 1;
    }
    p
}

/// The indices of the best `n` scores, best first; scores that tie keep
/// the order in which they stand in `scores`.
pub fn rank(scores: &Vec<Score>, n: usize) -> (order: Vec<usize>)
    requires
        all_wf(values(scores@)),
    ensures
        is_top_ranking(values(scores@), order@, n as int),
{
    let mut order: Vec<usize> = Vec::new();
    let mut i: usize = 0;
    while i < scores.len()
        invariant
            i <= scores.len(),
            all_wf(values(scores@)),
            is_ranking(values(scores@), order@, i as int, n as int),
        decreases scores.len() - i,
    {
        let p = find_slot(scores, &order, i);
        proof {
            lemma_ranking_step(values(scores@), order@, i, p as int, n as int);
        }
        if p < n {
            order.insert(p, i);
            if order.len() > n {
                order.pop();
            }
        }
        i += 1;
    }
    order
}

} // verus!
