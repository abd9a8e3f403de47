//! Jaro and Jaro-Winkler similarity, as exact fractions.
//!
//! Characters of the two strings are matched greedily inside a sliding
//! window; the score combines the number of matches with the number of
//! matched characters that stand in a different order.

use crate::hamming::{count_mismatches, mismatches, mismatches_upper_bound};
use crate::natural::Natural;
use crate::score::{Ratio, Similarity};
use crate::text::to_chars;
use vstd::prelude::*;

verus! {

/// The longest common prefix that Jaro-Winkler rewards.
pub const MAX_PREFIX_LEN: usize = 4;

/// How far from its own position a character may find its match.
pub open spec fn match_window(la: nat, lb: nat) -> nat {
    let longer = if la >= lb {
        la
    } else {
        lb
    };
    if longer >= 2 {
        (longer / 2 - 1) as nat
    } else {
        0
    }
}

/// First position of the window of `b` around `i`.
pub open spec fn window_start(i: nat, w: nat) -> nat {
    if i > w {
        (i - w) as nat
    } else {
        0
    }
}

/// One past the last position of the window of `b` around `i`.
pub open spec fn window_end(i: nat, w: nat, lb: nat) -> nat {
    if i + w + 1 < lb {
        i + w + 1
    } else {
        lb
    }
}

/// The first position in `lo..hi` that holds `c` in `b` and is not yet
/// matched, if there is one.
pub open spec fn first_free(c: char, b: Seq<char>, used: Seq<bool>, lo: int, hi: int) -> Option<
    int,
>
    decreases hi - lo,
{
    if lo >= hi {
        None
    } else if !used[lo] && b[lo] == c {
        Some(lo)
    } else {
        first_free(c, b, used, lo + 1, hi)
    }
}

/// Which characters of the two strings have found a partner.
pub struct Matching {
    pub a_used: Seq<bool>,
    pub b_used: Seq<bool>,
}

/// The matching after the first `i` characters of `a` have each looked for
/// a partner, in order: a character takes the first free equal character
/// of `b` inside its window.
pub open spec fn matching(a: Seq<char>, b: Seq<char>, i: nat) -> Matching
    decreases i,
{
    if i == 0 {
        Matching { a_used: Seq::empty(), b_used: Seq::new(b.len(), |k: int| false) }
    } else {
        let before = matching(a, b, (i - 1) as nat);
        let k = (i - 1) as nat;
        let w = match_window(a.len(), b.len());
        match first_free(
            a[k as int],
            b,
            before.b_used,
            window_start(k, w) as int,
            window_end(k, w, b.len()) as int,
        ) {
            Some(j) => Matching {
                a_used: before.a_used.push(true),
                b_used: before.b_used.update(j, true),
            },
            None => Matching { a_used: before.a_used.push(false), b_used: before.b_used },
        }
    }
}

/// The characters of `s` that are marked in `used`, in their order.
pub open spec fn picked(s: Seq<char>, used: Seq<bool>) -> Seq<char>
    recommends
        s.len() == used.len(),
    decreases s.len(),
{
    if s.len() == 0 || used.len() == 0 {
        Seq::empty()
    } else {
        let rest = picked(s.drop_last(), used.drop_last());
        if used.last() {
            rest.push(s.last())
        } else {
            rest
        }
    }
}

/// The matched characters of `a`, in the order of `a`.
pub open spec fn matched_of_first(a: Seq<char>, b: Seq<char>) -> Seq<char> {
    picked(a, matching(a, b, a.len()).a_used)
}

/// The matched characters of `b`, in the order of `b`.
pub open spec fn matched_of_second(a: Seq<char>, b: Seq<char>) -> Seq<char> {
    picked(b, matching(a, b, a.len()).b_used)
}

/// Number of matching characters.
pub open spec fn jaro_matches(a: Seq<char>, b: Seq<char>) -> nat {
    matched_of_first(a, b).len()
}

/// Number of transpositions: half the number of matched characters that
/// differ from the matched character at the same rank in the other string.
pub open spec fn jaro_transpositions(a: Seq<char>, b: Seq<char>) -> nat {
    mismatches(matched_of_first(a, b), matched_of_second(a, b)) / 2
}

/// The Jaro formula `(m/la + m/lb + (m - t)/m) / 3` over one denominator.
/// Two empty strings score one; an empty string against a non-empty one, or
/// no match at all, scores zero.
pub open spec fn jaro_ratio(la: nat, lb: nat, m: nat, t: nat) -> Ratio {
    if la == 0 && lb == 0 {
        Ratio { num: 1, den: 1 }
    } else if la == 0 || lb == 0 || m == 0 {
        Ratio { num: 0, den: 1 }
    } else {
        Ratio {
            num: (m * m * lb + m * m * la + (m - t) * (la * lb)) as nat,
            den: 3 * (la * lb * m),
        }
    }
}

/// Jaro similarity of `a` and `b`.
pub open spec fn jaro(a: Seq<char>, b: Seq<char>) -> Ratio {
    jaro_ratio(a.len(), b.len(), jaro_matches(a, b), jaro_transpositions(a, b))
}

/// Length of the common prefix of `a` and `b` from position `k` on, counted
/// from the start and capped at four characters.
pub open spec fn common_prefix_from(a: Seq<char>, b: Seq<char>, k: nat) -> nat
    decreases 4 - k,
{
    if k < 4 && k < a.len() && k < b.len() && a[k as int] == b[k as int] {
        common_prefix_from(a, b, k + 1)
    } else {
        k
    }
}

/// Length of the common prefix of `a` and `b`, capped at four characters.
pub open spec fn common_prefix(a: Seq<char>, b: Seq<char>) -> nat {
    common_prefix_from(a, b, 0)
}

/// The Winkler boost `j + p * 0.1 * (1 - j)` of a score `j` for a common
/// prefix of `p` characters, over one denominator.
pub open spec fn winkler_ratio(j: Ratio, p: nat) -> Ratio {
    Ratio { num: (10 * j.num + p * (j.den - j.num)) as nat, den: 10 * j.den }
}

/// Jaro-Winkler similarity of `a` and `b`: the boost is applied whatever
/// the Jaro score.
pub open spec fn jaro_winkler(a: Seq<char>, b: Seq<char>) -> Ratio {
    winkler_ratio(jaro(a, b), common_prefix(a, b))
}

/// Jaro-Winkler similarity with a boost threshold: the prefix bonus is
/// applied only where the Jaro similarity is not below `threshold`.
pub open spec fn jaro_winkler_gated(a: Seq<char>, b: Seq<char>, threshold: Ratio) -> Ratio {
    if jaro(a, b).less_than(threshold) {
        winkler_ratio(jaro(a, b), 0)
    } else {
        jaro_winkler(a, b)
    }
}

/// Number of marks in `u`.
pub open spec fn count_true(u: Seq<bool>) -> nat
    decreases u.len(),
{
    if u.len() == 0 {
        0
    } else {
        count_true(u.drop_last()) + if u.last() {
            1nat
        } else {
            0nat
        }
    }
}

/// As many characters are picked as there are marks.
proof fn lemma_picked_len(s: Seq<char>, u: Seq<bool>)
    requires
        s.len() == u.len(),
    ensures
        picked(s, u).len() == count_true(u),
    decreases s.len(),
{
    if s.len() > 0 {
        lemma_picked_len(s.drop_last(), u.drop_last());
    }
}

/// There are no more marks than positions.
proof fn lemma_count_bound(u: Seq<bool>)
    ensures
        count_true(u) <= u.len(),
    decreases u.len(),
{
    if u.len() > 0 {
        lemma_count_bound(u.drop_last());
    }
}

/// Appending a position adds its mark to the count.
proof fn lemma_count_push(u: Seq<bool>, x: bool)
    ensures
        count_true(u.push(x)) == count_true(u) + if x {
            1nat
        } else {
            0nat
        },
{
    assert(u.push(x).drop_last() =~= u);
}

/// Marking a free position adds one to the count.
proof fn lemma_count_mark(u: Seq<bool>, j: int)
    requires
        0 <= j < u.len(),
        !u[j],
    ensures
        count_true(u.update(j, true)) == count_true(u) + 1,
    decreases u.len(),
{
    if j == u.len() - 1 {
        assert(u.update(j, true).drop_last() =~= u.drop_last());
    } else {
        lemma_count_mark(u.drop_last(), j);
        assert(u.update(j, true).drop_last() =~= u.drop_last().update(j, true));
    }
}

/// Nothing is marked at the start.
proof fn lemma_count_unmarked(n: nat)
    ensures
        count_true(Seq::new(n, |k: int| false)) == 0,
    decreases n,
{
    if n > 0 {
        lemma_count_unmarked((n - 1) as nat);
        assert(Seq::new(n, |k: int| false).drop_last() =~= Seq::new(
            (n - 1) as nat,
            |k: int| false,
        ));
    }
}

/// A position that `first_free` finds lies in the window, is free and holds
/// the character looked for.
proof fn lemma_first_free_found(c: char, b: Seq<char>, used: Seq<bool>, lo: int, hi: int)
    requires
        first_free(c, b, used, lo, hi) is Some,
    ensures
        lo <= first_free(c, b, used, lo, hi)->0 < hi,
        !used[first_free(c, b, used, lo, hi)->0],
        b[first_free(c, b, used, lo, hi)->0] == c,
    decreases hi - lo,
{
    if lo < hi && !(!used[lo] && b[lo] == c) {
        lemma_first_free_found(c, b, used, lo + 1, hi);
    }
}

/// At every step both strings have as many matched characters.
proof fn lemma_matching_balanced(a: Seq<char>, b: Seq<char>, i: nat)
    ensures
        matching(a, b, i).a_used.len() == i,
        matching(a, b, i).b_used.len() == b.len(),
        count_true(matching(a, b, i).a_used) == count_true(matching(a, b, i).b_used),
    decreases i,
{
    if i == 0 {
        lemma_count_unmarked(b.len());
    } else {
        let before = matching(a, b, (i - 1) as nat);
        lemma_matching_balanced(a, b, (i - 1) as nat);
        let k = (i - 1) as nat;
        let w = match_window(a.len(), b.len());
        let lo = window_start(k, w) as int;
        let hi = window_end(k, w, b.len()) as int;
        let found = first_free(a[k as int], b, before.b_used, lo, hi);
        if found is Some {
            lemma_first_free_found(a[k as int], b, before.b_used, lo, hi);
            lemma_count_push(before.a_used, true);
            lemma_count_mark(before.b_used, found->0);
        } else {
            lemma_count_push(before.a_used, false);
        }
    }
}

/// Both strings have the same number of matched characters, no more than
/// either has characters, and no more transpositions than matches.
pub proof fn jaro_counts_bounded(a: Seq<char>, b: Seq<char>)
    ensures
        matched_of_first(a, b).len() == matched_of_second(a, b).len(),
        jaro_matches(a, b) <= a.len(),
        jaro_matches(a, b) <= b.len(),
        jaro_transpositions(a, b) <= jaro_matches(a, b),
{
    let m = matching(a, b, a.len());
    lemma_matching_balanced(a, b, a.len());
    lemma_picked_len(a, m.a_used);
    lemma_picked_len(b, m.b_used);
    lemma_count_bound(m.a_used);
    lemma_count_bound(m.b_used);
    mismatches_upper_bound(matched_of_first(a, b), matched_of_second(a, b));
}

/// The Jaro formula yields a fraction between zero and one.
pub proof fn jaro_ratio_in_unit_interval(la: nat, lb: nat, m: nat, t: nat)
    requires
        m <= la,
        m <= lb,
        t <= m,
    ensures
        jaro_ratio(la, lb, m, t).wf(),
{
    if la > 0 && lb > 0 && m > 0 {
        assert(0 < la * lb * m) by (nonlinear_arith)
            requires
                0 < la,
                0 < lb,
                0 < m,
        ;
        assert(m * m * lb <= la * lb * m) by (nonlinear_arith)
            requires
                m <= la,
        ;
        assert(m * m * la <= la * lb * m) by (nonlinear_arith)
            requires
                m <= lb,
        ;
        assert((m - t) * (la * lb) <= la * lb * m) by (nonlinear_arith)
            requires
                0 <= t <= m,
        ;
        assert(0 <= (m - t) * (la * lb)) by (nonlinear_arith)
            requires
                t <= m,
        ;
    }
}

/// The Jaro similarity of any two strings lies between zero and one.
pub proof fn jaro_in_unit_interval(a: Seq<char>, b: Seq<char>)
    ensures
        jaro(a, b).wf(),
{
    jaro_counts_bounded(a, b);
    jaro_ratio_in_unit_interval(
        a.len(),
        b.len(),
        jaro_matches(a, b),
        jaro_transpositions(a, b),
    );
}

/// Where every position of the window before `k` is taken and `k` itself is
/// free and holds the character, the search finds `k`.
proof fn lemma_first_free_skips(c: char, b: Seq<char>, used: Seq<bool>, lo: int, hi: int, k: int)
    requires
        lo <= k < hi,
        forall|j: int| lo <= j < k ==> used[j],
        !used[k],
        b[k] == c,
    ensures
        first_free(c, b, used, lo, hi) == Some(k),
    decreases k - lo,
{
    if lo < k {
        lemma_first_free_skips(c, b, used, lo + 1, hi, k);
    }
}

/// Matched against itself, every character of a string takes its own
/// position.
proof fn lemma_self_matching(a: Seq<char>, i: nat)
    requires
        i <= a.len(),
    ensures
        matching(a, a, i).a_used =~= Seq::new(i, |k: int| true),
        matching(a, a, i).b_used =~= Seq::new(a.len(), |k: int| k < i),
    decreases i,
{
    if i > 0 {
        let k = (i - 1) as nat;
        lemma_self_matching(a, k);
        let before = matching(a, a, k);
        let w = match_window(a.len(), a.len());
        lemma_first_free_skips(
            a[k as int],
            a,
            before.b_used,
            window_start(k, w) as int,
            window_end(k, w, a.len()) as int,
            k as int,
        );
    }
}

/// Where every position is marked, the whole string is picked.
proof fn lemma_picked_all(s: Seq<char>)
    ensures
        picked(s, Seq::new(s.len(), |k: int| true)) == s,
    decreases s.len(),
{
    if s.len() == 0 {
        assert(picked(s, Seq::new(s.len(), |k: int| true)) =~= s);
    } else {
        lemma_picked_all(s.drop_last());
        assert(Seq::new(s.len(), |k: int| true).drop_last() =~= Seq::new(
            s.drop_last().len(),
            |k: int| true,
        ));
        assert(s.drop_last().push(s.last()) =~= s);
    }
}

/// A string is fully similar to itself: its Jaro similarity with itself
/// has the value one.
pub proof fn jaro_of_equal_strings_is_one(a: Seq<char>)
    ensures
        jaro(a, a).same_value(Ratio { num: 1, den: 1 }),
        jaro_winkler(a, a).same_value(Ratio { num: 1, den: 1 }),
{
    let n = a.len();
    lemma_self_matching(a, n);
    lemma_picked_all(a);
    assert(Seq::new(n, |k: int| k < n) =~= Seq::new(n, |k: int| true));
    assert(matched_of_first(a, a) == a);
    assert(matched_of_second(a, a) == a);
    crate::hamming::mismatches_identity(a);
    assert(jaro_matches(a, a) == n);
    assert(jaro_transpositions(a, a) == 0);
    if n > 0 {
        assert(n * n * n + n * n * n + (n - 0) * (n * n) == 3 * (n * n * n)) by (nonlinear_arith);
        assert(jaro(a, a).num == jaro(a, a).den);
    }
    let slack = jaro(a, a).den - jaro(a, a).num;
    assert(common_prefix(a, a) * slack == 0) by (nonlinear_arith)
        requires
            slack == 0,
    ;
}

/// The common prefix that is rewarded has at most four characters.
pub proof fn common_prefix_bounded(a: Seq<char>, b: Seq<char>, k: nat)
    requires
        k <= 4,
    ensures
        k <= common_prefix_from(a, b, k) <= 4,
    decreases 4 - k,
{
    if k < 4 && k < a.len() && k < b.len() && a[k as int] == b[k as int] {
        common_prefix_bounded(a, b, k + 1);
    }
}

/// Boosting a score between zero and one, for a prefix of at most ten
/// characters, gives a score between zero and one that is no smaller.
pub proof fn winkler_ratio_bounds(j: Ratio, p: nat)
    requires
        j.wf(),
        p <= 10,
    ensures
        winkler_ratio(j, p).wf(),
        !winkler_ratio(j, p).less_than(j),
{
    let slack = (j.den - j.num) as nat;
    assert(0 <= p * slack <= 10 * slack) by (nonlinear_arith)
        requires
            p <= 10,
    ;
    assert((10 * j.num + p * slack) * j.den >= j.num * (10 * j.den)) by (nonlinear_arith)
        requires
            0 <= p * slack,
    ;
}

/// The Jaro-Winkler similarity of any two strings lies between zero and one.
pub proof fn jaro_winkler_in_unit_interval(a: Seq<char>, b: Seq<char>)
    ensures
        jaro_winkler(a, b).wf(),
{
    jaro_in_unit_interval(a, b);
    common_prefix_bounded(a, b, 0);
    winkler_ratio_bounds(jaro(a, b), common_prefix(a, b));
}

/// A boost threshold of zero gates nothing.
pub proof fn zero_threshold_gates_nothing(a: Seq<char>, b: Seq<char>)
    ensures
        jaro_winkler_gated(a, b, Ratio { num: 0, den: 1 }) == jaro_winkler(a, b),
{
    assert(0 * jaro(a, b).den == 0) by (nonlinear_arith);
}

/// Whatever the boost threshold, the similarity lies between zero and one
/// and is not below the Jaro similarity.
pub proof fn jaro_winkler_gated_bounds(a: Seq<char>, b: Seq<char>, threshold: Ratio)
    ensures
        jaro_winkler_gated(a, b, threshold).wf(),
        !jaro_winkler_gated(a, b, threshold).less_than(jaro(a, b)),
{
    jaro_in_unit_interval(a, b);
    common_prefix_bounded(a, b, 0);
    winkler_ratio_bounds(jaro(a, b), common_prefix(a, b));
    winkler_ratio_bounds(jaro(a, b), 0);
}

/// The prefix bonus is never negative: the Jaro-Winkler similarity of two
/// strings is at least their Jaro similarity.
pub proof fn jaro_winkler_at_least_jaro(a: Seq<char>, b: Seq<char>)
    ensures
        !jaro_winkler(a, b).less_than(jaro(a, b)),
{
    jaro_in_unit_interval(a, b);
    common_prefix_bounded(a, b, 0);
    winkler_ratio_bounds(jaro(a, b), common_prefix(a, b));
}

/// Looks in `lo..hi` for the first free position of `b` that holds `c`.
fn search_window(c: char, b: &Vec<char>, used: &Vec<bool>, lo: usize, hi: usize) -> (r: Option<
    usize,
>)
    requires
        hi <= b.len(),
        used.len() == b.len(),
    ensures
        r is Some <==> first_free(c, b@, used@, lo as int, hi as int) is Some,
        r matches Some(j) ==> lo <= j < hi && first_free(c, b@, used@, lo as int, hi as int)
            == Some(j as int),
{
    if lo >= hi {
        return None;
    }
    let mut j: usize = lo;
    while j < hi
        invariant
            lo <= j <= hi,
            hi <= b.len(),
            used.len() == b.len(),
            first_free(c, b@, used@, lo as int, hi as int) == first_free(
                c,
                b@,
                used@,
                j as int,
                hi as int,
            ),
        decreases hi - j,
    {
        if !used[j] && b[j] == c {
            return Some(j);
        }
        j += 1;
    }
    None
}

/// Runs the greedy matching and returns the marks of both strings.
fn match_flags(a: &Vec<char>, b: &Vec<char>) -> (r: (Vec<bool>, Vec<bool>))
    ensures
        r.0@ == matching(a@, b@, a@.len()).a_used,
        r.1@ == matching(a@, b@, a@.len()).b_used,
{
    let la = a.len();
    let lb = b.len();
    let longer = if la >= lb {
        la
    } else {
        lb
    };
    let w: usize = if longer >= 2 {
        longer / 2 - 1
    } else {
        0
    };
    let mut b_used: Vec<bool> = Vec::new();
    let mut j: usize = 0;
    while j < lb
        invariant
            j <= lb,
            b_used@ =~= Seq::new(j as nat, |k: int| false),
        decreases lb - j,
    {
        b_used.push(false);
        j += 1;
    }
    let mut a_used: Vec<bool> = Vec::new();
    let mut i: usize = 0;
    while i < la
        invariant
            i <= la,
            la == a.len(),
            lb == b.len(),
            w == match_window(la as nat, lb as nat),
            b_used.len() == lb,
            a_used@ == matching(a@, b@, i as nat).a_used,
            b_used@ == matching(a@, b@, i as nat).b_used,
        decreases la - i,
    {
        let lo: usize = if i > w {
            i - w
        } else {
            0
        };
        let hi: usize = if i < lb && w < lb - i - 1 {
            i + w + 1
        } else {
            lb
        };
        let ghost before = matching(a@, b@, i as nat);
        assert(lo == window_start(i as nat, w as nat));
        assert(hi == window_end(i as nat, w as nat, lb as nat));
        assert(matching(a@, b@, (i + 1) as nat) == match first_free(
            a@[i as int],
            b@,
            before.b_used,
            lo as int,
            hi as int,
        ) {
            Some(j) => Matching {
                a_used: before.a_used.push(true),
                b_used: before.b_used.update(j, true),
            },
            None => Matching { a_used: before.a_used.push(false), b_used: before.b_used },
        });
        match search_window(a[i], b, &b_used, lo, hi) {
            Some(j) => {
                b_used.set(j, true);
                a_used.push(true);
            },
            None => {
                a_used.push(false);
            },
        }
        i += 1;
    }
    (a_used, b_used)
}

/// Collects the marked characters of `s`.
fn pick(s: &Vec<char>, used: &Vec<bool>) -> (r: Vec<char>)
    requires
        s.len() == used.len(),
    ensures
        r@ == picked(s@, used@),
{
    let n = s.len();
    let mut r: Vec<char> = Vec::new();
    let mut i: usize = 0;
    while i < n
        invariant
            i <= n,
            n == s.len(),
            n == used.len(),
            r@ == picked(s@.take(i as int), used@.take(i as int)),
        decreases n - i,
    {
        proof {
            assert(s@.take(i + 1).drop_last() =~= s@.take(i as int));
            assert(used@.take(i + 1).drop_last() =~= used@.take(i as int));
        }
        if used[i] {
            r.push(s[i]);
        }
        i += 1;
    }
    proof {
        assert(s@.take(n as int) =~= s@);
        assert(used@.take(n as int) =~= used@);
    }
    r
}

/// Evaluates the Jaro formula exactly.
fn jaro_fraction(la: usize, lb: usize, m: usize, t: usize) -> (s: Similarity)
    requires
        m <= la,
        m <= lb,
        t <= m,
    ensures
        s@ == jaro_ratio(la as nat, lb as nat, m as nat, t as nat),
        s.wf(),
{
    proof {
        jaro_ratio_in_unit_interval(la as nat, lb as nat, m as nat, t as nat);
    }
    if la == 0 && lb == 0 {
        return Similarity::one();
    }
    if la == 0 || lb == 0 || m == 0 {
        return Similarity::zero();
    }
    let squared = Natural::from_u64(m as u64).times_small(m as u64);
    let first = squared.times_small(lb as u64);
    let second = squared.times_small(la as u64);
    let lengths = Natural::from_u64(la as u64).times_small(lb as u64);
    let third = lengths.times_small((m - t) as u64);
    let num = first.plus(&second).plus(&third);
    let den = lengths.times_small(m as u64).times_small(3);
    proof {
        assert(la * lb * (m - t) == (m - t) * (la * lb)) by (nonlinear_arith);
        assert(la * lb * m * 3 == 3 * (la * lb * m)) by (nonlinear_arith);
    }
    Similarity { num, den }
}

/// Jaro similarity of two character vectors.
pub fn jaro_chars(a: &Vec<char>, b: &Vec<char>) -> (s: Similarity)
    ensures
        s@ == jaro(a@, b@),
        s.wf(),
{
    let (a_used, b_used) = match_flags(a, b);
    proof {
        lemma_matching_balanced(a@, b@, a@.len());
        jaro_counts_bounded(a@, b@);
    }
    let first = pick(a, &a_used);
    let second = pick(b, &b_used);
    let m = first.len();
    let t = count_mismatches(&first, &second) / 2;
    jaro_fraction(a.len(), b.len(), m, t)
}

/// Length of the common prefix of two character vectors, capped at four.
fn prefix_len(a: &Vec<char>, b: &Vec<char>) -> (p: usize)
    ensures
        p == common_prefix(a@, b@),
        p <= MAX_PREFIX_LEN,
{
    let mut k: usize = 0;
    loop
        invariant
            k <= MAX_PREFIX_LEN,
            common_prefix(a@, b@) == common_prefix_from(a@, b@, k as nat),
        ensures
            k == common_prefix(a@, b@),
            k <= MAX_PREFIX_LEN,
        decreases MAX_PREFIX_LEN - k,
    {
        if k >= MAX_PREFIX_LEN || k >= a.len() || k >= b.len() {
            break ;
        }
        if a[k] != b[k] {
            break ;
        }
        k += 1;
    }
    k
}

/// Adds the Winkler bonus for a common prefix of `p` characters.
fn winkler_fraction(j: &Similarity, p: usize) -> (s: Similarity)
    requires
        j.wf(),
        p <= MAX_PREFIX_LEN,
    ensures
        s@ == winkler_ratio(j@, p as nat),
        s.wf(),
{
    proof {
        winkler_ratio_bounds(j@, p as nat);
    }
    let kept = j.num.times_small((10 - p) as u64);
    let bonus = j.den.times_small(p as u64);
    let num = kept.plus(&bonus);
    let den = j.den.times_small(10);
    proof {
        let n = j@.num;
        let d = j@.den;
        assert(n * (10 - p) + d * p == 10 * n + p * (d - n)) by (nonlinear_arith)
            requires
                n <= d,
                p <= 10,
        ;
        assert(d * 10 == 10 * d) by (nonlinear_arith);
    }
    Similarity { num, den }
}

/// Jaro-Winkler similarity of two character vectors, with the prefix bonus
/// applied only where the Jaro similarity is not below `boost_threshold`.
pub fn jaro_winkler_gated_chars(a: &Vec<char>, b: &Vec<char>, boost_threshold: &Similarity) -> (s:
    Similarity)
    ensures
        s@ == jaro_winkler_gated(a@, b@, boost_threshold@),
        s.wf(),
{
    let j = jaro_chars(a, b);
    proof {
        jaro_winkler_gated_bounds(a@, b@, boost_threshold@);
    }
    let p: usize = if j.is_less_than(boost_threshold) {
        0
    } else {
        prefix_len(a, b)
    };
    winkler_fraction(&j, p)
}

/// Jaro-Winkler similarity of two character vectors.
pub fn jaro_winkler_chars(a: &Vec<char>, b: &Vec<char>) -> (s: Similarity)
    ensures
        s@ == jaro_winkler(a@, b@),
        s.wf(),
{
    proof {
        zero_threshold_gates_nothing(a@, b@);
    }
    jaro_winkler_gated_chars(a, b, &Similarity::zero())
}

/// Jaro similarity of two strings, counted in Unicode scalar values, as an
/// exact fraction between zero and one.
pub fn jaro_similarity(a: &str, b: &str) -> (s: Similarity)
    ensures
        s@ == jaro(a@, b@),
        s.wf(),
{
    let x = to_chars(a);
    let y = to_chars(b);
    jaro_chars(&x, &y)
}

/// Jaro-Winkler similarity of two strings, counted in Unicode scalar
/// values, as an exact fraction between zero and one that is not below
/// their Jaro similarity.
pub fn jaro_winkler_similarity(a: &str, b: &str) -> (s: Similarity)
    ensures
        s@ == jaro_winkler(a@, b@),
        s.wf(),
        !s@.less_than(jaro(a@, b@)),
{
    proof {
        jaro_winkler_at_least_jaro(a@, b@);
    }
    let x = to_chars(a);
    let y = to_chars(b);
    jaro_winkler_chars(&x, &y)
}

/// Jaro-Winkler similarity of two strings with a boost threshold: the
/// prefix bonus is applied only where the Jaro similarity is not below
/// `boost_threshold`. A threshold of zero gates nothing.
pub fn jaro_winkler_similarity_with_threshold(
    a: &str,
    b: &str,
    boost_threshold: &Similarity,
) -> (s: Similarity)
    ensures
        s@ == jaro_winkler_gated(a@, b@, boost_threshold@),
        s.wf(),
{
    let x = to_chars(a);
    let y = to_chars(b);
    jaro_winkler_gated_chars(&x, &y, boost_threshold)
}

} // verus!
