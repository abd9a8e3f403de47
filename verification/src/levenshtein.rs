//! Levenshtein (edit) distance with unit costs, and the laws that make it a
//! metric on strings.

use crate::text::to_chars;
use vstd::prelude::*;

verus! {

/// The smaller of two numbers.
pub open spec fn min_of(x: nat, y: nat) -> nat {
    if x <= y {
        x
    } else {
        y
    }
}

/// Cost of turning `x` into `y`: nothing when they agree, one edit otherwise.
pub open spec fn substitution_cost(x: char, y: char) -> nat {
    if x == y {
        0
    } else {
        1
    }
}

/// The least number of single-character insertions, deletions and
/// substitutions that turn `a` into `b`.
///
/// The last characters are either aligned with each other (a substitution
/// when they differ), or the last of `a` is deleted, or the last of `b` is
/// inserted; the distance is the cheapest of the three.
pub open spec fn edit_distance(a: Seq<char>, b: Seq<char>) -> nat
    decreases a.len() + b.len(),
{
    if a.len() == 0 {
        b.len()
    } else if b.len() == 0 {
        a.len()
    } else {
        min_of(
            edit_distance(a.drop_last(), b.drop_last()) + substitution_cost(a.last(), b.last()),
            min_of(edit_distance(a.drop_last(), b) + 1, edit_distance(a, b.drop_last()) + 1),
        )
    }
}

/// The distance never exceeds the length of the longer string.
pub proof fn edit_distance_upper_bound(a: Seq<char>, b: Seq<char>)
    ensures
        edit_distance(a, b) <= a.len() || edit_distance(a, b) <= b.len(),
    decreases a.len() + b.len(),
{
    if a.len() > 0 && b.len() > 0 {
        edit_distance_upper_bound(a.drop_last(), b.drop_last());
    }
}

/// The distance is at least the difference of the two lengths.
pub proof fn edit_distance_lower_bound(a: Seq<char>, b: Seq<char>)
    ensures
        a.len() - b.len() <= edit_distance(a, b),
        b.len() - a.len() <= edit_distance(a, b),
    decreases a.len() + b.len(),
{
    if a.len() > 0 && b.len() > 0 {
        edit_distance_lower_bound(a.drop_last(), b.drop_last());
        edit_distance_lower_bound(a.drop_last(), b);
        edit_distance_lower_bound(a, b.drop_last());
    }
}

/// A string is at distance zero from itself.
pub proof fn edit_distance_identity(a: Seq<char>)
    ensures
        edit_distance(a, a) == 0,
    decreases a.len(),
{
    if a.len() > 0 {
        edit_distance_identity(a.drop_last());
    }
}

/// Only equal strings are at distance zero.
pub proof fn edit_distance_zero_implies_equal(a: Seq<char>, b: Seq<char>)
    requires
        edit_distance(a, b) == 0,
    ensures
        a == b,
    decreases a.len() + b.len(),
{
    if a.len() == 0 || b.len() == 0 {
        assert(a =~= b);
    } else {
        edit_distance_zero_implies_equal(a.drop_last(), b.drop_last());
        assert(a =~= a.drop_last().push(a.last()));
        assert(b =~= b.drop_last().push(b.last()));
    }
}

/// The distance from `a` to `b` equals the distance from `b` to `a`.
pub proof fn edit_distance_symmetric(a: Seq<char>, b: Seq<char>)
    ensures
        edit_distance(a, b) == edit_distance(b, a),
    decreases a.len() + b.len(),
{
    if a.len() > 0 && b.len() > 0 {
        edit_distance_symmetric(a.drop_last(), b.drop_last());
        edit_distance_symmetric(a.drop_last(), b);
        edit_distance_symmetric(a, b.drop_last());
    }
}

/// Dropping the last character of the source changes the distance by at
/// most one edit.
proof fn lemma_drop_source(a: Seq<char>, c: Seq<char>)
    requires
        a.len() > 0,
    ensures
        edit_distance(a, c) <= edit_distance(a.drop_last(), c) + 1,
{
}

/// Dropping the last character of the target changes the distance by at
/// most one edit.
proof fn lemma_drop_target(a: Seq<char>, c: Seq<char>)
    requires
        c.len() > 0,
    ensures
        edit_distance(a, c) <= edit_distance(a, c.drop_last()) + 1,
{
}

/// Going from `a` to `c` directly is never dearer than going through `b`.
pub proof fn edit_distance_triangle(a: Seq<char>, b: Seq<char>, c: Seq<char>)
    ensures
        edit_distance(a, c) <= edit_distance(a, b) + edit_distance(b, c),
    decreases a.len() + b.len() + c.len(),
{
    if a.len() == 0 {
        edit_distance_lower_bound(b, c);
    } else if c.len() == 0 {
        edit_distance_lower_bound(a, b);
    } else if b.len() == 0 {
        edit_distance_upper_bound(a, c);
    } else {
        let a1 = a.drop_last();
        let b1 = b.drop_last();
        let c1 = c.drop_last();
        let ab = edit_distance(a, b);
        let bc = edit_distance(b, c);
        if ab == edit_distance(a1, b) + 1 {
            edit_distance_triangle(a1, b, c);
            lemma_drop_source(a, c);
        } else if bc == edit_distance(b, c1) + 1 {
            edit_distance_triangle(a, b, c1);
            lemma_drop_target(a, c);
        } else if ab == edit_distance(a, b1) + 1 {
            if bc == edit_distance(b1, c) + 1 {
                edit_distance_triangle(a, b1, c);
            } else {
                edit_distance_triangle(a, b1, c1);
                lemma_drop_target(a, c);
            }
        } else {
            if bc == edit_distance(b1, c) + 1 {
                edit_distance_triangle(a1, b1, c);
                lemma_drop_source(a, c);
            } else {
                edit_distance_triangle(a1, b1, c1);
            }
        }
    }
}

/// One step of the recurrence, on prefixes: the distance between the first
/// `i + 1` characters of `a` and the first `j + 1` of `b`.
proof fn lemma_prefix_step(a: Seq<char>, b: Seq<char>, i: int, j: int)
    requires
        0 <= i < a.len(),
        0 <= j < b.len(),
    ensures
        edit_distance(a.take(i + 1), b.take(j + 1)) == min_of(
            edit_distance(a.take(i), b.take(j)) + substitution_cost(a[i], b[j]),
            min_of(
                edit_distance(a.take(i), b.take(j + 1)) + 1,
                edit_distance(a.take(i + 1), b.take(j)) + 1,
            ),
        ),
{
    assert(a.take(i + 1).drop_last() =~= a.take(i));
    assert(b.take(j + 1).drop_last() =~= b.take(j));
}

/// Edit distance between two character vectors, by dynamic programming over
/// one rolling row of the table.
pub fn levenshtein_chars(a: &Vec<char>, b: &Vec<char>) -> (d: usize)
    ensures
        d == edit_distance(a@, b@),
{
    let la = a.len();
    let lb = b.len();
    let mut row: Vec<usize> = Vec::new();
    let mut j: usize = 0;
    while j < lb
        invariant
            j <= lb,
            lb == b.len(),
            row.len() == j,
            forall|k: int| 0 <= k < j ==> row[k] == k + 1,
        decreases lb - j,
    {
        row.push(j + 1);
        j += 1;
    }
    assert forall|k: int| 0 <= k < lb implies row[k] == edit_distance(
        a@.take(0),
        #[trigger] b@.take(k + 1),
    ) by {}
    let mut i: usize = 0;
    while i < la
        invariant
            i <= la,
            la == a.len(),
            lb == b.len(),
            row.len() == lb,
            forall|k: int|
                0 <= k < lb ==> row[k] == edit_distance(a@.take(i as int), #[trigger] b@.take(k + 1)),
        decreases la - i,
    {
        let mut diag: usize = i;
        let mut left: usize = i + 1;
        let mut j: usize = 0;
        assert(b@.take(0).len() == 0);
        while j < lb
            invariant
                j <= lb,
                i < la,
                la == a.len(),
                lb == b.len(),
                row.len() == lb,
                diag == edit_distance(a@.take(i as int), b@.take(j as int)),
                left == edit_distance(a@.take(i + 1), b@.take(j as int)),
                forall|k: int|
                    0 <= k < j ==> row[k] == edit_distance(a@.take(i + 1), #[trigger] b@.take(k + 1)),
                forall|k: int|
                    j <= k < lb ==> row[k] == edit_distance(
                        a@.take(i as int),
                        #[trigger] b@.take(k + 1),
                    ),
            decreases lb - j,
        {
            let up = row[j];
            proof {
                lemma_prefix_step(a@, b@, i as int, j as int);
                edit_distance_upper_bound(a@.take(i as int), b@.take(j as int));
            }
            let through: usize = if a[i] == b[j] {
                diag
            } else {
                diag + 1
            };
            let beside: usize = if up < left {
                up
            } else {
                left
            };
            let here: usize = if beside < through {
                beside + 1
            } else {
                through
            };
            row.set(j, here);
            diag = up;
            left = here;
            j += 1;
        }
        i += 1;
    }
    assert(a@.take(la as int) =~= a@);
    if lb == 0 {
        la
    } else {
        assert(b@.take((lb - 1) + 1) =~= b@);
        row[lb - 1]
    }
}

/// Levenshtein distance between two strings, counted in Unicode scalar
/// values: a multi-byte character is one unit.
pub fn levenshtein_distance(a: &str, b: &str) -> (d: usize)
    ensures
        d == edit_distance(a@, b@),
{
    let x = to_chars(a);
    let y = to_chars(b);
    levenshtein_chars(&x, &y)
}

} // verus!
