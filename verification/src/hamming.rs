//! Hamming distance: the number of positions at which two strings of equal
//! length differ.

use crate::error::MatchError;
use crate::levenshtein::{edit_distance, substitution_cost};
use crate::text::to_chars;
use vstd::prelude::*;

verus! {

/// Number of positions at which `a` and `b` hold different characters.
pub open spec fn mismatches(a: Seq<char>, b: Seq<char>) -> nat
    recommends
        a.len() == b.len(),
    decreases a.len(),
{
    if a.len() == 0 || b.len() == 0 {
        0
    } else {
        mismatches(a.drop_last(), b.drop_last()) + substitution_cost(a.last(), b.last())
    }
}

/// A string differs from itself nowhere.
pub proof fn mismatches_identity(a: Seq<char>)
    ensures
        mismatches(a, a) == 0,
    decreases a.len(),
{
    if a.len() > 0 {
        mismatches_identity(a.drop_last());
    }
}

/// Two strings differ at the same positions whichever is named first.
pub proof fn mismatches_symmetric(a: Seq<char>, b: Seq<char>)
    requires
        a.len() == b.len(),
    ensures
        mismatches(a, b) == mismatches(b, a),
    decreases a.len(),
{
    if a.len() > 0 {
        mismatches_symmetric(a.drop_last(), b.drop_last());
    }
}

/// There are no more mismatches than positions.
pub proof fn mismatches_upper_bound(a: Seq<char>, b: Seq<char>)
    ensures
        mismatches(a, b) <= a.len(),
        mismatches(a, b) <= b.len(),
    decreases a.len(),
{
    if a.len() > 0 && b.len() > 0 {
        mismatches_upper_bound(a.drop_last(), b.drop_last());
    }
}

/// Strings of equal length with no mismatch are equal.
pub proof fn mismatches_zero_implies_equal(a: Seq<char>, b: Seq<char>)
    requires
        a.len() == b.len(),
        mismatches(a, b) == 0,
    ensures
        a == b,
    decreases a.len(),
{
    if a.len() == 0 {
        assert(a =~= b);
    } else {
        mismatches_zero_implies_equal(a.drop_last(), b.drop_last());
        assert(a =~= a.drop_last().push(a.last()));
        assert(b =~= b.drop_last().push(b.last()));
    }
}

/// Substituting at every mismatch is one way to edit: between strings of
/// equal length the edit distance is at most the Hamming distance.
pub proof fn edit_distance_at_most_mismatches(a: Seq<char>, b: Seq<char>)
    requires
        a.len() == b.len(),
    ensures
        edit_distance(a, b) <= mismatches(a, b),
    decreases a.len(),
{
    if a.len() > 0 {
        edit_distance_at_most_mismatches(a.drop_last(), b.drop_last());
    }
}

/// Counts the mismatches of two character vectors of one length.
pub(crate) fn count_mismatches(a: &Vec<char>, b: &Vec<char>) -> (d: usize)
    requires
        a.len() == b.len(),
    ensures
        d == mismatches(a@, b@),
{
    let n = a.len();
    let mut d: usize = 0;
    let mut i: usize = 0;
    while i < n
        invariant
            i <= n,
            n == a.len(),
            n == b.len(),
            d == mismatches(a@.take(i as int), b@.take(i as int)),
            d <= i,
        decreases n - i,
    {
        proof {
            assert(a@.take(i + 1).drop_last() =~= a@.take(i as int));
            assert(b@.take(i + 1).drop_last() =~= b@.take(i as int));
        }
        if a[i] != b[i] {
            d += 1;
        }
        i += 1;
    }
    proof {
        assert(a@.take(n as int) =~= a@);
        assert(b@.take(n as int) =~= b@);
    }
    d
}

/// Hamming distance between two character vectors; an error when their
/// lengths differ.
pub fn hamming_chars(a: &Vec<char>, b: &Vec<char>) -> (r: Result<usize, MatchError>)
    ensures
        a@.len() == b@.len() ==> (r matches Ok(d) && d == mismatches(a@, b@)),
        a@.len() != b@.len() ==> r == Err::<usize, MatchError>(MatchError::LengthMismatch),
{
    if a.len() != b.len() {
        return Err(MatchError::LengthMismatch);
    }
    Ok(count_mismatches(a, b))
}

/// Hamming distance between two strings, counted in Unicode scalar values.
/// Strings of different lengths are refused, never truncated or padded.
pub fn hamming_distance(a: &str, b: &str) -> (r: Result<usize, MatchError>)
    ensures
        a@.len() == b@.len() ==> (r matches Ok(d) && d == mismatches(a@, b@)),
        a@.len() != b@.len() ==> r == Err::<usize, MatchError>(MatchError::LengthMismatch),
{
    let x = to_chars(a);
    let y = to_chars(b);
    hamming_chars(&x, &y)
}

} // verus!
