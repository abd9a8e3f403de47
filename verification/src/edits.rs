//! Edit paths: what the edit distance measures.
//!
//! An edit path leads from one string to another by single insertions,
//! deletions and substitutions. The edit distance is the length of the
//! shortest such path: no path is shorter, and one of that length exists.

use crate::levenshtein::{
    edit_distance,
    edit_distance_identity,
    edit_distance_symmetric,
    edit_distance_triangle,
};
use vstd::prelude::*;

verus! {

/// `t` arises from `s` by inserting one character.
pub open spec fn one_insertion(s: Seq<char>, t: Seq<char>) -> bool {
    exists|i: int, c: char| 0 <= i <= s.len() && t == #[trigger] s.insert(i, c)
}

/// `t` arises from `s` by deleting one character.
pub open spec fn one_deletion(s: Seq<char>, t: Seq<char>) -> bool {
    exists|i: int| 0 <= i < s.len() && t == #[trigger] s.remove(i)
}

/// `t` arises from `s` by replacing one character.
pub open spec fn one_substitution(s: Seq<char>, t: Seq<char>) -> bool {
    exists|i: int, c: char| 0 <= i < s.len() && t == #[trigger] s.update(i, c)
}

/// `t` arises from `s` by one insertion, deletion or substitution.
pub open spec fn one_edit(s: Seq<char>, t: Seq<char>) -> bool {
    one_insertion(s, t) || one_deletion(s, t) || one_substitution(s, t)
}

/// `path` leads from `a` to `b`, one edit at a time.
pub open spec fn is_edit_path(path: Seq<Seq<char>>, a: Seq<char>, b: Seq<char>) -> bool {
    &&& path.len() > 0
    &&& path[0] == a
    &&& path[path.len() - 1] == b
    &&& forall|k: int| 0 <= k < path.len() - 1 ==> one_edit(#[trigger] path[k], path[k + 1])
}

/// A string and the same string with one character inserted are one edit
/// apart.
proof fn lemma_insertion_costs_one(s: Seq<char>, i: int, c: char)
    requires
        0 <= i <= s.len(),
    ensures
        edit_distance(s, s.insert(i, c)) <= 1,
    decreases s.len() - i,
{
    let t = s.insert(i, c);
    if i == s.len() {
        assert(t.drop_last() =~= s);
        edit_distance_identity(s);
    } else {
        assert(t.drop_last() =~= s.drop_last().insert(i, c));
        assert(t.last() == s.last());
        lemma_insertion_costs_one(s.drop_last(), i, c);
    }
}

/// A string and the same string with one character replaced are one edit
/// apart.
proof fn lemma_substitution_costs_one(s: Seq<char>, i: int, c: char)
    requires
        0 <= i < s.len(),
    ensures
        edit_distance(s, s.update(i, c)) <= 1,
    decreases s.len() - i,
{
    let t = s.update(i, c);
    if i == s.len() - 1 {
        assert(t.drop_last() =~= s.drop_last());
        edit_distance_identity(s.drop_last());
    } else {
        assert(t.drop_last() =~= s.drop_last().update(i, c));
        lemma_substitution_costs_one(s.drop_last(), i, c);
    }
}

/// Strings one edit apart are at distance one at most.
pub proof fn one_edit_costs_one(s: Seq<char>, t: Seq<char>)
    requires
        one_edit(s, t),
    ensures
        edit_distance(s, t) <= 1,
{
    if one_insertion(s, t) {
        let (i, c) = choose|i: int, c: char| 0 <= i <= s.len() && t == #[trigger] s.insert(i, c);
        lemma_insertion_costs_one(s, i, c);
    } else if one_deletion(s, t) {
        let i = choose|i: int| 0 <= i < s.len() && t == #[trigger] s.remove(i);
        assert(s =~= t.insert(i, s[i]));
        lemma_insertion_costs_one(t, i, s[i]);
        edit_distance_symmetric(s, t);
    } else {
        let (i, c) = choose|i: int, c: char| 0 <= i < s.len() && t == #[trigger] s.update(i, c);
        lemma_substitution_costs_one(s, i, c);
    }
}

/// No edit path from `a` to `b` has fewer steps than the edit distance.
pub proof fn edit_distance_at_most_path(path: Seq<Seq<char>>, a: Seq<char>, b: Seq<char>)
    requires
        is_edit_path(path, a, b),
    ensures
        edit_distance(a, b) <= path.len() - 1,
    decreases path.len(),
{
    if path.len() == 1 {
        edit_distance_identity(a);
    } else {
        let shorter = path.drop_last();
        let before = path[path.len() - 2];
        assert forall|k: int| 0 <= k < shorter.len() - 1 implies one_edit(
            #[trigger] shorter[k],
            shorter[k + 1],
        ) by {
            assert(one_edit(path[k], path[k + 1]));
        }
        edit_distance_at_most_path(shorter, a, before);
        assert(one_edit(path[path.len() - 2], path[path.len() - 2 + 1]));
        one_edit_costs_one(before, b);
        edit_distance_triangle(a, before, b);
    }
}

/// An edit stays an edit when the same character is appended on both sides.
proof fn lemma_edit_under_push(s: Seq<char>, t: Seq<char>, c: char)
    requires
        one_edit(s, t),
    ensures
        one_edit(s.push(c), t.push(c)),
{
    if one_insertion(s, t) {
        let (i, d) = choose|i: int, d: char| 0 <= i <= s.len() && t == #[trigger] s.insert(i, d);
        assert(t.push(c) =~= s.push(c).insert(i, d));
        assert(one_insertion(s.push(c), t.push(c)));
    } else if one_deletion(s, t) {
        let i = choose|i: int| 0 <= i < s.len() && t == #[trigger] s.remove(i);
        assert(t.push(c) =~= s.push(c).remove(i));
        assert(one_deletion(s.push(c), t.push(c)));
    } else {
        let (i, d) = choose|i: int, d: char| 0 <= i < s.len() && t == #[trigger] s.update(i, d);
        assert(t.push(c) =~= s.push(c).update(i, d));
        assert(one_substitution(s.push(c), t.push(c)));
    }
}

/// The path with `c` appended to each of its strings.
pub open spec fn with_suffix(path: Seq<Seq<char>>, c: char) -> Seq<Seq<char>> {
    Seq::new(path.len(), |k: int| path[k].push(c))
}

/// A path stays a path when the same character is appended to each of its
/// strings.
proof fn lemma_path_under_push(path: Seq<Seq<char>>, a: Seq<char>, b: Seq<char>, c: char)
    requires
        is_edit_path(path, a, b),
    ensures
        is_edit_path(with_suffix(path, c), a.push(c), b.push(c)),
{
    let lifted = with_suffix(path, c);
    assert forall|k: int| 0 <= k < lifted.len() - 1 implies one_edit(
        #[trigger] lifted[k],
        lifted[k + 1],
    ) by {
        assert(one_edit(path[k], path[k + 1]));
        lemma_edit_under_push(path[k], path[k + 1], c);
    }
}

/// A path extended by one more edit at its end.
proof fn lemma_path_then_edit(path: Seq<Seq<char>>, a: Seq<char>, b: Seq<char>, c: Seq<char>)
    requires
        is_edit_path(path, a, b),
        one_edit(b, c),
    ensures
        is_edit_path(path.push(c), a, c),
{
    let longer = path.push(c);
    assert forall|k: int| 0 <= k < longer.len() - 1 implies one_edit(
        #[trigger] longer[k],
        longer[k + 1],
    ) by {
        if k < path.len() - 1 {
            assert(one_edit(path[k], path[k + 1]));
        }
    }
}

/// A path preceded by one more edit at its start.
proof fn lemma_edit_then_path(a: Seq<char>, path: Seq<Seq<char>>, b: Seq<char>, c: Seq<char>)
    requires
        one_edit(a, b),
        is_edit_path(path, b, c),
    ensures
        is_edit_path(seq![a] + path, a, c),
{
    let longer = seq![a] + path;
    assert forall|k: int| 0 <= k < longer.len() - 1 implies one_edit(
        #[trigger] longer[k],
        longer[k + 1],
    ) by {
        if k > 0 {
            assert(one_edit(path[k - 1], path[k - 1 + 1]));
        }
    }
}

/// An edit path from `a` to `b` with exactly as many steps as the edit
/// distance: the distance is attained.
pub proof fn shortest_edit_path(a: Seq<char>, b: Seq<char>) -> (path: Seq<Seq<char>>)
    ensures
        is_edit_path(path, a, b),
        path.len() - 1 == edit_distance(a, b),
    decreases a.len() + b.len(),
{
    if a.len() == 0 && b.len() == 0 {
        assert(a =~= b);
        seq![a]
    } else if b.len() == 0 || (a.len() > 0 && edit_distance(a, b) == edit_distance(
        a.drop_last(),
        b,
    ) + 1) {
        let rest = shortest_edit_path(a.drop_last(), b);
        assert(a.drop_last() =~= a.remove(a.len() - 1));
        assert(one_deletion(a, a.drop_last()));
        lemma_edit_then_path(a, rest, a.drop_last(), b);
        seq![a] + rest
    } else if a.len() == 0 || edit_distance(a, b) == edit_distance(a, b.drop_last()) + 1 {
        let rest = shortest_edit_path(a, b.drop_last());
        assert(b =~= b.drop_last().insert(b.len() - 1, b.last()));
        assert(one_insertion(b.drop_last(), b));
        lemma_path_then_edit(rest, a, b.drop_last(), b);
        rest.push(b)
    } else {
        let inner = shortest_edit_path(a.drop_last(), b.drop_last());
        let lifted = with_suffix(inner, a.last());
        lemma_path_under_push(inner, a.drop_last(), b.drop_last(), a.last());
        assert(a =~= a.drop_last().push(a.last()));
        let almost = b.drop_last().push(a.last());
        if a.last() == b.last() {
            assert(b =~= almost);
            lifted
        } else {
            assert(b =~= almost.update(almost.len() - 1, b.last()));
            assert(one_substitution(almost, b));
            lemma_path_then_edit(lifted, a, almost, b);
            lifted.push(b)
        }
    }
}

/// The edit distance is the least number of single-character insertions,
/// deletions and substitutions that turn `a` into `b`.
pub proof fn edit_distance_is_least_number_of_edits(a: Seq<char>, b: Seq<char>)
    ensures
        exists|path: Seq<Seq<char>>| #[trigger]
            is_edit_path(path, a, b) && path.len() - 1 == edit_distance(a, b),
        forall|path: Seq<Seq<char>>| #[trigger]
            is_edit_path(path, a, b) ==> edit_distance(a, b) <= path.len() - 1,
{
    let shortest = shortest_edit_path(a, b);
    assert(is_edit_path(shortest, a, b));
    assert forall|path: Seq<Seq<char>>| #[trigger] is_edit_path(path, a, b) implies edit_distance(
        a,
        b,
    ) <= path.len() - 1 by {
        edit_distance_at_most_path(path, a, b);
    }
}

} // verus!
