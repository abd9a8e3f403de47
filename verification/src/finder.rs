//! The finder: scores every candidate against a query with the selected
//! scorer and returns the best one, or the best few in order.

use crate::error::MatchError;
use crate::hamming::{hamming_chars, mismatches};
use crate::jaro::{
    jaro,
    jaro_chars,
    jaro_in_unit_interval,
    jaro_winkler,
    jaro_winkler_chars,
    jaro_winkler_in_unit_interval,
};
use crate::levenshtein::{edit_distance, levenshtein_chars};
use crate::rank::{all_wf, is_top_ranking, listed, rank, ranks_before, ranks_before_total, values};
use crate::score::{Score, ScoreValue};
use crate::text::{same_text, to_chars};
use vstd::prelude::*;

verus! {

/// The scorers that the finder can apply.
#[derive(Clone, Copy, Debug, PartialEq, Eq, Structural)]
pub enum ScorerKind {
    Levenshtein,
    Hamming,
    Jaro,
    JaroWinkler,
}

/// Selects the Levenshtein distance.
pub const LEVENSHTEIN: ScorerKind = ScorerKind::Levenshtein;

/// Selects the Hamming distance.
pub const HAMMING: ScorerKind = ScorerKind::Hamming;

/// Selects the Jaro similarity.
pub const JARO: ScorerKind = ScorerKind::Jaro;

/// Selects the Jaro-Winkler similarity.
pub const JAROWINKLER: ScorerKind = ScorerKind::JaroWinkler;

impl ScorerKind {
    /// The scorer that `name` selects, if it selects one.
    pub open spec fn named(name: Seq<char>) -> Option<ScorerKind> {
        if name == "LEVENSHTEIN"@ {
            Some(ScorerKind::Levenshtein)
        } else if name == "HAMMING"@ {
            Some(ScorerKind::Hamming)
        } else if name == "JARO"@ {
            Some(ScorerKind::Jaro)
        } else if name == "JAROWINKLER"@ {
            Some(ScorerKind::JaroWinkler)
        } else {
            None
        }
    }

    /// Selects a scorer by its name, one of `LEVENSHTEIN`, `HAMMING`,
    /// `JARO` and `JAROWINKLER`.
    pub fn from_name(name: &str) -> (r: Result<ScorerKind, MatchError>)
        ensures
            r == match ScorerKind::named(name@) {
                Some(kind) => Ok::<ScorerKind, MatchError>(kind),
                None => Err::<ScorerKind, MatchError>(MatchError::InvalidScorerSelector),
            },
    {
        if same_text(name, "LEVENSHTEIN") {
            Ok(ScorerKind::Levenshtein)
        } else if same_text(name, "HAMMING") {
            Ok(ScorerKind::Hamming)
        } else if same_text(name, "JARO") {
            Ok(ScorerKind::Jaro)
        } else if same_text(name, "JAROWINKLER") {
            Ok(ScorerKind::JaroWinkler)
        } else {
            Err(MatchError::InvalidScorerSelector)
        }
    }

    /// The name by which the scorer is selected.
    pub fn name(&self) -> (s: &'static str)
        ensures
            ScorerKind::named(s@) == Some(*self),
    {
        proof {
            reveal_strlit("LEVENSHTEIN");
            reveal_strlit("HAMMING");
            reveal_strlit("JARO");
            reveal_strlit("JAROWINKLER");
            assert("LEVENSHTEIN"@.len() == 11);
            assert("HAMMING"@.len() == 7);
            assert("JARO"@.len() == 4);
            assert("JAROWINKLER"@.len() == 11);
            assert("JAROWINKLER"@[0] == 'J');
            assert("LEVENSHTEIN"@[0] == 'L');
        }
        match self {
            ScorerKind::Levenshtein => "LEVENSHTEIN",
            ScorerKind::Hamming => "HAMMING",
            ScorerKind::Jaro => "JARO",
            ScorerKind::JaroWinkler => "JAROWINKLER",
        }
    }
}

/// A candidate, by its position in the input, with its score.
#[derive(Clone, Debug)]
pub struct RankedResult {
    pub index: usize,
    pub score: Score,
}

/// What the selected scorer says of `candidate` against `query`.
pub open spec fn score_of(kind: ScorerKind, query: Seq<char>, candidate: Seq<char>) -> Result<
    ScoreValue,
    MatchError,
> {
    match kind {
        ScorerKind::Levenshtein => Ok(ScoreValue::Distance(edit_distance(query, candidate))),
        ScorerKind::Hamming => if query.len() == candidate.len() {
            Ok(ScoreValue::Distance(mismatches(query, candidate)))
        } else {
            Err(MatchError::LengthMismatch)
        },
        ScorerKind::Jaro => Ok(ScoreValue::Similarity(jaro(query, candidate))),
        ScorerKind::JaroWinkler => Ok(ScoreValue::Similarity(jaro_winkler(query, candidate))),
    }
}

/// The candidates as sequences of characters.
pub open spec fn texts(candidates: Seq<String>) -> Seq<Seq<char>> {
    Seq::new(candidates.len(), |i: int| candidates[i]@)
}

/// The first `upto` candidates can all be scored.
pub open spec fn all_scored(
    kind: ScorerKind,
    query: Seq<char>,
    candidates: Seq<Seq<char>>,
    upto: int,
) -> bool {
    forall|i: int| 0 <= i < upto ==> (#[trigger] score_of(kind, query, candidates[i])) is Ok
}

/// Candidate `at` is the first that cannot be scored, and `error` is why.
pub open spec fn is_first_failure(
    kind: ScorerKind,
    query: Seq<char>,
    candidates: Seq<Seq<char>>,
    at: int,
    error: MatchError,
) -> bool {
    &&& 0 <= at < candidates.len()
    &&& all_scored(kind, query, candidates, at)
    &&& score_of(kind, query, candidates[at]) == Err::<ScoreValue, MatchError>(error)
}

/// Some candidate cannot be scored, and `error` is why the first of them
/// cannot.
pub open spec fn fails_with(
    kind: ScorerKind,
    query: Seq<char>,
    candidates: Seq<Seq<char>>,
    error: MatchError,
) -> bool {
    exists|at: int| is_first_failure(kind, query, candidates, at, error)
}

/// The scores of the candidates, where all can be scored.
pub open spec fn scores_of(kind: ScorerKind, query: Seq<char>, candidates: Seq<Seq<char>>) -> Seq<
    ScoreValue,
> {
    Seq::new(candidates.len(), |i: int| score_of(kind, query, candidates[i])->Ok_0)
}

/// The positions that a list of results names, in order.
pub open spec fn indices(results: Seq<RankedResult>) -> Seq<usize> {
    Seq::new(results.len(), |p: int| results[p].index)
}

/// How many results are asked for: none where `n` is negative.
pub open spec fn wanted(n: i64) -> int {
    if n < 0 {
        0
    } else {
        n as int
    }
}

/// `results` are the best `n` candidates for `query`, best first and ties
/// in the order of the input, each with its score.
pub open spec fn is_n_closest(
    kind: ScorerKind,
    query: Seq<char>,
    candidates: Seq<Seq<char>>,
    results: Seq<RankedResult>,
    n: i64,
) -> bool {
    &&& is_top_ranking(scores_of(kind, query, candidates), indices(results), wanted(n))
    &&& forall|p: int|
        0 <= p < results.len() ==> (#[trigger] results[p]).score@ == scores_of(
            kind,
            query,
            candidates,
        )[results[p].index as int]
}

/// `best` is the candidate that ranks before every other, with its score.
pub open spec fn is_closest(
    kind: ScorerKind,
    query: Seq<char>,
    candidates: Seq<Seq<char>>,
    best: RankedResult,
) -> bool {
    &&& best.index < candidates.len()
    &&& best.score@ == scores_of(kind, query, candidates)[best.index as int]
    &&& forall|j: int|
        0 <= j < candidates.len() && j != best.index ==> #[trigger] ranks_before(
            scores_of(kind, query, candidates),
            best.index as int,
            j,
        )
}

/// The best candidate is the first of the best few: what `closest` returns
/// stands at the head of what `n_closest` returns for any `n` of one or more.
pub proof fn closest_is_first_of_n_closest(
    kind: ScorerKind,
    query: Seq<char>,
    candidates: Seq<Seq<char>>,
    best: RankedResult,
    results: Seq<RankedResult>,
    n: i64,
)
    requires
        n >= 1,
        is_closest(kind, query, candidates, best),
        is_n_closest(kind, query, candidates, results, n),
    ensures
        results.len() >= 1,
        results[0].index == best.index,
        results[0].score@ == best.score@,
{
    let scores = scores_of(kind, query, candidates);
    let order = indices(results);
    let head = order[0] as int;
    let at = best.index as int;
    if head != at {
        assert(ranks_before(scores, at, head));
        if listed(order, at) {
            let q = choose|q: int| 0 <= q < order.len() && order[q] == at;
            assert(ranks_before(scores, order[0] as int, order[q] as int));
        } else {
            assert(ranks_before(scores, order[0] as int, at));
        }
        ranks_before_total(scores, at, head);
    }
}

/// Every score that a scorer gives is well formed.
pub proof fn score_of_wf(kind: ScorerKind, query: Seq<char>, candidate: Seq<char>)
    requires
        score_of(kind, query, candidate) is Ok,
    ensures
        score_of(kind, query, candidate)->Ok_0.wf(),
{
    jaro_in_unit_interval(query, candidate);
    jaro_winkler_in_unit_interval(query, candidate);
}

/// Scores one candidate against the query with the selected scorer.
pub fn score_chars(kind: ScorerKind, query: &Vec<char>, candidate: &Vec<char>) -> (r: Result<
    Score,
    MatchError,
>)
    ensures
        r matches Ok(s) ==> score_of(kind, query@, candidate@) == Ok::<ScoreValue, MatchError>(s@)
            && s.wf(),
        r matches Err(e) ==> score_of(kind, query@, candidate@) == Err::<ScoreValue, MatchError>(
            e,
        ),
{
    match kind {
        ScorerKind::Levenshtein => Ok(Score::Distance(levenshtein_chars(query, candidate))),
        ScorerKind::Hamming => match hamming_chars(query, candidate) {
            Ok(d) => Ok(Score::Distance(d)),
            Err(e) => Err(e),
        },
        ScorerKind::Jaro => Ok(Score::Similarity(jaro_chars(query, candidate))),
        ScorerKind::JaroWinkler => Ok(Score::Similarity(jaro_winkler_chars(query, candidate))),
    }
}

/// Scores every candidate, in order; stops at the first that cannot be
/// scored.
pub fn score_all(query: &str, candidates: &Vec<String>, kind: ScorerKind) -> (r: Result<
    Vec<Score>,
    MatchError,
>)
    ensures
        r is Ok <==> all_scored(kind, query@, texts(candidates@), candidates.len() as int),
        r matches Ok(v) ==> all_scored(kind, query@, texts(candidates@), candidates.len() as int)
            && values(v@) == scores_of(kind, query@, texts(candidates@)) && all_wf(values(v@)),
        r matches Err(e) ==> fails_with(kind, query@, texts(candidates@), e),
{
    let q = to_chars(query);
    let mut scores: Vec<Score> = Vec::new();
    let mut i: usize = 0;
    while i < candidates.len()
        invariant
            i <= candidates.len(),
            q@ == query@,
            scores.len() == i,
            all_scored(kind, query@, texts(candidates@), i as int),
            forall|k: int|
                0 <= k < i ==> (#[trigger] scores[k])@ == score_of(
                    kind,
                    query@,
                    texts(candidates@)[k],
                )->Ok_0,
            forall|k: int| 0 <= k < i ==> (#[trigger] scores[k]).wf(),
        decreases candidates.len() - i,
    {
        let c = to_chars(candidates[i].as_str());
        assert(texts(candidates@)[i as int] == c@);
        match score_chars(kind, &q, &c) {
            Ok(s) => {
                scores.push(s);
            },
            Err(e) => {
                assert(is_first_failure(kind, query@, texts(candidates@), i as int, e));
                return Err(e);
            },
        }
        i += 1;
    }
    assert(values(scores@) =~= scores_of(kind, query@, texts(candidates@)));
    Ok(scores)
}

/// The best `n` candidates for `query` under the selected scorer, best
/// first; candidates that tie keep the order of the input. All candidates
/// are returned where `n` is at least their number, none where `n` is zero
/// or negative. The error of the first candidate that cannot be scored is
/// returned instead, if there is one.
pub fn n_closest(query: &str, candidates: &Vec<String>, kind: ScorerKind, n: i64) -> (r: Result<
    Vec<RankedResult>,
    MatchError,
>)
    ensures
        r is Ok <==> all_scored(kind, query@, texts(candidates@), candidates.len() as int),
        r matches Ok(v) ==> is_n_closest(kind, query@, texts(candidates@), v@, n),
        r matches Err(e) ==> fails_with(kind, query@, texts(candidates@), e),
        n >= candidates.len() ==> (r matches Ok(v) ==> v.len() == candidates.len() && forall|
            j: int,
        | 0 <= j < candidates.len() ==> #[trigger] listed(indices(v@), j)),
{
    let scores = match score_all(query, candidates, kind) {
        Ok(s) => s,
        Err(e) => {
            return Err(e);
        },
    };
    let count = scores.len();
    let limit: usize = if n <= 0 {
        0
    } else if n as u64 >= count as u64 {
        count
    } else {
        n as usize
    };
    let order = rank(&scores, limit);
    let mut results: Vec<RankedResult> = Vec::new();
    let mut p: usize = 0;
    while p < order.len()
        invariant
            p <= order.len(),
            results.len() == p,
            forall|q: int| 0 <= q < order.len() ==> #[trigger] order[q] < scores.len(),
            forall|q: int|
                0 <= q < p ==> (#[trigger] results[q]).index == order[q] && results[q].score@
                    == scores[order[q] as int]@,
        decreases order.len() - p,
    {
        let at = order[p];
        results.push(RankedResult { index: at, score: scores[at].clone() });
        p += 1;
    }
    assert(indices(results@) =~= order@);
    Ok(results)
}

/// The best candidate for `query` under the selected scorer; of candidates
/// that tie, the first in the input. An empty list of candidates is an
/// error, and so is a candidate that cannot be scored.
pub fn closest(query: &str, candidates: &Vec<String>, kind: ScorerKind) -> (r: Result<
    RankedResult,
    MatchError,
>)
    ensures
        candidates.len() == 0 ==> r == Err::<RankedResult, MatchError>(MatchError::EmptyInput),
        r is Ok <==> candidates.len() > 0 && all_scored(
            kind,
            query@,
            texts(candidates@),
            candidates.len() as int,
        ),
        r matches Ok(best) ==> is_closest(kind, query@, texts(candidates@), best),
        candidates.len() > 0 ==> (r matches Err(e) ==> fails_with(
            kind,
            query@,
            texts(candidates@),
            e,
        )),
{
    if candidates.len() == 0 {
        return Err(MatchError::EmptyInput);
    }
    let scores = match score_all(query, candidates, kind) {
        Ok(s) => s,
        Err(e) => {
            return Err(e);
        },
    };
    let order = rank(&scores, 1);
    let at = order[0];
    assert forall|j: int| 0 <= j < candidates.len() && j != at implies #[trigger] ranks_before(
        values(scores@),
        at as int,
        j,
    ) by {
        assert(ranks_before(values(scores@), order[0] as int, j));
    }
    Ok(RankedResult { index: at, score: scores[at].clone() })
}

} // verus!
