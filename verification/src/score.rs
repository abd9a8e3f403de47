//! Scores and the order in which they rank.
//!
//! A distance is a count of edits; a similarity is an exact fraction between
//! zero and one. Lower distances and higher similarities rank first.

use crate::natural::Natural;
use vstd::prelude::*;

verus! {

/// A fraction of natural numbers: what a similarity is, mathematically.
pub struct Ratio {
    pub num: nat,
    pub den: nat,
}

impl Ratio {
    /// The fraction is defined and lies between zero and one.
    pub open spec fn wf(self) -> bool {
        0 < self.den && self.num <= self.den
    }

    /// `self` is a smaller fraction than `other`, by cross-multiplication.
    pub open spec fn less_than(self, other: Ratio) -> bool {
        self.num * other.den < other.num * self.den
    }

    /// `self` and `other` are the same fraction, whatever their terms.
    pub open spec fn same_value(self, other: Ratio) -> bool {
        self.num * other.den == other.num * self.den
    }
}

/// A similarity as the exact fraction `num / den`, whatever the size of
/// its terms.
#[derive(Debug)]
pub struct Similarity {
    pub num: Natural,
    pub den: Natural,
}

impl View for Similarity {
    type V = Ratio;

    open spec fn view(&self) -> Ratio {
        Ratio { num: self.num@, den: self.den@ }
    }
}

impl Clone for Similarity {
    /// The same fraction, in the same terms.
    fn clone(&self) -> (r: Similarity)
        ensures
            r@ == self@,
    {
        Similarity { num: self.num.clone(), den: self.den.clone() }
    }
}

impl Similarity {
    /// The fraction is defined and lies between zero and one.
    pub open spec fn wf(self) -> bool {
        self@.wf()
    }

    /// The similarity `num / den`, where that is a fraction between zero
    /// and one.
    pub fn new(num: u64, den: u64) -> (r: Option<Similarity>)
        ensures
            0 < den && num <= den ==> (r matches Some(s) && s@ == (Ratio {
                num: num as nat,
                den: den as nat,
            })),
            !(0 < den && num <= den) ==> r is None,
    {
        if 0 < den && num <= den {
            Some(Similarity { num: Natural::from_u64(num), den: Natural::from_u64(den) })
        } else {
            None
        }
    }

    /// The similarity of two things with nothing in common.
    pub fn zero() -> (s: Similarity)
        ensures
            s@ == (Ratio { num: 0, den: 1 }),
    {
        Similarity { num: Natural::from_u64(0), den: Natural::from_u64(1) }
    }

    /// The similarity of two identical things.
    pub fn one() -> (s: Similarity)
        ensures
            s@ == (Ratio { num: 1, den: 1 }),
    {
        Similarity { num: Natural::from_u64(1), den: Natural::from_u64(1) }
    }

    /// The upper term of the fraction.
    pub fn numerator(&self) -> (n: Natural)
        ensures
            n@ == self@.num,
    {
        self.num.clone()
    }

    /// The lower term of the fraction.
    pub fn denominator(&self) -> (d: Natural)
        ensures
            d@ == self@.den,
    {
        self.den.clone()
    }

    /// Whether `self` is a smaller fraction than `other`.
    pub fn is_less_than(&self, other: &Similarity) -> (r: bool)
        ensures
            r == self@.less_than(other@),
    {
        let left = self.num.times(&other.den);
        let right = other.num.times(&self.den);
        left.is_less_than(&right)
    }
}

/// What a score is, mathematically.
pub enum ScoreValue {
    /// A count of edits or mismatches: lower is better.
    Distance(nat),
    /// A fraction between zero and one: higher is better.
    Similarity(Ratio),
}

impl ScoreValue {
    /// A similarity is a fraction between zero and one; any distance is
    /// well formed.
    pub open spec fn wf(self) -> bool {
        match self {
            ScoreValue::Distance(_) => true,
            ScoreValue::Similarity(s) => s.wf(),
        }
    }

    /// `self` is strictly better than `other`: a lower distance, or a
    /// higher similarity. Scores of the two kinds never meet in one ranking;
    /// to keep the order total a distance is placed before a similarity.
    pub open spec fn better_than(self, other: ScoreValue) -> bool {
        match (self, other) {
            (ScoreValue::Distance(x), ScoreValue::Distance(y)) => x < y,
            (ScoreValue::Similarity(x), ScoreValue::Similarity(y)) => y.less_than(x),
            (ScoreValue::Distance(_), ScoreValue::Similarity(_)) => true,
            (ScoreValue::Similarity(_), ScoreValue::Distance(_)) => false,
        }
    }
}

/// What a scorer says of one candidate.
#[derive(Debug)]
pub enum Score {
    /// A count of edits or mismatches: lower is better.
    Distance(usize),
    /// A fraction between zero and one: higher is better.
    Similarity(Similarity),
}

impl View for Score {
    type V = ScoreValue;

    open spec fn view(&self) -> ScoreValue {
        match *self {
            Score::Distance(d) => ScoreValue::Distance(d as nat),
            Score::Similarity(s) => ScoreValue::Similarity(s@),
        }
    }
}

impl Clone for Score {
    /// The same score.
    fn clone(&self) -> (r: Score)
        ensures
            r@ == self@,
    {
        match self {
            Score::Distance(d) => Score::Distance(*d),
            Score::Similarity(s) => Score::Similarity(s.clone()),
        }
    }
}

impl Score {
    /// The score is a well-formed one.
    pub open spec fn wf(self) -> bool {
        self@.wf()
    }

    /// Whether `self` is strictly better than `other`.
    pub fn is_better_than(&self, other: &Score) -> (r: bool)
        ensures
            r == self@.better_than(other@),
    {
        match (self, other) {
            (Score::Distance(x), Score::Distance(y)) => *x < *y,
            (Score::Similarity(x), Score::Similarity(y)) => y.is_less_than(x),
            (Score::Distance(_), Score::Similarity(_)) => true,
            (Score::Similarity(_), Score::Distance(_)) => false,
        }
    }
}

/// No score is better than itself.
pub proof fn better_than_irreflexive(x: ScoreValue)
    ensures
        !x.better_than(x),
{
}

/// Of two scores at most one is better than the other.
pub proof fn better_than_asymmetric(x: ScoreValue, y: ScoreValue)
    ensures
        !(x.better_than(y) && y.better_than(x)),
{
}

/// Better than something better is better.
pub proof fn better_than_transitive(x: ScoreValue, y: ScoreValue, z: ScoreValue)
    requires
        x.wf(),
        y.wf(),
        z.wf(),
        x.better_than(y),
        y.better_than(z),
    ensures
        x.better_than(z),
{
    match (x, y, z) {
        (ScoreValue::Similarity(p), ScoreValue::Similarity(q), ScoreValue::Similarity(r)) => {
            lemma_fraction_chain(
                r.num as int,
                r.den as int,
                q.num as int,
                q.den as int,
                p.num as int,
                p.den as int,
            );
        },
        _ => {},
    }
}

/// If `x` is no better than `y` and `y` no better than `z`, then `x` is no
/// better than `z`: ties and worse scores chain.
pub proof fn not_better_than_transitive(x: ScoreValue, y: ScoreValue, z: ScoreValue)
    requires
        x.wf(),
        y.wf(),
        z.wf(),
        !x.better_than(y),
        !y.better_than(z),
    ensures
        !x.better_than(z),
{
    match (x, y, z) {
        (ScoreValue::Similarity(p), ScoreValue::Similarity(q), ScoreValue::Similarity(r)) => {
            lemma_fraction_chain_weak(
                p.num as int,
                p.den as int,
                q.num as int,
                q.den as int,
                r.num as int,
                r.den as int,
            );
        },
        _ => {},
    }
}

/// `a/b < c/d` and `c/d < e/f` give `a/b < e/f`, by cross-multiplication.
proof fn lemma_fraction_chain(a: int, b: int, c: int, d: int, e: int, f: int)
    requires
        0 <= a,
        0 <= c,
        0 <= e,
        0 < b,
        0 < d,
        0 < f,
        a * d < c * b,
        c * f < e * d,
    ensures
        a * f < e * b,
{
    assert(a * d * f <= c * b * f) by (nonlinear_arith)
        requires
            a * d < c * b,
            0 < f,
    ;
    assert(c * f * b < e * d * b) by (nonlinear_arith)
        requires
            c * f < e * d,
            0 < b,
    ;
    assert(c * b * f == c * f * b) by (nonlinear_arith);
    assert(a * d * f == a * f * d) by (nonlinear_arith);
    assert(e * d * b == e * b * d) by (nonlinear_arith);
    assert(a * f < e * b) by (nonlinear_arith)
        requires
            a * f * d < e * b * d,
            0 < d,
    ;
}

/// `a/b <= c/d` and `c/d <= e/f` give `a/b <= e/f`, by cross-multiplication.
proof fn lemma_fraction_chain_weak(a: int, b: int, c: int, d: int, e: int, f: int)
    requires
        0 <= a,
        0 <= c,
        0 <= e,
        0 < b,
        0 < d,
        0 < f,
        a * d <= c * b,
        c * f <= e * d,
    ensures
        a * f <= e * b,
{
    assert(a * d * f <= c * b * f) by (nonlinear_arith)
        requires
            a * d <= c * b,
            0 < f,
    ;
    assert(c * f * b <= e * d * b) by (nonlinear_arith)
        requires
            c * f <= e * d,
            0 < b,
    ;
    assert(c * b * f == c * f * b) by (nonlinear_arith);
    assert(a * d * f == a * f * d) by (nonlinear_arith);
    assert(e * d * b == e * b * d) by (nonlinear_arith);
    assert(a * f <= e * b) by (nonlinear_arith)
        requires
            a * f * d <= e * b * d,
            0 < d,
    ;
}

} // verus!
