//! Natural numbers of any size, held as 64-bit limbs.
//!
//! The terms of a similarity are products of string lengths and do not fit
//! in a machine word; here they are exact whatever the lengths.

use vstd::prelude::*;

verus! {

/// The weight of one limb over the limb below it: two to the sixty-fourth.
pub open spec fn base() -> nat {
    0x1_0000_0000_0000_0000
}

/// The weight of limb `n`: `base()` to the power `n`.
pub open spec fn base_pow(n: nat) -> nat
    decreases n,
{
    if n == 0 {
        1
    } else {
        base() * base_pow((n - 1) as nat)
    }
}

/// The number that the limbs stand for, least significant limb first.
pub open spec fn limbs_value(s: Seq<u64>) -> nat
    decreases s.len(),
{
    if s.len() == 0 {
        0
    } else {
        limbs_value(s.drop_last()) + s.last() as nat * base_pow((s.len() - 1) as nat)
    }
}

/// The limb at position `i`, zero beyond the last.
pub open spec fn limb_or_zero(s: Seq<u64>, i: int) -> nat {
    if 0 <= i < s.len() {
        s[i] as nat
    } else {
        0
    }
}

/// The number that the lowest `i` limbs stand for.
pub open spec fn prefix_value(s: Seq<u64>, i: nat) -> nat {
    if i <= s.len() {
        limbs_value(s.take(i as int))
    } else {
        limbs_value(s)
    }
}

/// The weight of limb `j + n` is the product of the weights of limbs `j`
/// and `n`.
proof fn lemma_base_pow_adds(j: nat, n: nat)
    ensures
        base_pow(j + n) == base_pow(j) * base_pow(n),
    decreases n,
{
    if n == 0 {
        assert(base_pow(j) * 1 == base_pow(j)) by (nonlinear_arith);
    } else {
        lemma_base_pow_adds(j, (n - 1) as nat);
        let p = base_pow(j);
        let q = base_pow((n - 1) as nat);
        assert(base_pow(j + n) == base() * base_pow((j + n - 1) as nat));
        assert(base() * (p * q) == p * (base() * q)) by (nonlinear_arith);
    }
}

/// A limb appended at the top adds its weight to the number.
proof fn lemma_value_push(s: Seq<u64>, x: u64)
    ensures
        limbs_value(s.push(x)) == limbs_value(s) + x as nat * base_pow(s.len()),
{
    assert(s.push(x).drop_last() =~= s);
}

/// One more limb adds its weight to the number of the limbs below.
proof fn lemma_prefix_step(s: Seq<u64>, i: nat)
    ensures
        prefix_value(s, i + 1) == prefix_value(s, i) + limb_or_zero(s, i as int) * base_pow(i),
{
    if i < s.len() {
        assert(s.take(i as int + 1).drop_last() =~= s.take(i as int));
    } else {
        assert(s.take(s.len() as int) =~= s);
        assert(0 * base_pow(i) == 0) by (nonlinear_arith);
    }
}

/// Past the last limb the lowest limbs are all of them.
proof fn lemma_prefix_all(s: Seq<u64>, n: nat)
    requires
        n >= s.len(),
    ensures
        prefix_value(s, n) == limbs_value(s),
{
    assert(s.take(s.len() as int) =~= s);
}

/// The lowest `i` limbs stand for a number below the weight of limb `i`.
proof fn lemma_prefix_bound(s: Seq<u64>, i: nat)
    ensures
        prefix_value(s, i) < base_pow(i),
    decreases i,
{
    if i == 0 {
        assert(s.take(0).len() == 0);
    } else {
        let k = (i - 1) as nat;
        lemma_prefix_bound(s, k);
        lemma_prefix_step(s, k);
        let p = base_pow(k);
        let x = limb_or_zero(s, k as int);
        assert(x * p + p <= base() * p) by (nonlinear_arith)
            requires
                x + 1 <= base(),
                p >= 0,
        ;
    }
}

/// Limbs shifted up by `j` positions stand for the number times the weight
/// of limb `j`.
proof fn lemma_value_shifted(j: nat, x: Seq<u64>)
    ensures
        limbs_value(Seq::new(j, |k: int| 0u64) + x) == base_pow(j) * limbs_value(x),
    decreases x.len(),
{
    let zeros = Seq::new(j, |k: int| 0u64);
    if x.len() == 0 {
        assert(zeros + x =~= zeros);
        lemma_value_zeros(j);
        assert(base_pow(j) * 0 == 0) by (nonlinear_arith);
    } else {
        let rest = x.drop_last();
        lemma_value_shifted(j, rest);
        assert(zeros + x =~= (zeros + rest).push(x.last()));
        lemma_value_push(zeros + rest, x.last());
        lemma_base_pow_adds(j, rest.len());
        let p = base_pow(j);
        let q = base_pow(rest.len());
        let l = x.last() as nat;
        let v = limbs_value(rest);
        assert(p * v + l * (p * q) == p * (v + l * q)) by (nonlinear_arith);
    }
}

/// Limbs of zero stand for zero.
proof fn lemma_value_zeros(j: nat)
    ensures
        limbs_value(Seq::new(j, |k: int| 0u64)) == 0,
    decreases j,
{
    if j > 0 {
        lemma_value_zeros((j - 1) as nat);
        assert(Seq::new(j, |k: int| 0u64).drop_last() =~= Seq::new(
            (j - 1) as nat,
            |k: int| 0u64,
        ));
        assert(0 * base_pow((j - 1) as nat) == 0) by (nonlinear_arith);
    }
}

/// A natural number of any size.
#[derive(Debug)]
pub struct Natural {
    limbs: Vec<u64>,
}

impl View for Natural {
    type V = nat;

    closed spec fn view(&self) -> nat {
        limbs_value(self.limbs@)
    }
}

impl Clone for Natural {
    /// The same number, in limbs of its own.
    fn clone(&self) -> (r: Natural)
        ensures
            r@ == self@,
    {
        let mut limbs: Vec<u64> = Vec::new();
        let mut i: usize = 0;
        while i < self.limbs.len()
            invariant
                i <= self.limbs.len(),
                limbs@ =~= self.limbs@.take(i as int),
            decreases self.limbs.len() - i,
        {
            limbs.push(self.limbs[i]);
            i += 1;
        }
        assert(self.limbs@.take(self.limbs.len() as int) =~= self.limbs@);
        Natural { limbs }
    }
}

impl Natural {
    /// The number `x`.
    pub fn from_u64(x: u64) -> (r: Natural)
        ensures
            r@ == x,
    {
        let mut limbs: Vec<u64> = Vec::new();
        limbs.push(x);
        proof {
            lemma_value_push(Seq::<u64>::empty(), x);
            assert(limbs@ =~= Seq::<u64>::empty().push(x));
            assert(x as nat * 1 == x as nat) by (nonlinear_arith);
        }
        Natural { limbs }
    }

    /// The limbs of the number, least significant first: the number is the
    /// sum of each limb times two to the power of sixty-four times its
    /// position.
    pub fn limbs(&self) -> (r: Vec<u64>)
        ensures
            limbs_value(r@) == self@,
    {
        self.clone().limbs
    }

    /// The product of the number and `k`.
    pub fn times_small(&self, k: u64) -> (r: Natural)
        ensures
            r@ == self@ * k,
    {
        let n = self.limbs.len();
        let mut out: Vec<u64> = Vec::new();
        let mut carry: u64 = 0;
        let mut i: usize = 0;
        proof {
            assert(self.limbs@.take(0).len() == 0);
            assert(0 * base_pow(0) == 0) by (nonlinear_arith);
            assert(0 * (k as nat) == 0) by (nonlinear_arith);
        }
        while i < n
            invariant
                i <= n,
                n == self.limbs.len(),
                out.len() == i,
                limbs_value(out@) + carry as nat * base_pow(i as nat) == prefix_value(
                    self.limbs@,
                    i as nat,
                ) * k as nat,
            decreases n - i,
        {
            let limb = self.limbs[i];
            assert(limb * k + carry <= 0xffff_ffff_ffff_ffff * 0xffff_ffff_ffff_ffff
                + 0xffff_ffff_ffff_ffff) by (nonlinear_arith)
                requires
                    limb <= 0xffff_ffff_ffff_ffff,
                    k <= 0xffff_ffff_ffff_ffff,
                    carry <= 0xffff_ffff_ffff_ffff,
            ;
            let wide: u128 = (limb as u128) * (k as u128) + (carry as u128);
            let low: u64 = (wide % 0x1_0000_0000_0000_0000) as u64;
            let high: u64 = (wide / 0x1_0000_0000_0000_0000) as u64;
            proof {
                lemma_prefix_step(self.limbs@, i as nat);
                lemma_value_push(out@, low);
                let p = base_pow(i as nat);
                let before = prefix_value(self.limbs@, i as nat);
                assert(wide == high as nat * base() + low as nat);
                assert(limbs_value(out@) + low as nat * p + high as nat * (base() * p) == (before
                    + limb as nat * p) * k as nat) by (nonlinear_arith)
                    requires
                        limbs_value(out@) + carry as nat * p == before * k as nat,
                        limb as nat * k as nat + carry as nat == high as nat * base() + low as nat,
                ;
            }
            out.push(low);
            carry = high;
            i += 1;
        }
        proof {
            lemma_value_push(out@, carry);
            lemma_prefix_all(self.limbs@, n as nat);
        }
        out.push(carry);
        Natural { limbs: out }
    }

    /// The sum of the number and `other`.
    pub fn plus(&self, other: &Natural) -> (r: Natural)
        ensures
            r@ == self@ + other@,
    {
        let n = if self.limbs.len() >= other.limbs.len() {
            self.limbs.len()
        } else {
            other.limbs.len()
        };
        let mut out: Vec<u64> = Vec::new();
        let mut carry: u64 = 0;
        let mut i: usize = 0;
        proof {
            assert(self.limbs@.take(0).len() == 0);
            assert(other.limbs@.take(0).len() == 0);
            assert(0 * base_pow(0) == 0) by (nonlinear_arith);
        }
        while i < n
            invariant
                i <= n,
                n >= self.limbs.len(),
                n >= other.limbs.len(),
                out.len() == i,
                carry <= 1,
                limbs_value(out@) + carry as nat * base_pow(i as nat) == prefix_value(
                    self.limbs@,
                    i as nat,
                ) + prefix_value(other.limbs@, i as nat),
            decreases n - i,
        {
            let x: u64 = if i < self.limbs.len() {
                self.limbs[i]
            } else {
                0
            };
            let y: u64 = if i < other.limbs.len() {
                other.limbs[i]
            } else {
                0
            };
            let wide: u128 = (x as u128) + (y as u128) + (carry as u128);
            let low: u64 = (wide % 0x1_0000_0000_0000_0000) as u64;
            let high: u64 = (wide / 0x1_0000_0000_0000_0000) as u64;
            proof {
                lemma_prefix_step(self.limbs@, i as nat);
                lemma_prefix_step(other.limbs@, i as nat);
                lemma_value_push(out@, low);
                let p = base_pow(i as nat);
                assert(wide == high as nat * base() + low as nat);
                assert(low as nat * p + high as nat * (base() * p) == x as nat * p + y as nat * p
                    + carry as nat * p) by (nonlinear_arith)
                    requires
                        x as nat + y as nat + carry as nat == high as nat * base() + low as nat,
                ;
            }
            out.push(low);
            carry = high;
            i += 1;
        }
        proof {
            lemma_value_push(out@, carry);
            lemma_prefix_all(self.limbs@, n as nat);
            lemma_prefix_all(other.limbs@, n as nat);
        }
        out.push(carry);
        Natural { limbs: out }
    }

    /// The number with its limbs moved up by `j` positions.
    fn shifted(&self, j: usize) -> (r: Natural)
        ensures
            r@ == base_pow(j as nat) * self@,
    {
        let mut out: Vec<u64> = Vec::new();
        let mut k: usize = 0;
        while k < j
            invariant
                k <= j,
                out@ =~= Seq::new(k as nat, |q: int| 0u64),
            decreases j - k,
        {
            out.push(0);
            k += 1;
        }
        let mut i: usize = 0;
        while i < self.limbs.len()
            invariant
                i <= self.limbs.len(),
                out@ =~= Seq::new(j as nat, |q: int| 0u64) + self.limbs@.take(i as int),
            decreases self.limbs.len() - i,
        {
            out.push(self.limbs[i]);
            i += 1;
        }
        proof {
            assert(self.limbs@.take(self.limbs.len() as int) =~= self.limbs@);
            lemma_value_shifted(j as nat, self.limbs@);
        }
        Natural { limbs: out }
    }

    /// The product of the number and `other`.
    pub fn times(&self, other: &Natural) -> (r: Natural)
        ensures
            r@ == self@ * other@,
    {
        let n = other.limbs.len();
        let mut acc = Natural::from_u64(0);
        let mut j: usize = 0;
        proof {
            assert(other.limbs@.take(0).len() == 0);
            assert(self@ * 0 == 0) by (nonlinear_arith);
        }
        while j < n
            invariant
                j <= n,
                n == other.limbs.len(),
                acc@ == self@ * prefix_value(other.limbs@, j as nat),
            decreases n - j,
        {
            let part = self.times_small(other.limbs[j]).shifted(j);
            proof {
                lemma_prefix_step(other.limbs@, j as nat);
                let p = base_pow(j as nat);
                let l = other.limbs[j as int] as nat;
                let v = prefix_value(other.limbs@, j as nat);
                assert(self@ * v + p * (self@ * l) == self@ * (v + l * p)) by (nonlinear_arith);
            }
            acc = acc.plus(&part);
            j += 1;
        }
        proof {
            lemma_prefix_all(other.limbs@, n as nat);
        }
        acc
    }

    /// Whether the number is smaller than `other`.
    pub fn is_less_than(&self, other: &Natural) -> (r: bool)
        ensures
            r == (self@ < other@),
    {
        let n = if self.limbs.len() >= other.limbs.len() {
            self.limbs.len()
        } else {
            other.limbs.len()
        };
        let mut less = false;
        let mut same = true;
        let mut i: usize = 0;
        proof {
            assert(self.limbs@.take(0).len() == 0);
            assert(other.limbs@.take(0).len() == 0);
        }
        while i < n
            invariant
                i <= n,
                n >= self.limbs.len(),
                n >= other.limbs.len(),
                less == (prefix_value(self.limbs@, i as nat) < prefix_value(
                    other.limbs@,
                    i as nat,
                )),
                same == (prefix_value(self.limbs@, i as nat) == prefix_value(
                    other.limbs@,
                    i as nat,
                )),
            decreases n - i,
        {
            let x: u64 = if i < self.limbs.len() {
                self.limbs[i]
            } else {
                0
            };
            let y: u64 = if i < other.limbs.len() {
                other.limbs[i]
            } else {
                0
            };
            proof {
                lemma_prefix_step(self.limbs@, i as nat);
                lemma_prefix_step(other.limbs@, i as nat);
                lemma_prefix_bound(self.limbs@, i as nat);
                lemma_prefix_bound(other.limbs@, i as nat);
                let p = base_pow(i as nat);
                if x < y {
                    assert(x as nat * p + p <= y as nat * p) by (nonlinear_arith)
                        requires
                            x as nat + 1 <= y as nat,
                            p >= 0,
                    ;
                } else if y < x {
                    assert(y as nat * p + p <= x as nat * p) by (nonlinear_arith)
                        requires
                            y as nat + 1 <= x as nat,
                            p >= 0,
                    ;
                }
            }
            if x < y {
                less = true;
                same = false;
            } else if x > y {
                less = false;
                same = false;
            }
            i += 1;
        }
        proof {
            lemma_prefix_all(self.limbs@, n as nat);
            lemma_prefix_all(other.limbs@, n as nat);
        }
        less
    }
}

} // verus!
