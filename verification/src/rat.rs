//! Exact rational scalars.
//!
//! The executable type [`Rat`] stores a numerator and a positive denominator
//! in `i64` fields; every operation computes exactly in `i128`, reduces the
//! result by a common divisor, and reports [`LinError::Overflow`] when the
//! reduced result does not fit.  The mathematical model is the ghost type
//! [`Q`], an integer pair compared by cross multiplication ([`q_eq`]), so a
//! contract can state the exact value of a result without fixing its
//! representation.

use vstd::prelude::*;

verus! {

/// Mathematical rational number as an unreduced pair: `n / d`.
///
/// A pair is meaningful only when `d != 0`; [`q_eq`] compares two pairs by
/// cross multiplication.
pub struct Q {
    /// Numerator.
    pub n: int,
    /// Denominator.
    pub d: int,
}

/// The pair denotes a rational number (its denominator is not zero).
pub open spec fn q_valid(a: Q) -> bool {
    a.d != 0
}

/// `a` and `b` denote the same rational number.
pub open spec fn q_eq(a: Q, b: Q) -> bool {
    a.n * b.d == b.n * a.d
}

/// The rational zero.
pub open spec fn q_zero() -> Q {
    Q { n: 0, d: 1 }
}

/// The rational one.
pub open spec fn q_one() -> Q {
    Q { n: 1, d: 1 }
}

/// Exact sum.
pub open spec fn q_add(a: Q, b: Q) -> Q {
    Q { n: a.n * b.d + b.n * a.d, d: a.d * b.d }
}

/// Exact difference.
pub open spec fn q_sub(a: Q, b: Q) -> Q {
    Q { n: a.n * b.d - b.n * a.d, d: a.d * b.d }
}

/// Exact product.
pub open spec fn q_mul(a: Q, b: Q) -> Q {
    Q { n: a.n * b.n, d: a.d * b.d }
}

/// Exact quotient; meaningful only when `b` is nonzero.
pub open spec fn q_div(a: Q, b: Q) -> Q {
    Q { n: a.n * b.d, d: a.d * b.n }
}

/// The pair denotes a strictly positive rational number.
pub open spec fn q_pos(a: Q) -> bool {
    a.n * a.d > 0
}

/// Strict order: `a < b`.
pub open spec fn q_lt(a: Q, b: Q) -> bool {
    q_pos(q_sub(b, a))
}

/// The pair denotes zero.
pub open spec fn q_is_zero(a: Q) -> bool {
    a.n == 0
}

/// The pair fits the executable representation: positive denominator and
/// both components within `i64` magnitude.
pub open spec fn q_wf(a: Q) -> bool {
    1 <= a.d <= i64::MAX && -i64::MAX <= a.n <= i64::MAX
}

/// Both components of the pair are within `i64` magnitude.  A raw
/// arithmetic result this small always survives the reduce-and-fit step,
/// so it bounds the inputs on which the scalar operations owe success.
pub open spec fn q_small(a: Q) -> bool {
    -i64::MAX <= a.n <= i64::MAX && -i64::MAX <= a.d <= i64::MAX
}

/// `a` is a componentwise-smaller representation than the pair `b`: the
/// numerator keeps its sign and shrinks in magnitude, the denominator
/// shrinks.  Reduction by a common divisor only ever moves a pair this
/// way, which lets a caller bound a stored result by the raw pair it was
/// reduced from.
pub open spec fn q_rep_le(a: Q, b: Q) -> bool {
    &&& a.d <= b.d
    &&& (b.n >= 0 ==> 0 <= a.n <= b.n)
    &&& (b.n < 0 ==> b.n <= a.n <= 0)
}

/// A pair bounded by `xb` divided by `p` stays small whenever `xb`
/// divided by `p` is small.
pub proof fn lemma_div_small_transfer(x: Q, xb: Q, p: Q)
    requires
        q_rep_le(x, xb),
        1 <= x.d,
        q_small(q_div(xb, p)),
    ensures
        q_small(q_div(x, p)),
{
    assert(-(i64::MAX as int) <= x.n * p.d <= i64::MAX as int) by (nonlinear_arith)
        requires
            (xb.n >= 0 ==> 0 <= x.n <= xb.n),
            (xb.n < 0 ==> xb.n <= x.n <= 0),
            -(i64::MAX as int) <= xb.n * p.d <= i64::MAX as int,
    ;
    assert(-(i64::MAX as int) <= x.d * p.n <= i64::MAX as int) by (nonlinear_arith)
        requires
            1 <= x.d <= xb.d,
            -(i64::MAX as int) <= xb.d * p.n <= i64::MAX as int,
    ;
}

/// Subtracting the literal zero pair gives the pair back unchanged.
pub proof fn lemma_sub_zero_pair(v: Q)
    ensures
        q_sub(v, q_zero()) == v,
{
    vstd::arithmetic::mul::lemma_mul_basics(v.n);
    vstd::arithmetic::mul::lemma_mul_basics(v.d);
}

/// Multiplying by the literal one pair gives the pair back unchanged.
pub proof fn lemma_mul_one_pair(v: Q)
    ensures
        q_mul(q_one(), v) == v,
{
    vstd::arithmetic::mul::lemma_mul_basics(v.n);
    vstd::arithmetic::mul::lemma_mul_basics(v.d);
}

/// Errors of the numeric kernel.
#[derive(Clone, Copy, Debug, PartialEq, Eq, Structural)]
pub enum LinError {
    /// An exact result does not fit the fixed-width representation.
    Overflow,
    /// A divisor denotes zero.
    DivisorZero,
    /// A diagonal pivot encountered during elimination denotes zero; the
    /// matrix does not admit LU decomposition without pivoting.
    ZeroPivot,
    /// A one-based index is zero or exceeds the dimension.
    IndexOutOfRange,
    /// A write to a cell outside the stored band, which is structurally zero.
    OutOfBand,
}

/// Exact rational scalar: `num / den` with `den >= 1`.
#[derive(Clone, Copy, Debug, PartialEq, Eq, Structural)]
pub struct Rat {
    num: i64,
    den: i64,
}

impl View for Rat {
    type V = Q;

    closed spec fn view(&self) -> Q {
        Q { n: self.num as int, d: self.den as int }
    }
}

impl Rat {
    /// The representation invariant: positive denominator, and a numerator
    /// whose negation also fits `i64`.
    pub open spec fn wf(self) -> bool {
        q_wf(self@)
    }

    /// The stored numerator.
    pub fn num(self) -> (r: i64)
        ensures
            r == self@.n,
    {
        self.num
    }

    /// The stored denominator.
    pub fn den(self) -> (r: i64)
        ensures
            r == self@.d,
    {
        self.den
    }

    /// The rational zero.
    pub fn zero() -> (r: Rat)
        ensures
            r.wf(),
            r@ == q_zero(),
    {
        Rat { num: 0, den: 1 }
    }

    /// The rational one.
    pub fn one() -> (r: Rat)
        ensures
            r.wf(),
            r@ == q_one(),
    {
        Rat { num: 1, den: 1 }
    }

    /// The integer `i` as a rational.
    pub fn from_int(i: i64) -> (r: Rat)
        requires
            i > i64::MIN,
        ensures
            r.wf(),
            r@ == (Q { n: i as int, d: 1 }),
    {
        Rat { num: i, den: 1 }
    }

    /// Whether this scalar denotes zero.
    pub fn is_zero(self) -> (r: bool)
        ensures
            r == q_is_zero(self@),
    {
        self.num == 0
    }

    /// Build the reduced scalar `n / d` from a wide intermediate result.
    ///
    /// The pair is reduced by a common divisor before the fit check, so a
    /// result that fits `i64` after reduction is never rejected.
    fn make128(n: i128, d: i128) -> (r: Result<Rat, LinError>)
        requires
            1 <= d,
            -i128::MAX <= n,
        ensures
            r is Ok ==> r->Ok_0.wf() && q_eq(r->Ok_0@, Q { n: n as int, d: d as int }),
            r is Ok ==> q_rep_le(r->Ok_0@, Q { n: n as int, d: d as int }),
            r is Err ==> r == Err::<Rat, LinError>(LinError::Overflow),
            (-(i64::MAX as i128) <= n <= i64::MAX as i128 && d <= i64::MAX as i128) ==> r is Ok,
    {
        let neg = n < 0;
        let m: u128 = if neg { (-n) as u128 } else { n as u128 };
        let dd: u128 = d as u128;
        let g: u128 = gcd_u128(m, dd);
        let mut m2: u128 = m;
        let mut d2: u128 = dd;
        if m % g == 0 && dd % g == 0 {
            m2 = m / g;
            d2 = dd / g;
            proof {
                vstd::arithmetic::div_mod::lemma_fundamental_div_mod(m as int, g as int);
                vstd::arithmetic::div_mod::lemma_fundamental_div_mod(dd as int, g as int);
                assert(m == g * m2 && dd == g * d2 && g >= 1 && dd >= 1 ==> m2 * dd == m * d2
                    && m2 <= m && d2 <= dd && d2 >= 1) by (nonlinear_arith);
            }
        }
        assert(m2 * dd == m * d2 && 1 <= d2 <= dd && m2 <= m);
        if m2 <= i64::MAX as u128 && d2 <= i64::MAX as u128 {
            let num64: i64 = if neg {
                -(m2 as i64)
            } else {
                m2 as i64
            };
            let res = Rat { num: num64, den: d2 as i64 };
            proof {
                if neg {
                    assert(m2 as int * (dd as int) == m as int * (d2 as int) ==> (-(m2 as int))
                        * (dd as int) == (-(m as int)) * (d2 as int)) by (nonlinear_arith);
                }
                assert(res@.n * (d as int) == (n as int) * res@.d);
            }
            Ok(res)
        } else {
            Err(LinError::Overflow)
        }
    }

    /// Build the scalar `n / d`.
    pub fn new(n: i64, d: i64) -> (r: Result<Rat, LinError>)
        requires
            n > i64::MIN,
            d > i64::MIN,
        ensures
            r == Err::<Rat, LinError>(LinError::DivisorZero) <==> d == 0,
            r is Ok ==> r->Ok_0.wf() && q_eq(r->Ok_0@, Q { n: n as int, d: d as int }),
            d != 0 ==> r is Ok,
    {
        if d == 0 {
            return Err(LinError::DivisorZero);
        }
        let r = if d > 0 {
            Self::make128(n as i128, d as i128)
        } else {
            Self::make128(-(n as i128), -(d as i128))
        };
        proof {
            if d < 0 && r is Ok {
                let v = r->Ok_0@;
                assert(v.n * (-(d as int)) == (-(n as int)) * v.d ==> v.n * (d as int) == (n as int)
                    * v.d) by (nonlinear_arith);
            }
        }
        r
    }

    /// Exact sum; `Overflow` when the reduced result does not fit.
    /// Success is owed whenever already the raw unreduced pair fits.
    pub fn add(self, rhs: Rat) -> (r: Result<Rat, LinError>)
        requires
            self.wf(),
            rhs.wf(),
        ensures
            r is Ok ==> r->Ok_0.wf() && q_eq(r->Ok_0@, q_add(self@, rhs@)),
            r is Err ==> r == Err::<Rat, LinError>(LinError::Overflow),
            q_small(q_add(self@, rhs@)) ==> r is Ok,
    {
        proof {
            lemma_prod_bound(self@.n, rhs@.d, i64::MAX as int);
            lemma_prod_bound(rhs@.n, self@.d, i64::MAX as int);
            lemma_prod_bound(self@.d, rhs@.d, i64::MAX as int);
            assert(self@.d * rhs@.d >= 1) by (nonlinear_arith)
                requires
                    self@.d >= 1,
                    rhs@.d >= 1,
            ;
        }
        let n: i128 = self.num as i128 * rhs.den as i128 + rhs.num as i128 * self.den as i128;
        let d: i128 = self.den as i128 * rhs.den as i128;
        Self::make128(n, d)
    }

    /// Exact difference; `Overflow` when the reduced result does not fit.
    /// Success is owed whenever already the raw unreduced pair fits.
    pub fn sub(self, rhs: Rat) -> (r: Result<Rat, LinError>)
        requires
            self.wf(),
            rhs.wf(),
        ensures
            r is Ok ==> r->Ok_0.wf() && q_eq(r->Ok_0@, q_sub(self@, rhs@)),
            r is Ok ==> q_rep_le(r->Ok_0@, q_sub(self@, rhs@)),
            r is Err ==> r == Err::<Rat, LinError>(LinError::Overflow),
            q_small(q_sub(self@, rhs@)) ==> r is Ok,
    {
        proof {
            lemma_prod_bound(self@.n, rhs@.d, i64::MAX as int);
            lemma_prod_bound(rhs@.n, self@.d, i64::MAX as int);
            lemma_prod_bound(self@.d, rhs@.d, i64::MAX as int);
            assert(self@.d * rhs@.d >= 1) by (nonlinear_arith)
                requires
                    self@.d >= 1,
                    rhs@.d >= 1,
            ;
        }
        let n: i128 = self.num as i128 * rhs.den as i128 - rhs.num as i128 * self.den as i128;
        let d: i128 = self.den as i128 * rhs.den as i128;
        Self::make128(n, d)
    }

    /// Exact product; `Overflow` when the reduced result does not fit.
    /// Success is owed whenever already the raw unreduced pair fits.
    pub fn mul(self, rhs: Rat) -> (r: Result<Rat, LinError>)
        requires
            self.wf(),
            rhs.wf(),
        ensures
            r is Ok ==> r->Ok_0.wf() && q_eq(r->Ok_0@, q_mul(self@, rhs@)),
            r is Err ==> r == Err::<Rat, LinError>(LinError::Overflow),
            q_small(q_mul(self@, rhs@)) ==> r is Ok,
    {
        proof {
            lemma_prod_bound(self@.n, rhs@.n, i64::MAX as int);
            lemma_prod_bound(self@.d, rhs@.d, i64::MAX as int);
            assert(self@.d * rhs@.d >= 1) by (nonlinear_arith)
                requires
                    self@.d >= 1,
                    rhs@.d >= 1,
            ;
        }
        let n: i128 = self.num as i128 * rhs.num as i128;
        let d: i128 = self.den as i128 * rhs.den as i128;
        Self::make128(n, d)
    }

    /// Exact quotient; `DivisorZero` when `rhs` denotes zero, `Overflow`
    /// when the reduced result does not fit.  Success is owed whenever the
    /// divisor is nonzero and already the raw unreduced pair fits.
    pub fn div(self, rhs: Rat) -> (r: Result<Rat, LinError>)
        requires
            self.wf(),
            rhs.wf(),
        ensures
            r == Err::<Rat, LinError>(LinError::DivisorZero) <==> q_is_zero(rhs@),
            r is Ok ==> r->Ok_0.wf() && q_eq(r->Ok_0@, q_div(self@, rhs@)),
            r is Err ==> r == Err::<Rat, LinError>(LinError::Overflow) || r == Err::<
                Rat,
                LinError,
            >(LinError::DivisorZero),
            !q_is_zero(rhs@) && q_small(q_div(self@, rhs@)) ==> r is Ok,
    {
        if rhs.num == 0 {
            return Err(LinError::DivisorZero);
        }
        proof {
            lemma_prod_bound(self@.n, rhs@.d, i64::MAX as int);
            lemma_prod_bound(self@.d, rhs@.n, i64::MAX as int);
        }
        let n: i128;
        let d: i128;
        if rhs.num > 0 {
            n = self.num as i128 * rhs.den as i128;
            d = self.den as i128 * rhs.num as i128;
            proof {
                assert(d >= 1) by (nonlinear_arith)
                    requires
                        d == self@.d * rhs@.n,
                        self@.d >= 1,
                        rhs@.n >= 1,
                ;
            }
        } else {
            proof {
                lemma_prod_bound(self@.d, -rhs@.n, i64::MAX as int);
            }
            n = -(self.num as i128 * rhs.den as i128);
            d = self.den as i128 * (-(rhs.num as i128));
            proof {
                assert(d >= 1 && d == -(self@.d * rhs@.n)) by (nonlinear_arith)
                    requires
                        d == self@.d * (-rhs@.n),
                        self@.d >= 1,
                        rhs@.n <= -1,
                ;
            }
        }
        let r = Self::make128(n, d);
        proof {
            if r is Ok {
                let v = r->Ok_0@;
                if rhs.num < 0 {
                    assert(v.n * (-(self@.d * rhs@.n)) == (-(self@.n * rhs@.d)) * v.d ==> v.n * (
                    self@.d * rhs@.n) == (self@.n * rhs@.d) * v.d) by (nonlinear_arith);
                }
                assert(q_eq(v, q_div(self@, rhs@)));
            }
        }
        r
    }

    /// Strict order: whether `self < rhs`.
    pub fn lt(self, rhs: Rat) -> (r: bool)
        requires
            self.wf(),
            rhs.wf(),
        ensures
            r == q_lt(self@, rhs@),
    {
        proof {
            lemma_prod_bound(self@.n, rhs@.d, i64::MAX as int);
            lemma_prod_bound(rhs@.n, self@.d, i64::MAX as int);
            lemma_lt_equiv(self@, rhs@);
        }
        (self.num as i128 * rhs.den as i128) < (rhs.num as i128 * self.den as i128)
    }
}

/// A common divisor of `a` and `b`, at least 1.
///
/// The reduction step checks divisibility at run time, so nothing beyond
/// positivity is needed here.
fn gcd_u128(a: u128, b: u128) -> (r: u128)
    requires
        a >= 1 || b >= 1,
    ensures
        r >= 1,
{
    let mut x = a;
    let mut y = b;
    while y != 0
        invariant
            x >= 1 || y >= 1,
        decreases y,
    {
        let t: u128 = x % y;
        x = y;
        y = t;
    }
    x
}

/// Bound on a product of bounded factors.
proof fn lemma_prod_bound(a: int, b: int, m: int)
    by (nonlinear_arith)
    requires
        -m <= a <= m,
        -m <= b <= m,
        0 <= m,
    ensures
        -(m * m) <= a * b <= m * m,
{
}

/// With positive denominators, the strict order is decided by cross
/// multiplication.
proof fn lemma_lt_equiv(a: Q, b: Q)
    by (nonlinear_arith)
    requires
        a.d >= 1,
        b.d >= 1,
    ensures
        q_lt(a, b) <==> a.n * b.d < b.n * a.d,
{
}

/// `q_eq` is transitive when the middle pair is valid.
pub proof fn lemma_q_eq_trans(a: Q, b: Q, c: Q)
    by (nonlinear_arith)
    requires
        q_valid(b),
        q_eq(a, b),
        q_eq(b, c),
    ensures
        q_eq(a, c),
{
}

/// Nonzero factors give a nonzero product.
pub proof fn lemma_prod_nonzero(x: int, y: int)
    by (nonlinear_arith)
    requires
        x != 0,
        y != 0,
    ensures
        x * y != 0,
{
}

/// Rearrangements of a fourfold product.
proof fn lemma_mul_perm4(x: int, y: int, z: int, w: int)
    by (nonlinear_arith)
    ensures
        (x * y) * (z * w) == (x * z) * (y * w),
        (x * y) * (z * w) == (x * w) * (y * z),
        (x * y) * (z * w) == (z * x) * (w * y),
{
}

/// Core of the sum congruence, over plain integers.
proof fn lemma_add_congr_int(an: int, ad: int, bn: int, bd: int, cn: int, cd: int, en: int, ed: int)
    requires
        an * cd == cn * ad,
        bn * ed == en * bd,
    ensures
        (an * bd + bn * ad) * (cd * ed) == (cn * ed + en * cd) * (ad * bd),
{
    vstd::arithmetic::mul::lemma_mul_is_distributive_add_other_way(cd * ed, an * bd, bn * ad);
    vstd::arithmetic::mul::lemma_mul_is_distributive_add_other_way(ad * bd, cn * ed, en * cd);
    lemma_mul_perm4(an, bd, cd, ed);
    assert((an * bd) * (cd * ed) == (an * cd) * (bd * ed));
    assert((an * cd) * (bd * ed) == (cn * ad) * (bd * ed));
    lemma_mul_perm4(cn, ad, bd, ed);
    assert((cn * ad) * (bd * ed) == (cn * ed) * (ad * bd));
    lemma_mul_perm4(bn, ad, cd, ed);
    assert((bn * ad) * (cd * ed) == (bn * ed) * (ad * cd));
    assert((bn * ed) * (ad * cd) == (en * bd) * (ad * cd));
    lemma_mul_perm4(en, bd, ad, cd);
    assert((en * bd) * (ad * cd) == (en * cd) * (bd * ad));
    vstd::arithmetic::mul::lemma_mul_is_commutative(bd, ad);
}

/// Core of the difference congruence, over plain integers.
proof fn lemma_sub_congr_int(an: int, ad: int, bn: int, bd: int, cn: int, cd: int, en: int, ed: int)
    requires
        an * cd == cn * ad,
        bn * ed == en * bd,
    ensures
        (an * bd - bn * ad) * (cd * ed) == (cn * ed - en * cd) * (ad * bd),
{
    vstd::arithmetic::mul::lemma_mul_is_distributive_sub_other_way(cd * ed, an * bd, bn * ad);
    vstd::arithmetic::mul::lemma_mul_is_distributive_sub_other_way(ad * bd, cn * ed, en * cd);
    lemma_mul_perm4(an, bd, cd, ed);
    assert((an * bd) * (cd * ed) == (an * cd) * (bd * ed));
    assert((an * cd) * (bd * ed) == (cn * ad) * (bd * ed));
    lemma_mul_perm4(cn, ad, bd, ed);
    assert((cn * ad) * (bd * ed) == (cn * ed) * (ad * bd));
    lemma_mul_perm4(bn, ad, cd, ed);
    assert((bn * ad) * (cd * ed) == (bn * ed) * (ad * cd));
    assert((bn * ed) * (ad * cd) == (en * bd) * (ad * cd));
    lemma_mul_perm4(en, bd, ad, cd);
    assert((en * bd) * (ad * cd) == (en * cd) * (bd * ad));
    vstd::arithmetic::mul::lemma_mul_is_commutative(bd, ad);
}

/// Core of the product congruence, over plain integers.
proof fn lemma_mul_congr_int(an: int, ad: int, bn: int, bd: int, cn: int, cd: int, en: int, ed: int)
    requires
        an * cd == cn * ad,
        bn * ed == en * bd,
    ensures
        (an * bn) * (cd * ed) == (cn * en) * (ad * bd),
{
    assert((an * bn) * (cd * ed) == (an * cd) * (bn * ed)) by (nonlinear_arith);
    assert((an * cd) * (bn * ed) == (cn * ad) * (en * bd));
    assert((cn * ad) * (en * bd) == (cn * en) * (ad * bd)) by (nonlinear_arith);
}

/// Sums of equal rationals are equal.
pub proof fn lemma_add_congr(a: Q, b: Q, a2: Q, b2: Q)
    requires
        q_valid(a),
        q_valid(b),
        q_valid(a2),
        q_valid(b2),
        q_eq(a, a2),
        q_eq(b, b2),
    ensures
        q_eq(q_add(a, b), q_add(a2, b2)),
        q_valid(q_add(a, b)),
        q_valid(q_add(a2, b2)),
{
    lemma_add_congr_int(a.n, a.d, b.n, b.d, a2.n, a2.d, b2.n, b2.d);
    lemma_prod_nonzero(a.d, b.d);
    lemma_prod_nonzero(a2.d, b2.d);
}

/// Differences of equal rationals are equal.
pub proof fn lemma_sub_congr(a: Q, b: Q, a2: Q, b2: Q)
    requires
        q_valid(a),
        q_valid(b),
        q_valid(a2),
        q_valid(b2),
        q_eq(a, a2),
        q_eq(b, b2),
    ensures
        q_eq(q_sub(a, b), q_sub(a2, b2)),
        q_valid(q_sub(a, b)),
        q_valid(q_sub(a2, b2)),
{
    lemma_sub_congr_int(a.n, a.d, b.n, b.d, a2.n, a2.d, b2.n, b2.d);
    lemma_prod_nonzero(a.d, b.d);
    lemma_prod_nonzero(a2.d, b2.d);
}

/// Products of equal rationals are equal.
pub proof fn lemma_mul_congr(a: Q, b: Q, a2: Q, b2: Q)
    requires
        q_valid(a),
        q_valid(b),
        q_valid(a2),
        q_valid(b2),
        q_eq(a, a2),
        q_eq(b, b2),
    ensures
        q_eq(q_mul(a, b), q_mul(a2, b2)),
        q_valid(q_mul(a, b)),
        q_valid(q_mul(a2, b2)),
{
    lemma_mul_congr_int(a.n, a.d, b.n, b.d, a2.n, a2.d, b2.n, b2.d);
    lemma_prod_nonzero(a.d, b.d);
    lemma_prod_nonzero(a2.d, b2.d);
}

/// Quotients of equal rationals by equal nonzero rationals are equal.
pub proof fn lemma_div_congr(a: Q, b: Q, a2: Q, b2: Q)
    requires
        q_valid(a),
        q_valid(b),
        q_valid(a2),
        q_valid(b2),
        !q_is_zero(b),
        !q_is_zero(b2),
        q_eq(a, a2),
        q_eq(b, b2),
    ensures
        q_eq(q_div(a, b), q_div(a2, b2)),
        q_valid(q_div(a, b)),
        q_valid(q_div(a2, b2)),
{
    let an: int = a.n;
    let ad: int = a.d;
    let bn: int = b.n;
    let bd: int = b.d;
    let cn: int = a2.n;
    let cd: int = a2.d;
    let en: int = b2.n;
    let ed: int = b2.d;
    assert((an * bd) * (cd * en) == (an * cd) * (bd * en)) by (nonlinear_arith);
    assert((an * cd) * (bd * en) == (cn * ad) * (bd * en));
    assert((cn * ad) * (bd * en) == (cn * ad) * (en * bd)) by (nonlinear_arith);
    assert((cn * ad) * (en * bd) == (cn * ad) * (bn * ed));
    assert((cn * ad) * (bn * ed) == (cn * ed) * (ad * bn)) by (nonlinear_arith);
    lemma_prod_nonzero(a.d, b.n);
    lemma_prod_nonzero(a2.d, b2.n);
}

/// Positivity respects `q_eq`.
pub proof fn lemma_pos_congr(a: Q, a2: Q)
    by (nonlinear_arith)
    requires
        q_valid(a),
        q_valid(a2),
        q_eq(a, a2),
    ensures
        q_pos(a) == q_pos(a2),
{
}

/// The strict order respects `q_eq`.
pub proof fn lemma_lt_congr(a: Q, b: Q, a2: Q, b2: Q)
    requires
        q_valid(a),
        q_valid(b),
        q_valid(a2),
        q_valid(b2),
        q_eq(a, a2),
        q_eq(b, b2),
    ensures
        q_lt(a, b) == q_lt(a2, b2),
{
    lemma_sub_congr(b, a, b2, a2);
    lemma_pos_congr(q_sub(b, a), q_sub(b2, a2));
}

/// Whether a pair denotes zero respects `q_eq`.
pub proof fn lemma_zero_congr(a: Q, a2: Q)
    by (nonlinear_arith)
    requires
        q_valid(a),
        q_valid(a2),
        q_eq(a, a2),
    ensures
        q_is_zero(a) == q_is_zero(a2),
{
}

/// Adding a zero-valued pair does not change the denoted value.
pub proof fn lemma_add_zero(s: Q, t: Q)
    by (nonlinear_arith)
    requires
        q_is_zero(t),
    ensures
        q_eq(q_add(s, t), s),
        q_eq(s, q_add(s, t)),
{
}

/// Adding a zero-valued pair on the left does not change the denoted
/// value.
pub proof fn lemma_add_zero_left(t: Q, s: Q)
    by (nonlinear_arith)
    requires
        q_is_zero(t),
    ensures
        q_eq(q_add(t, s), s),
        q_eq(s, q_add(t, s)),
{
}

/// Addition of pairs is commutative up to `q_eq`.
pub proof fn lemma_q_add_comm(a: Q, b: Q)
    by (nonlinear_arith)
    ensures
        q_eq(q_add(a, b), q_add(b, a)),
{
}

/// Multiplication of pairs is commutative up to `q_eq`.
pub proof fn lemma_q_mul_comm(a: Q, b: Q)
    by (nonlinear_arith)
    ensures
        q_eq(q_mul(a, b), q_mul(b, a)),
{
}

/// `s + (x - s)` denotes `x`.
pub proof fn lemma_add_sub_cancel(s: Q, x: Q)
    by (nonlinear_arith)
    requires
        q_valid(s),
        q_valid(x),
    ensures
        q_eq(q_add(s, q_sub(x, s)), x),
{
}

/// `(x / p) * p` denotes `x` for nonzero `p`.
pub proof fn lemma_div_mul_cancel(x: Q, p: Q)
    by (nonlinear_arith)
    requires
        q_valid(x),
        q_valid(p),
        !q_is_zero(p),
    ensures
        q_eq(q_mul(q_div(x, p), p), x),
{
}

/// A computed sum stands for the sum of what its operands stand for.
pub proof fn lemma_chain_add(r: Q, a: Q, b: Q, sa: Q, sb: Q)
    requires
        q_valid(a),
        q_valid(b),
        q_valid(sa),
        q_valid(sb),
        q_eq(r, q_add(a, b)),
        q_eq(a, sa),
        q_eq(b, sb),
    ensures
        q_eq(r, q_add(sa, sb)),
        q_valid(q_add(sa, sb)),
{
    lemma_add_congr(a, b, sa, sb);
    lemma_q_eq_trans(r, q_add(a, b), q_add(sa, sb));
}

/// A computed difference stands for the difference of what its operands
/// stand for.
pub proof fn lemma_chain_sub(r: Q, a: Q, b: Q, sa: Q, sb: Q)
    requires
        q_valid(a),
        q_valid(b),
        q_valid(sa),
        q_valid(sb),
        q_eq(r, q_sub(a, b)),
        q_eq(a, sa),
        q_eq(b, sb),
    ensures
        q_eq(r, q_sub(sa, sb)),
        q_valid(q_sub(sa, sb)),
{
    lemma_sub_congr(a, b, sa, sb);
    lemma_q_eq_trans(r, q_sub(a, b), q_sub(sa, sb));
}

/// A computed product stands for the product of what its operands stand for.
pub proof fn lemma_chain_mul(r: Q, a: Q, b: Q, sa: Q, sb: Q)
    requires
        q_valid(a),
        q_valid(b),
        q_valid(sa),
        q_valid(sb),
        q_eq(r, q_mul(a, b)),
        q_eq(a, sa),
        q_eq(b, sb),
    ensures
        q_eq(r, q_mul(sa, sb)),
        q_valid(q_mul(sa, sb)),
{
    lemma_mul_congr(a, b, sa, sb);
    lemma_q_eq_trans(r, q_mul(a, b), q_mul(sa, sb));
}

/// A computed quotient stands for the quotient of what its operands stand
/// for.
pub proof fn lemma_chain_div(r: Q, a: Q, b: Q, sa: Q, sb: Q)
    requires
        q_valid(a),
        q_valid(b),
        q_valid(sa),
        q_valid(sb),
        !q_is_zero(b),
        !q_is_zero(sb),
        q_eq(r, q_div(a, b)),
        q_eq(a, sa),
        q_eq(b, sb),
    ensures
        q_eq(r, q_div(sa, sb)),
        q_valid(q_div(sa, sb)),
{
    lemma_div_congr(a, b, sa, sb);
    lemma_q_eq_trans(r, q_div(a, b), q_div(sa, sb));
}

/// Rearrangement of a triple product.
proof fn lemma_mul_perm3(x: int, y: int, z: int)
    by (nonlinear_arith)
    ensures
        (x * y) * z == (x * z) * y,
        (x * y) * z == x * (y * z),
        x * (y * z) == (x * z) * y,
{
}

/// Multiplication of pairs is associative up to `q_eq`.
pub proof fn lemma_q_mul_assoc(a: Q, b: Q, c: Q)
    requires
        q_valid(a),
        q_valid(b),
        q_valid(c),
    ensures
        q_eq(q_mul(q_mul(a, b), c), q_mul(a, q_mul(b, c))),
        q_valid(q_mul(q_mul(a, b), c)),
        q_valid(q_mul(a, q_mul(b, c))),
{
    vstd::arithmetic::mul::lemma_mul_is_associative(a.n, b.n, c.n);
    vstd::arithmetic::mul::lemma_mul_is_associative(a.d, b.d, c.d);
    lemma_prod_nonzero(a.d, b.d);
    lemma_prod_nonzero(a.d * b.d, c.d);
}

/// Addition of pairs is associative up to `q_eq`.
pub proof fn lemma_q_add_assoc(a: Q, b: Q, c: Q)
    requires
        q_valid(a),
        q_valid(b),
        q_valid(c),
    ensures
        q_eq(q_add(q_add(a, b), c), q_add(a, q_add(b, c))),
        q_valid(q_add(q_add(a, b), c)),
        q_valid(q_add(a, q_add(b, c))),
{
    vstd::arithmetic::mul::lemma_mul_is_associative(a.d, b.d, c.d);
    vstd::arithmetic::mul::lemma_mul_is_distributive_add_other_way(c.d, a.n * b.d, b.n * a.d);
    vstd::arithmetic::mul::lemma_mul_is_distributive_add_other_way(a.d, b.n * c.d, c.n * b.d);
    lemma_mul_perm3(a.n, b.d, c.d);
    lemma_mul_perm3(b.n, a.d, c.d);
    lemma_mul_perm3(b.n, c.d, a.d);
    lemma_mul_perm3(c.n, a.d, b.d);
    lemma_mul_perm3(c.n, b.d, a.d);
    assert(q_add(q_add(a, b), c).n == q_add(a, q_add(b, c)).n);
    assert(q_add(q_add(a, b), c).d == q_add(a, q_add(b, c)).d);
    lemma_prod_nonzero(a.d, b.d);
    lemma_prod_nonzero(a.d * b.d, c.d);
}

/// Multiplication distributes over addition on the left, up to `q_eq`.
#[verifier::rlimit(50)]
pub proof fn lemma_q_mul_distl(c: Q, u: Q, v: Q)
    requires
        q_valid(c),
        q_valid(u),
        q_valid(v),
    ensures
        q_eq(q_mul(c, q_add(u, v)), q_add(q_mul(c, u), q_mul(c, v))),
        q_valid(q_mul(c, q_add(u, v))),
        q_valid(q_add(q_mul(c, u), q_mul(c, v))),
{
    let lhs = q_mul(c, q_add(u, v));
    let rhs = q_add(q_mul(c, u), q_mul(c, v));
    vstd::arithmetic::mul::lemma_mul_is_distributive_add(c.n, u.n * v.d, v.n * u.d);
    vstd::arithmetic::mul::lemma_mul_is_distributive_add_other_way(
        rhs.d,
        c.n * (u.n * v.d),
        c.n * (v.n * u.d),
    );
    assert((c.n * (u.n * v.d)) * ((c.d * u.d) * (c.d * v.d)) == ((c.n * u.n) * (c.d * v.d)) * (c.d
        * (u.d * v.d))) by (nonlinear_arith);
    assert((c.n * (v.n * u.d)) * ((c.d * u.d) * (c.d * v.d)) == ((c.n * v.n) * (c.d * u.d)) * (c.d
        * (u.d * v.d))) by (nonlinear_arith);
    vstd::arithmetic::mul::lemma_mul_is_distributive_add_other_way(
        lhs.d,
        (c.n * u.n) * (c.d * v.d),
        (c.n * v.n) * (c.d * u.d),
    );
    lemma_prod_nonzero(u.d, v.d);
    lemma_prod_nonzero(c.d, u.d * v.d);
    lemma_prod_nonzero(c.d, u.d);
    lemma_prod_nonzero(c.d, v.d);
    lemma_prod_nonzero(c.d * u.d, c.d * v.d);
}

/// Multiplication distributes over addition on the right, up to `q_eq`.
#[verifier::rlimit(100)]
pub proof fn lemma_q_mul_distr(u: Q, v: Q, c: Q)
    requires
        q_valid(c),
        q_valid(u),
        q_valid(v),
    ensures
        q_eq(q_mul(q_add(u, v), c), q_add(q_mul(u, c), q_mul(v, c))),
        q_valid(q_mul(q_add(u, v), c)),
        q_valid(q_add(q_mul(u, c), q_mul(v, c))),
{
    let lhs = q_mul(q_add(u, v), c);
    let rhs = q_add(q_mul(u, c), q_mul(v, c));
    vstd::arithmetic::mul::lemma_mul_is_distributive_add_other_way(c.n, u.n * v.d, v.n * u.d);
    vstd::arithmetic::mul::lemma_mul_is_distributive_add_other_way(
        rhs.d,
        (u.n * v.d) * c.n,
        (v.n * u.d) * c.n,
    );
    assert(((u.n * v.d) * c.n) * ((u.d * c.d) * (v.d * c.d)) == ((u.n * c.n) * (v.d * c.d)) * ((u.d
        * v.d) * c.d)) by (nonlinear_arith);
    assert(((v.n * u.d) * c.n) * ((u.d * c.d) * (v.d * c.d)) == ((v.n * c.n) * (u.d * c.d)) * ((u.d
        * v.d) * c.d)) by (nonlinear_arith);
    vstd::arithmetic::mul::lemma_mul_is_distributive_add_other_way(
        lhs.d,
        (u.n * c.n) * (v.d * c.d),
        (v.n * c.n) * (u.d * c.d),
    );
    lemma_prod_nonzero(u.d, v.d);
    lemma_prod_nonzero(u.d * v.d, c.d);
    lemma_prod_nonzero(u.d, c.d);
    lemma_prod_nonzero(v.d, c.d);
    lemma_prod_nonzero(u.d * c.d, v.d * c.d);
}

/// Two sums of sums regroup into sums of their columns, up to `q_eq`.
pub proof fn lemma_q_add_shuffle(a: Q, b: Q, c: Q, d: Q)
    requires
        q_valid(a),
        q_valid(b),
        q_valid(c),
        q_valid(d),
    ensures
        q_eq(q_add(q_add(a, b), q_add(c, d)), q_add(q_add(a, c), q_add(b, d))),
        q_valid(q_add(q_add(a, b), q_add(c, d))),
        q_valid(q_add(q_add(a, c), q_add(b, d))),
{
    lemma_prod_nonzero(a.d, b.d);
    lemma_prod_nonzero(c.d, d.d);
    lemma_prod_nonzero(b.d, c.d * d.d);
    lemma_prod_nonzero(b.d, d.d);
    lemma_prod_nonzero(c.d, b.d * d.d);
    lemma_prod_nonzero(a.d, c.d);
    lemma_prod_nonzero(a.d * b.d, c.d * d.d);
    lemma_prod_nonzero(a.d * c.d, b.d * d.d);
    lemma_prod_nonzero(a.d, b.d * (c.d * d.d));
    lemma_prod_nonzero(a.d, c.d * (b.d * d.d));
    // (a+b)+(c+d) ~ a+(b+(c+d))
    lemma_q_add_assoc(a, b, q_add(c, d));
    // b+(c+d) ~ (b+c)+d ~ (c+b)+d ~ c+(b+d)
    lemma_prod_nonzero(b.d, c.d);
    lemma_prod_nonzero(c.d, b.d);
    lemma_q_add_assoc(b, c, d);
    lemma_q_add_comm(b, c);
    lemma_add_congr(q_add(b, c), d, q_add(c, b), d);
    lemma_q_add_assoc(c, b, d);
    lemma_q_eq_trans(q_add(b, q_add(c, d)), q_add(q_add(b, c), d), q_add(q_add(c, b), d));
    lemma_q_eq_trans(q_add(b, q_add(c, d)), q_add(q_add(c, b), d), q_add(c, q_add(b, d)));
    // a+(b+(c+d)) ~ a+(c+(b+d)) ~ (a+c)+(b+d)
    lemma_add_congr(a, q_add(b, q_add(c, d)), a, q_add(c, q_add(b, d)));
    lemma_q_add_assoc(a, c, q_add(b, d));
    lemma_q_eq_trans(
        q_add(q_add(a, b), q_add(c, d)),
        q_add(a, q_add(b, q_add(c, d))),
        q_add(a, q_add(c, q_add(b, d))),
    );
    lemma_q_eq_trans(
        q_add(q_add(a, b), q_add(c, d)),
        q_add(a, q_add(c, q_add(b, d))),
        q_add(q_add(a, c), q_add(b, d)),
    );
}

} // verus!
