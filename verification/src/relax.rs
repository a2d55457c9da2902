//! Jacobi and Gauss-Seidel relaxation.
//!
//! Both single-step functions compute the next approximation exactly; the
//! convergence-driving wrappers iterate until the squared Euclidean norm of
//! the change falls below the square of the tolerance, or the iteration
//! budget runs out.  Running out is a normal outcome, reported as `None`,
//! never as an error.

use vstd::prelude::*;

use crate::matrix::BandMatrix;
use crate::rat::{
    lemma_chain_add, lemma_chain_div, lemma_chain_mul, lemma_chain_sub, lemma_lt_congr,
    lemma_prod_nonzero, lemma_q_eq_trans, q_add, q_div, q_eq, q_is_zero, q_lt, q_mul, q_sub,
    q_valid, q_zero, LinError, Q, Rat,
};
use crate::vector::{
    lemma_norm_sq_congr, lemma_seq_norm_sq_valid, seq_diff, seq_norm_sq, seq_wf, Vector,
};

verus! {

/// Row sum: over `t` in `1..=cut`, `a(row, t) * v(t)`.
pub open spec fn row_dot(a: BandMatrix, row: int, v: Seq<Q>, cut: int) -> Q
    decreases cut,
{
    if cut <= 0 {
        q_zero()
    } else {
        q_add(row_dot(a, row, v, cut - 1), q_mul(a.at_q(row, cut), v[cut - 1]))
    }
}

/// Row suffix sum: over `t` in `from..=len(v)`, `a(row, t) * v(t)`.
pub open spec fn row_dot_from(a: BandMatrix, row: int, v: Seq<Q>, from: int) -> Q
    decreases v.len() + 1 - from,
{
    if from < 1 || from > v.len() {
        q_zero()
    } else {
        q_add(q_mul(a.at_q(row, from), v[from - 1]), row_dot_from(a, row, v, from + 1))
    }
}

/// Every diagonal entry denotes a nonzero rational: the divisor of every
/// relaxation step.
pub open spec fn diag_nonzero(a: BandMatrix) -> bool {
    forall|i: int| 1 <= i <= a.dim() ==> !q_is_zero(#[trigger] a.at_q(i, i))
}

/// `next` is the exact Jacobi step from `x`: every row is computed from
/// the previous vector alone.
pub open spec fn jacobi_step_ok(a: BandMatrix, x: Seq<Q>, b: Seq<Q>, next: Seq<Q>) -> bool {
    &&& next.len() == a.dim()
    &&& forall|i: int|
        1 <= i <= a.dim() ==> q_eq(
            #[trigger] next[i - 1],
            q_div(
                q_sub(q_sub(b[i - 1], row_dot(a, i, x, i - 1)), row_dot_from(a, i, x, i + 1)),
                a.at_q(i, i),
            ),
        )
}

/// `next` is the exact Gauss-Seidel sweep from `x`: rows below the current
/// one read the freshly updated entries of `next` itself.
pub open spec fn gauss_seidel_step_ok(a: BandMatrix, x: Seq<Q>, b: Seq<Q>, next: Seq<Q>) -> bool {
    &&& next.len() == a.dim()
    &&& forall|i: int|
        1 <= i <= a.dim() ==> q_eq(
            #[trigger] next[i - 1],
            q_div(
                q_sub(q_sub(b[i - 1], row_dot(a, i, next, i - 1)), row_dot_from(a, i, x, i + 1)),
                a.at_q(i, i),
            ),
        )
}

/// The step from `prev` to `next` meets the tolerance: the squared norm of
/// the change is below the squared tolerance.  For a nonnegative tolerance
/// — the only kind the drivers accept — this is the same criterion as
/// comparing the Euclidean norm itself against the tolerance, stated on
/// squares so that it stays rational.
pub open spec fn converged(prev: Seq<Q>, next: Seq<Q>, eps: Q) -> bool {
    q_lt(seq_norm_sq(seq_diff(prev, next), prev.len() as int), q_mul(eps, eps))
}

/// `chain` records Jacobi iterates from `x0`: each element is the exact
/// step from the one before it.
pub open spec fn jacobi_chain(a: BandMatrix, b: Seq<Q>, x0: Seq<Q>, chain: Seq<Seq<Q>>) -> bool {
    &&& chain.len() >= 1
    &&& chain[0] == x0
    &&& forall|s: int| 0 <= s < chain.len() ==> seq_wf(#[trigger] chain[s])
    &&& forall|s: int| 0 <= s < chain.len() - 1 ==> jacobi_step_ok(a, chain[s], b, #[trigger] chain[s + 1])
}

/// `chain` records Gauss-Seidel iterates from `x0`.
pub open spec fn gauss_seidel_chain(
    a: BandMatrix,
    b: Seq<Q>,
    x0: Seq<Q>,
    chain: Seq<Seq<Q>>,
) -> bool {
    &&& chain.len() >= 1
    &&& chain[0] == x0
    &&& forall|s: int| 0 <= s < chain.len() ==> seq_wf(#[trigger] chain[s])
    &&& forall|s: int|
        0 <= s < chain.len() - 1 ==> gauss_seidel_step_ok(a, chain[s], b, #[trigger] chain[s + 1])
}

/// What a convergence-driving wrapper reports about its chain of iterates:
/// `Some` is the first iterate meeting the tolerance within the budget,
/// `None` means the whole budget ran without meeting it.
pub open spec fn relax_outcome(chain: Seq<Seq<Q>>, out: Option<Vector>, eps: Q, max: int) -> bool {
    let steps = chain.len() - 1;
    match out {
        Some(res) => {
            &&& 1 <= steps <= max
            &&& res@ == chain[steps]
            &&& res.wf()
            &&& converged(chain[steps - 1], chain[steps], eps)
            &&& forall|s: int| 1 <= s < steps ==> !converged(chain[s - 1], #[trigger] chain[s], eps)
        },
        None => {
            &&& steps == max
            &&& forall|s: int| 1 <= s <= steps ==> !converged(chain[s - 1], #[trigger] chain[s], eps)
        },
    }
}

/// The row sum reads only the first `cut` entries of `v`.
proof fn lemma_row_dot_frame(a: BandMatrix, row: int, v1: Seq<Q>, v2: Seq<Q>, cut: int)
    requires
        forall|i: int| 0 <= i < cut ==> v1[i] == v2[i],
        cut <= v1.len(),
        cut <= v2.len(),
    ensures
        row_dot(a, row, v1, cut) == row_dot(a, row, v2, cut),
    decreases cut,
{
    if cut > 0 {
        lemma_row_dot_frame(a, row, v1, v2, cut - 1);
    }
}

/// The row sum over representable entries is valid.
pub proof fn lemma_row_dot_valid(a: BandMatrix, row: int, v: Seq<Q>, cut: int)
    requires
        a.wf(),
        seq_wf(v),
        cut <= v.len(),
    ensures
        q_valid(row_dot(a, row, v, cut)),
    decreases cut,
{
    if cut > 0 {
        lemma_row_dot_valid(a, row, v, cut - 1);
        a.lemma_at_wf(row, cut);
        lemma_prod_nonzero(a.at_q(row, cut).d, v[cut - 1].d);
        lemma_prod_nonzero(row_dot(a, row, v, cut - 1).d, q_mul(a.at_q(row, cut), v[cut - 1]).d);
    }
}

/// The row suffix sum over representable entries is valid.
proof fn lemma_row_dot_from_valid(a: BandMatrix, row: int, v: Seq<Q>, from: int)
    requires
        a.wf(),
        seq_wf(v),
    ensures
        q_valid(row_dot_from(a, row, v, from)),
    decreases v.len() + 1 - from,
{
    if 1 <= from && from <= v.len() {
        lemma_row_dot_from_valid(a, row, v, from + 1);
        a.lemma_at_wf(row, from);
        lemma_prod_nonzero(a.at_q(row, from).d, v[from - 1].d);
        lemma_prod_nonzero(
            q_mul(a.at_q(row, from), v[from - 1]).d,
            row_dot_from(a, row, v, from + 1).d,
        );
    }
}

impl BandMatrix {
    /// One relaxation row: `(b(i) - lower - upper) / a(i,i)`, where `lower`
    /// sums columns `1..i` over `lov` and `upper` sums columns `i+1..=n`
    /// over `upv`.
    fn relax_row(&self, i: usize, lov: &Vector, upv: &Vector, b: &Vector) -> (r: Result<
        Rat,
        LinError,
    >)
        requires
            self.wf(),
            diag_nonzero(*self),
            lov.wf(),
            upv.wf(),
            b.wf(),
            lov@.len() == self.dim(),
            upv@.len() == self.dim(),
            b@.len() == self.dim(),
            1 <= i <= self.dim(),
        ensures
            r is Ok ==> r->Ok_0.wf() && q_eq(
                r->Ok_0@,
                q_div(
                    q_sub(
                        q_sub(b@[i - 1], row_dot(*self, i as int, lov@, i as int - 1)),
                        row_dot_from(*self, i as int, upv@, i as int + 1),
                    ),
                    self.at_q(i as int, i as int),
                ),
            ),
            r is Err ==> r == Err::<Rat, LinError>(LinError::Overflow),
            self.dim() == 1 && crate::rat::q_small(q_div(b@[0], self.at_q(1, 1))) ==> r is Ok,
    {
        let n: usize = self.n();
        proof {
            self.lemma_dim_bound();
        }
        let ghost a = *self;
        // lower sum over the columns left of the diagonal
        let mut s = Rat::zero();
        let mut t: usize = 1;
        while t < i
            invariant
                a == *self,
                a.wf(),
                lov.wf(),
                lov@.len() == a.dim(),
                1 <= i <= a.dim(),
                1 <= t <= i,
                s.wf(),
                t == 1 ==> s@ == crate::rat::q_zero(),
                q_eq(s@, row_dot(a, i as int, lov@, t as int - 1)),
            decreases i - t,
        {
            let av = self.get(i, t);
            let xv = lov.get(t);
            let term = match av.mul(xv) {
                Ok(v) => v,
                Err(_) => {
                    return Err(LinError::Overflow);
                },
            };
            let s2 = match s.add(term) {
                Ok(v) => v,
                Err(_) => {
                    return Err(LinError::Overflow);
                },
            };
            proof {
                lemma_row_dot_valid(a, i as int, lov@, t as int - 1);
                a.lemma_at_wf(i as int, t as int);
                lemma_prod_nonzero(a.at_q(i as int, t as int).d, lov@[t as int - 1].d);
                lemma_chain_mul(term@, av@, xv@, a.at_q(i as int, t as int), lov@[t as int - 1]);
                lemma_chain_add(
                    s2@,
                    s@,
                    term@,
                    row_dot(a, i as int, lov@, t as int - 1),
                    q_mul(a.at_q(i as int, t as int), lov@[t as int - 1]),
                );
            }
            s = s2;
            t = t + 1;
        }
        // upper sum over the columns right of the diagonal
        let mut su = Rat::zero();
        let mut tu: usize = n;
        while tu > i
            invariant
                a == *self,
                a.wf(),
                upv.wf(),
                upv@.len() == a.dim(),
                n == a.dim(),
                1 <= i <= a.dim(),
                i <= tu <= n,
                su.wf(),
                tu == n ==> su@ == crate::rat::q_zero(),
                q_eq(su@, row_dot_from(a, i as int, upv@, tu as int + 1)),
            decreases tu,
        {
            let av = self.get(i, tu);
            let xv = upv.get(tu);
            let term = match av.mul(xv) {
                Ok(v) => v,
                Err(_) => {
                    return Err(LinError::Overflow);
                },
            };
            let su2 = match term.add(su) {
                Ok(v) => v,
                Err(_) => {
                    return Err(LinError::Overflow);
                },
            };
            proof {
                lemma_row_dot_from_valid(a, i as int, upv@, tu as int + 1);
                a.lemma_at_wf(i as int, tu as int);
                lemma_prod_nonzero(a.at_q(i as int, tu as int).d, upv@[tu as int - 1].d);
                lemma_chain_mul(term@, av@, xv@, a.at_q(i as int, tu as int), upv@[tu as int - 1]);
                lemma_chain_add(
                    su2@,
                    term@,
                    su@,
                    q_mul(a.at_q(i as int, tu as int), upv@[tu as int - 1]),
                    row_dot_from(a, i as int, upv@, tu as int + 1),
                );
            }
            su = su2;
            tu = tu - 1;
        }
        let bv = b.get(i);
        let inner = match bv.sub(s) {
            Ok(v) => v,
            Err(_) => {
                proof {
                    if a.dim() == 1 {
                        crate::rat::lemma_sub_zero_pair(bv@);
                    }
                }
                return Err(LinError::Overflow);
            },
        };
        let num = match inner.sub(su) {
            Ok(v) => v,
            Err(_) => {
                proof {
                    if a.dim() == 1 {
                        crate::rat::lemma_sub_zero_pair(inner@);
                    }
                }
                return Err(LinError::Overflow);
            },
        };
        let dv = self.get(i, i);
        let r = match num.div(dv) {
            Ok(v) => v,
            Err(_) => {
                proof {
                    if a.dim() == 1 && crate::rat::q_small(q_div(b@[0], a.at_q(1, 1))) {
                        crate::rat::lemma_sub_zero_pair(bv@);
                        crate::rat::lemma_sub_zero_pair(inner@);
                        assert(crate::rat::q_rep_le(num@, b@[0]));
                        crate::rat::lemma_div_small_transfer(num@, b@[0], dv@);
                    }
                }
                return Err(LinError::Overflow);
            },
        };
        proof {
            let lsum = row_dot(a, i as int, lov@, i as int - 1);
            let usum = row_dot_from(a, i as int, upv@, i as int + 1);
            lemma_row_dot_valid(a, i as int, lov@, i as int - 1);
            lemma_row_dot_from_valid(a, i as int, upv@, i as int + 1);
            lemma_chain_sub(inner@, bv@, s@, b@[i as int - 1], lsum);
            lemma_prod_nonzero(b@[i as int - 1].d, lsum.d);
            lemma_chain_sub(num@, inner@, su@, q_sub(b@[i as int - 1], lsum), usum);
            lemma_prod_nonzero(q_sub(b@[i as int - 1], lsum).d, usum.d);
            a.lemma_at_wf(i as int, i as int);
            lemma_chain_div(
                r@,
                num@,
                dv@,
                q_sub(q_sub(b@[i as int - 1], lsum), usum),
                a.at_q(i as int, i as int),
            );
        }
        Ok(r)
    }

    /// One Jacobi iteration: the next approximation, every row computed
    /// from the previous vector alone.
    pub fn jacobi_iteration(&self, x: &Vector, b: &Vector) -> (r: Result<Vector, LinError>)
        requires
            self.wf(),
            diag_nonzero(*self),
            x.wf(),
            b.wf(),
            x@.len() == self.dim(),
            b@.len() == self.dim(),
        ensures
            r is Ok ==> r->Ok_0.wf() && jacobi_step_ok(*self, x@, b@, r->Ok_0@),
            r is Err ==> r == Err::<Vector, LinError>(LinError::Overflow),
            self.dim() == 1 && crate::rat::q_small(q_div(b@[0], self.at_q(1, 1))) ==> r is Ok,
    {
        let n: usize = self.n();
        proof {
            self.lemma_dim_bound();
        }
        let ghost a = *self;
        let mut next = Vector::new(n);
        let mut i: usize = 1;
        while i <= n
            invariant
                a == *self,
                a.wf(),
                diag_nonzero(a),
                x.wf(),
                b.wf(),
                x@.len() == a.dim(),
                b@.len() == a.dim(),
                n == a.dim(),
                n < usize::MAX,
                1 <= i <= n + 1,
                next.wf(),
                next@.len() == n,
                forall|r2: int|
                    1 <= r2 < i as int ==> q_eq(
                        #[trigger] next@[r2 - 1],
                        q_div(
                            q_sub(
                                q_sub(b@[r2 - 1], row_dot(a, r2, x@, r2 - 1)),
                                row_dot_from(a, r2, x@, r2 + 1),
                            ),
                            a.at_q(r2, r2),
                        ),
                    ),
            decreases n + 1 - i,
        {
            let val = match self.relax_row(i, x, x, b) {
                Ok(v) => v,
                Err(_) => {
                    return Err(LinError::Overflow);
                },
            };
            next.set(i, val);
            i = i + 1;
        }
        Ok(next)
    }

    /// One Gauss-Seidel iteration: rows below the current one already use
    /// the freshly updated entries.
    pub fn gauss_seidel_iteration(&self, x: &Vector, b: &Vector) -> (r: Result<Vector, LinError>)
        requires
            self.wf(),
            diag_nonzero(*self),
            x.wf(),
            b.wf(),
            x@.len() == self.dim(),
            b@.len() == self.dim(),
        ensures
            r is Ok ==> r->Ok_0.wf() && gauss_seidel_step_ok(*self, x@, b@, r->Ok_0@),
            r is Err ==> r == Err::<Vector, LinError>(LinError::Overflow),
            self.dim() == 1 && crate::rat::q_small(q_div(b@[0], self.at_q(1, 1))) ==> r is Ok,
    {
        let n: usize = self.n();
        proof {
            self.lemma_dim_bound();
        }
        let ghost a = *self;
        let mut next = Vector::new(n);
        let mut i: usize = 1;
        while i <= n
            invariant
                a == *self,
                a.wf(),
                diag_nonzero(a),
                x.wf(),
                b.wf(),
                x@.len() == a.dim(),
                b@.len() == a.dim(),
                n == a.dim(),
                n < usize::MAX,
                1 <= i <= n + 1,
                next.wf(),
                next@.len() == n,
                forall|r2: int|
                    1 <= r2 < i as int ==> q_eq(
                        #[trigger] next@[r2 - 1],
                        q_div(
                            q_sub(
                                q_sub(b@[r2 - 1], row_dot(a, r2, next@, r2 - 1)),
                                row_dot_from(a, r2, x@, r2 + 1),
                            ),
                            a.at_q(r2, r2),
                        ),
                    ),
            decreases n + 1 - i,
        {
            let val = match self.relax_row(i, &next, x, b) {
                Ok(v) => v,
                Err(_) => {
                    return Err(LinError::Overflow);
                },
            };
            let ghost next1 = next@;
            next.set(i, val);
            proof {
                assert forall|r2: int| 1 <= r2 < i as int + 1 implies q_eq(
                    #[trigger] next@[r2 - 1],
                    q_div(
                        q_sub(
                            q_sub(b@[r2 - 1], row_dot(a, r2, next@, r2 - 1)),
                            row_dot_from(a, r2, x@, r2 + 1),
                        ),
                        a.at_q(r2, r2),
                    ),
                ) by {
                    lemma_row_dot_frame(a, r2, next1, next@, r2 - 1);
                    if r2 < i as int {
                        assert(next@[r2 - 1] == next1[r2 - 1]);
                    }
                }
            }
            i = i + 1;
        }
        Ok(next)
    }

    /// Whether the step from `prev` to `next` meets the tolerance, checked
    /// on the squared norm of the change against the squared tolerance.
    fn check_converged(prev: &Vector, next: &Vector, epsilon: Rat) -> (r: Result<bool, LinError>)
        requires
            prev.wf(),
            next.wf(),
            epsilon.wf(),
            prev@.len() == next@.len(),
        ensures
            r is Ok ==> r->Ok_0 == converged(prev@, next@, epsilon@),
            r is Err ==> r == Err::<bool, LinError>(LinError::Overflow),
    {
        let d = match prev.sub(next) {
            Ok(v) => v,
            Err(_) => {
                return Err(LinError::Overflow);
            },
        };
        let nsq = match d.norm_sq() {
            Ok(v) => v,
            Err(_) => {
                return Err(LinError::Overflow);
            },
        };
        let eps2 = match epsilon.mul(epsilon) {
            Ok(v) => v,
            Err(_) => {
                return Err(LinError::Overflow);
            },
        };
        let r = nsq.lt(eps2);
        proof {
            let dd = seq_diff(prev@, next@);
            let len = prev@.len() as int;
            assert forall|k: int| 0 <= k < len implies q_valid(#[trigger] dd[k]) && q_valid(
                d@[k],
            ) && q_eq(d@[k], dd[k]) by {
                lemma_prod_nonzero(prev@[k].d, next@[k].d);
            }
            lemma_norm_sq_congr(d@, dd, len);
            lemma_seq_norm_sq_valid(d@, len);
            lemma_q_eq_trans(nsq@, seq_norm_sq(d@, len), seq_norm_sq(dd, len));
            lemma_prod_nonzero(epsilon@.d, epsilon@.d);
            lemma_lt_congr(nsq@, eps2@, seq_norm_sq(dd, len), q_mul(epsilon@, epsilon@));
        }
        Ok(r)
    }

    /// Run Jacobi from starting vector `x` until the tolerance is met,
    /// returning the first iterate that meets it, or `None` when the
    /// iteration budget runs out first.  The tolerance must not be
    /// negative: a negative bound on a norm can never be met.
    pub fn jacobi(&self, x: Vector, b: &Vector, epsilon: Rat, max_iters: usize) -> (r: Result<
        Option<Vector>,
        LinError,
    >)
        requires
            self.wf(),
            diag_nonzero(*self),
            x.wf(),
            b.wf(),
            x@.len() == self.dim(),
            b@.len() == self.dim(),
            epsilon.wf(),
            !q_lt(epsilon@, q_zero()),
        ensures
            r is Ok ==> exists|chain: Seq<Seq<Q>>|
                #[trigger] jacobi_chain(*self, b@, x@, chain) && relax_outcome(
                    chain,
                    r->Ok_0,
                    epsilon@,
                    max_iters as int,
                ),
            r is Err ==> r == Err::<Option<Vector>, LinError>(LinError::Overflow),
            max_iters == 0 ==> r is Ok && r->Ok_0 is None,
    {
        let ghost a = *self;
        let mut cur = x;
        let ghost mut chain: Seq<Seq<Q>> = seq![x@];
        let mut it: usize = 0;
        while it < max_iters
            invariant
                a == *self,
                a.wf(),
                diag_nonzero(a),
                b.wf(),
                b@.len() == a.dim(),
                epsilon.wf(),
                0 <= it <= max_iters,
                cur.wf(),
                cur@.len() == a.dim(),
                chain.len() == it + 1,
                chain.last() == cur@,
                jacobi_chain(a, b@, x@, chain),
                forall|s: int|
                    1 <= s <= it as int ==> !converged(chain[s - 1], #[trigger] chain[s], epsilon@),
            decreases max_iters - it,
        {
            let next = match self.jacobi_iteration(&cur, b) {
                Ok(v) => v,
                Err(_) => {
                    return Err(LinError::Overflow);
                },
            };
            let conv = match Self::check_converged(&cur, &next, epsilon) {
                Ok(v) => v,
                Err(_) => {
                    return Err(LinError::Overflow);
                },
            };
            proof {
                chain = chain.push(next@);
            }
            if conv {
                proof {
                    assert(jacobi_chain(a, b@, x@, chain));
                    assert(relax_outcome(chain, Some(next), epsilon@, max_iters as int));
                }
                return Ok(Some(next));
            }
            cur = next;
            it = it + 1;
        }
        proof {
            assert(jacobi_chain(a, b@, x@, chain));
            assert(relax_outcome(chain, None::<Vector>, epsilon@, max_iters as int));
        }
        Ok(None)
    }

    /// Run Gauss-Seidel from starting vector `x` until the tolerance is
    /// met, returning the first iterate that meets it, or `None` when the
    /// iteration budget runs out first.  The tolerance must not be
    /// negative: a negative bound on a norm can never be met.
    pub fn gauss_seidel(&self, x: Vector, b: &Vector, epsilon: Rat, max_iters: usize) -> (r:
        Result<Option<Vector>, LinError>)
        requires
            self.wf(),
            diag_nonzero(*self),
            x.wf(),
            b.wf(),
            x@.len() == self.dim(),
            b@.len() == self.dim(),
            epsilon.wf(),
            !q_lt(epsilon@, q_zero()),
        ensures
            r is Ok ==> exists|chain: Seq<Seq<Q>>|
                #[trigger] gauss_seidel_chain(*self, b@, x@, chain) && relax_outcome(
                    chain,
                    r->Ok_0,
                    epsilon@,
                    max_iters as int,
                ),
            r is Err ==> r == Err::<Option<Vector>, LinError>(LinError::Overflow),
            max_iters == 0 ==> r is Ok && r->Ok_0 is None,
    {
        let ghost a = *self;
        let mut cur = x;
        let ghost mut chain: Seq<Seq<Q>> = seq![x@];
        let mut it: usize = 0;
        while it < max_iters
            invariant
                a == *self,
                a.wf(),
                diag_nonzero(a),
                b.wf(),
                b@.len() == a.dim(),
                epsilon.wf(),
                0 <= it <= max_iters,
                cur.wf(),
                cur@.len() == a.dim(),
                chain.len() == it + 1,
                chain.last() == cur@,
                gauss_seidel_chain(a, b@, x@, chain),
                forall|s: int|
                    1 <= s <= it as int ==> !converged(chain[s - 1], #[trigger] chain[s], epsilon@),
            decreases max_iters - it,
        {
            let next = match self.gauss_seidel_iteration(&cur, b) {
                Ok(v) => v,
                Err(_) => {
                    return Err(LinError::Overflow);
                },
            };
            let conv = match Self::check_converged(&cur, &next, epsilon) {
                Ok(v) => v,
                Err(_) => {
                    return Err(LinError::Overflow);
                },
            };
            proof {
                chain = chain.push(next@);
            }
            if conv {
                proof {
                    assert(gauss_seidel_chain(a, b@, x@, chain));
                    assert(relax_outcome(chain, Some(next), epsilon@, max_iters as int));
                }
                return Ok(Some(next));
            }
            cur = next;
            it = it + 1;
        }
        proof {
            assert(gauss_seidel_chain(a, b@, x@, chain));
            assert(relax_outcome(chain, None::<Vector>, epsilon@, max_iters as int));
        }
        Ok(None)
    }
}

} // verus!
