//! Rank-one update solving by the Sherman-Morrison identity.
//!
//! Solves `(A' + u v^T) x = b` with `u = v` the all-ones vector, using one
//! factorization of `A'` and two triangular solves instead of refactoring
//! the dense perturbed matrix.

use vstd::prelude::*;

use crate::lu::{factors, triangular_solution};
use crate::matrix::BandMatrix;
use crate::rat::{
    lemma_chain_div, lemma_chain_sub, lemma_prod_nonzero, lemma_zero_congr, q_add, q_div, q_eq,
    q_is_zero, q_mul, q_one, q_sub, LinError, Q, Rat,
};
use crate::vector::{seq_sum, seq_wf, Vector};

verus! {

/// The all-ones vector of length `n`.
pub open spec fn q_ones(n: int) -> Seq<Q> {
    Seq::new(n as nat, |k: int| q_one())
}

/// `x` is the Sherman-Morrison combination `y - z * sy / (1 + sz)`, where
/// `sy` and `sz` denote the entry sums of `y` and `z`.
pub open spec fn sherman_combination(y: Seq<Q>, z: Seq<Q>, sy: Q, sz: Q, x: Seq<Q>) -> bool {
    &&& q_eq(sy, seq_sum(y, y.len() as int))
    &&& q_eq(sz, seq_sum(z, z.len() as int))
    &&& !q_is_zero(q_add(q_one(), sz))
    &&& x.len() == y.len()
    &&& forall|k: int|
        0 <= k < x.len() ==> q_eq(
            #[trigger] x[k],
            q_sub(y[k], q_div(q_mul(z[k], sy), q_add(q_one(), sz))),
        )
}

/// Solve `(A' + u v^T) x = b` for `u = v = [1 1 ... 1]^T` by the
/// Sherman-Morrison identity: factor `A'` once, solve `A' y = b` and
/// `A' z = u` against the same factors, and combine
/// `x = y - z * (v^T y) / (1 + v^T z)`.
///
/// `ZeroPivot` and `Overflow` come from factoring and solving as in
/// [`BandMatrix::lu_decompose`]; `ZeroPivot` also reports a factorization
/// with a zero pivot, against which the triangular solves cannot divide;
/// `DivisorZero` reports a singular update, `1 + v^T z` zero.
pub fn solve(a_prime: BandMatrix, b: Vector) -> (r: Result<Vector, LinError>)
    requires
        a_prime.wf(),
        b.wf(),
        b@.len() == a_prime.dim(),
    ensures
        r is Ok ==> {
            &&& r->Ok_0.wf()
            &&& r->Ok_0@.len() == b@.len()
            &&& exists|f: BandMatrix, y: Seq<Q>, z: Seq<Q>, sy: Q, sz: Q|
                {
                    &&& factors(a_prime, f)
                    &&& seq_wf(y)
                    &&& seq_wf(z)
                    &&& #[trigger] triangular_solution(f, b@, y)
                    &&& triangular_solution(f, q_ones(a_prime.dim()), z)
                    &&& #[trigger] sherman_combination(y, z, sy, sz, r->Ok_0@)
                }
        },
        r is Err ==> r == Err::<Vector, LinError>(LinError::ZeroPivot) || r == Err::<
            Vector,
            LinError,
        >(LinError::Overflow) || r == Err::<Vector, LinError>(LinError::DivisorZero),
{
    let n: usize = a_prime.n();
    proof {
        a_prime.lemma_dim_bound();
    }
    let ghost ap = a_prime;
    let lu = match a_prime.lu_decompose() {
        Ok(f) => f,
        Err(e) => {
            return Err(e);
        },
    };
    if !lu.pivots_all_nonzero() {
        return Err(LinError::ZeroPivot);
    }
    let y = match lu.solve(&b) {
        Ok(v) => v,
        Err(_) => {
            return Err(LinError::Overflow);
        },
    };
    // the all-ones right-hand side u
    let mut ones = Vector::new(n);
    let mut i: usize = 1;
    while i <= n
        invariant
            n < usize::MAX,
            1 <= i <= n + 1,
            ones.wf(),
            ones@.len() == n,
            forall|k: int| 0 <= k < i as int - 1 ==> ones@[k] == q_one(),
        decreases n + 1 - i,
    {
        ones.set(i, Rat::one());
        i = i + 1;
    }
    proof {
        assert(ones@ =~= q_ones(n as int));
    }
    let z = match lu.solve(&ones) {
        Ok(v) => v,
        Err(_) => {
            return Err(LinError::Overflow);
        },
    };
    let vy = match y.sum() {
        Ok(v) => v,
        Err(_) => {
            return Err(LinError::Overflow);
        },
    };
    let vz = match z.sum() {
        Ok(v) => v,
        Err(_) => {
            return Err(LinError::Overflow);
        },
    };
    let denom = match Rat::one().add(vz) {
        Ok(v) => v,
        Err(_) => {
            return Err(LinError::Overflow);
        },
    };
    if denom.is_zero() {
        return Err(LinError::DivisorZero);
    }
    // the correction z * (v^T y)
    let mut sc = Vector::new(n);
    let mut k: usize = 1;
    while k <= n
        invariant
            n < usize::MAX,
            1 <= k <= n + 1,
            z.wf(),
            z@.len() == n,
            vy.wf(),
            sc.wf(),
            sc@.len() == n,
            forall|k2: int|
                0 <= k2 < k as int - 1 ==> q_eq(#[trigger] sc@[k2], q_mul(z@[k2], vy@)),
        decreases n + 1 - k,
    {
        let zv = z.get(k);
        let sv = match zv.mul(vy) {
            Ok(v) => v,
            Err(_) => {
                return Err(LinError::Overflow);
            },
        };
        sc.set(k, sv);
        k = k + 1;
    }
    let w = match sc.div(denom) {
        Ok(v) => v,
        Err(_) => {
            return Err(LinError::Overflow);
        },
    };
    let x = match y.sub(&w) {
        Ok(v) => v,
        Err(_) => {
            return Err(LinError::Overflow);
        },
    };
    proof {
        let sy = vy@;
        let sz = vz@;
        let den = q_add(q_one(), sz);
        lemma_zero_congr(denom@, den);
        assert forall|k2: int| 0 <= k2 < x@.len() implies q_eq(
            #[trigger] x@[k2],
            q_sub(y@[k2], q_div(q_mul(z@[k2], sy), den)),
        ) by {
            lemma_prod_nonzero(z@[k2].d, sy.d);
            lemma_chain_div(w@[k2], sc@[k2], denom@, q_mul(z@[k2], sy), den);
            lemma_chain_sub(x@[k2], y@[k2], w@[k2], y@[k2], q_div(q_mul(z@[k2], sy), den));
        }
        assert(sherman_combination(y@, z@, sy, sz, x@));
        assert(factors(ap, lu.mat()));
        assert(triangular_solution(lu.mat(), b@, y@));
        assert(triangular_solution(lu.mat(), q_ones(ap.dim()), z@));
    }
    Ok(x)
}

} // verus!
