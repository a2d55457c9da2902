//! Banded LU factorization and triangular solving.
//!
//! [`BandMatrix::lu_decompose`] reduces a matrix in place by banded
//! Doolittle elimination.  The factors live in the same storage: entries at
//! or above the diagonal are U, entries strictly below it are the
//! off-diagonal part of L, and L's diagonal is an implicit one.  The
//! contract states the defining equation of the factorization: the product
//! L·U reproduces every entry of the input matrix exactly.

use vstd::prelude::*;

use crate::matrix::BandMatrix;
use crate::vector::Vector;
use crate::rat::{
    lemma_add_sub_cancel, lemma_add_zero, lemma_chain_add, lemma_chain_div, lemma_chain_mul,
    lemma_chain_sub, lemma_div_mul_cancel, lemma_mul_congr, lemma_prod_nonzero, lemma_q_eq_trans,
    q_add, q_div, q_eq, q_is_zero, q_mul, q_one, q_sub, q_valid, q_wf, q_zero, LinError, Q, Rat,
};

verus! {

/// Entry `(i, t)` of the L factor read off a reduced matrix: implicit one
/// on the diagonal, zero above it, the stored scalar below it.
pub open spec fn lo_at(m: BandMatrix, i: int, t: int) -> Q {
    if t == i {
        q_one()
    } else if t > i {
        q_zero()
    } else {
        m.at_q(i, t)
    }
}

/// Entry `(t, j)` of the U factor read off a reduced matrix: zero below
/// the diagonal, the stored scalar at or above it.
pub open spec fn up_at(m: BandMatrix, t: int, j: int) -> Q {
    if t > j {
        q_zero()
    } else {
        m.at_q(t, j)
    }
}

/// Partial product entry: sum over `t` in `1..=cut` of `L(i,t) * U(t,j)`.
pub open spec fn lu_dot(m: BandMatrix, i: int, j: int, cut: int) -> Q
    decreases cut,
{
    if cut <= 0 {
        q_zero()
    } else {
        q_add(lu_dot(m, i, j, cut - 1), q_mul(lo_at(m, i, cut), up_at(m, cut, j)))
    }
}

/// Entry `(i, j)` of the full product L·U of the factors held in `m`.
pub open spec fn lu_prod(m: BandMatrix, i: int, j: int) -> Q {
    lu_dot(m, i, j, m.dim())
}

/// One term of the product sum is a valid rational.
proof fn lemma_term_valid(m: BandMatrix, i: int, t: int, j: int)
    requires
        m.wf(),
    ensures
        q_valid(q_mul(lo_at(m, i, t), up_at(m, t, j))),
        q_wf(lo_at(m, i, t)),
        q_wf(up_at(m, t, j)),
{
    m.lemma_at_wf(i, t);
    m.lemma_at_wf(t, j);
    lemma_prod_nonzero(lo_at(m, i, t).d, up_at(m, t, j).d);
}

/// Every partial product sum is a valid rational.
proof fn lemma_lu_dot_valid(m: BandMatrix, i: int, j: int, cut: int)
    requires
        m.wf(),
    ensures
        q_valid(lu_dot(m, i, j, cut)),
    decreases cut,
{
    if cut > 0 {
        lemma_lu_dot_valid(m, i, j, cut - 1);
        lemma_term_valid(m, i, cut, j);
        lemma_prod_nonzero(lu_dot(m, i, j, cut - 1).d, q_mul(lo_at(m, i, cut), up_at(m, cut, j)).d);
    }
}

/// The partial product sum reads only row `i` of L and column `j` of U:
/// two matrices equal there have equal sums.
proof fn lemma_dot_frame(m1: BandMatrix, m2: BandMatrix, i: int, j: int, cut: int)
    requires
        forall|t: int|
            1 <= t <= cut ==> #[trigger] m1.at_q(i, t) == m2.at_q(i, t) && m1.at_q(t, j)
                == m2.at_q(t, j),
    ensures
        lu_dot(m1, i, j, cut) == lu_dot(m2, i, j, cut),
    decreases cut,
{
    if cut > 0 {
        lemma_dot_frame(m1, m2, i, j, cut - 1);
        assert(m1.at_q(i, cut) == m2.at_q(i, cut) && m1.at_q(cut, j) == m2.at_q(cut, j));
    }
}

/// A stretch of terms whose L or U factor has a zero numerator contributes
/// nothing: the sum up to `hi` denotes the sum up to `lo`.
proof fn lemma_dot_zero_stretch(m: BandMatrix, i: int, j: int, lo: int, hi: int)
    requires
        m.wf(),
        0 <= lo <= hi,
        forall|t: int| lo < t <= hi ==> lo_at(m, i, t).n == 0 || up_at(m, t, j).n == 0,
    ensures
        q_eq(lu_dot(m, i, j, hi), lu_dot(m, i, j, lo)),
        q_eq(lu_dot(m, i, j, lo), lu_dot(m, i, j, hi)),
    decreases hi - lo,
{
    if lo == hi {
    } else {
        lemma_dot_zero_stretch(m, i, j, lo, hi - 1);
        lemma_add_zero(lu_dot(m, i, j, hi - 1), q_mul(lo_at(m, i, hi), up_at(m, hi, j)));
        lemma_lu_dot_valid(m, i, j, hi - 1);
        lemma_lu_dot_valid(m, i, j, lo);
        lemma_q_eq_trans(lu_dot(m, i, j, hi), lu_dot(m, i, j, hi - 1), lu_dot(m, i, j, lo));
        lemma_q_eq_trans(lu_dot(m, i, j, lo), lu_dot(m, i, j, hi - 1), lu_dot(m, i, j, hi));
    }
}

/// A prefix of terms whose L or U factor has a zero numerator denotes zero.
proof fn lemma_dot_prefix_zero(m: BandMatrix, i: int, j: int, cut: int)
    requires
        m.wf(),
        0 <= cut,
        forall|t: int| 1 <= t <= cut ==> lo_at(m, i, t).n == 0 || up_at(m, t, j).n == 0,
    ensures
        q_eq(q_zero(), lu_dot(m, i, j, cut)),
    decreases cut,
{
    lemma_dot_zero_stretch(m, i, j, 0, cut);
}

/// Completing a clipped upper sum: `S + 1 * v` denotes `x` when `v`
/// denotes `x - S`.
proof fn lemma_u_entry(s: Q, x: Q, v: Q)
    requires
        q_valid(s),
        q_valid(x),
        q_valid(v),
        q_eq(v, q_sub(x, s)),
    ensures
        q_eq(q_add(s, q_mul(q_one(), v)), x),
{
    let y = q_sub(x, s);
    lemma_prod_nonzero(x.d, s.d);
    assert(q_mul(q_one(), v) == v);
    lemma_chain_add(q_add(s, v), s, v, s, y);
    lemma_add_sub_cancel(s, x);
    lemma_q_eq_trans(q_add(s, v), q_add(s, y), x);
}

/// Completing a clipped lower sum: `S + v * p` denotes `x` when `v`
/// denotes `(x - S) / p` for a nonzero pivot `p`.
proof fn lemma_l_entry(s: Q, x: Q, p: Q, v: Q)
    requires
        q_valid(s),
        q_valid(x),
        q_valid(v),
        q_valid(p),
        !q_is_zero(p),
        q_eq(v, q_div(q_sub(x, s), p)),
    ensures
        q_eq(q_add(s, q_mul(v, p)), x),
{
    let y = q_sub(x, s);
    lemma_prod_nonzero(x.d, s.d);
    lemma_prod_nonzero(y.d, p.n);
    lemma_mul_congr(v, p, q_div(y, p), p);
    lemma_div_mul_cancel(y, p);
    lemma_prod_nonzero(q_div(y, p).d, p.d);
    lemma_q_eq_trans(q_mul(v, p), q_mul(q_div(y, p), p), y);
    lemma_chain_add(q_add(s, q_mul(v, p)), s, q_mul(v, p), s, y);
    lemma_add_sub_cancel(s, x);
    lemma_prod_nonzero(s.d, y.d);
    lemma_q_eq_trans(q_add(s, q_mul(v, p)), q_add(s, y), x);
}

/// Two matrices have the same dimension and bandwidths.
pub open spec fn same_shape(a: BandMatrix, m: BandMatrix) -> bool {
    &&& m.dim() == a.dim()
    &&& m.lband() == a.lband()
    &&& m.uband() == a.uband()
}

/// The upper entry `(i, j)` of `m` is a finished U entry for input `a`:
/// the product of the factors reproduces `a` there.
pub open spec fn udone(a: BandMatrix, m: BandMatrix, i: int, j: int) -> bool {
    q_eq(lu_dot(m, i, j, i), a.at_q(i, j))
}

/// The lower entry `(i, j)` of `m` is a finished L entry for input `a`.
pub open spec fn ldone(a: BandMatrix, m: BandMatrix, i: int, j: int) -> bool {
    q_eq(lu_dot(m, i, j, j), a.at_q(i, j))
}

/// Elimination state of the upper entry `(i, j)`: rows before `k` are
/// finished, row `k` is finished strictly before column `ucol`, everything
/// later still holds the input.
spec fn upper_ok(a: BandMatrix, m: BandMatrix, k: int, ucol: int, i: int, j: int) -> bool {
    if i < k || (i == k && j < ucol) {
        udone(a, m, i, j)
    } else {
        m.at_q(i, j) == a.at_q(i, j)
    }
}

/// Elimination state of the lower entry `(i, j)`: columns before `k` are
/// finished, column `k` is finished strictly before row `lrow`.
spec fn lower_ok(a: BandMatrix, m: BandMatrix, k: int, lrow: int, i: int, j: int) -> bool {
    if j < k || (j == k && i < lrow) {
        ldone(a, m, i, j)
    } else {
        m.at_q(i, j) == a.at_q(i, j)
    }
}

/// The whole elimination state at pivot `k`, with row `k` written up to
/// column `ucol` and column `k` written up to row `lrow` (both exclusive).
spec fn decomp_state(a: BandMatrix, m: BandMatrix, k: int, ucol: int, lrow: int) -> bool {
    &&& a.wf()
    &&& m.wf()
    &&& same_shape(a, m)
    &&& forall|i: int, j: int| 1 <= i <= j <= a.dim() ==> #[trigger] upper_ok(a, m, k, ucol, i, j)
    &&& forall|i: int, j: int| 1 <= j < i <= a.dim() ==> #[trigger] lower_ok(a, m, k, lrow, i, j)
}

/// Writing the finished U entry `(k, col)` advances the elimination state.
proof fn lemma_write_u(a: BandMatrix, m1: BandMatrix, m2: BandMatrix, k: int, col: int, v: Q)
    requires
        decomp_state(a, m1, k, col, k + 1),
        1 <= k <= col <= a.dim(),
        m2.wf(),
        same_shape(a, m2),
        m2.at_q(k, col) == v,
        forall|i2: int, j2: int|
            !(i2 == k && j2 == col) ==> #[trigger] m2.at_q(i2, j2) == m1.at_q(i2, j2),
        q_wf(v),
        q_eq(v, q_sub(a.at_q(k, col), lu_dot(m1, k, col, k - 1))),
    ensures
        decomp_state(a, m2, k, col + 1, k + 1),
{
    let dim = a.dim();
    // the fresh entry
    assert forall|t: int| 1 <= t <= k - 1 implies #[trigger] m1.at_q(k, t) == m2.at_q(k, t)
        && m1.at_q(t, col) == m2.at_q(t, col) by {
        assert(m2.at_q(k, t) == m1.at_q(k, t));
        assert(m2.at_q(t, col) == m1.at_q(t, col));
    }
    lemma_dot_frame(m1, m2, k, col, k - 1);
    let s1 = lu_dot(m1, k, col, k - 1);
    lemma_lu_dot_valid(m1, k, col, k - 1);
    a.lemma_at_wf(k, col);
    lemma_u_entry(s1, a.at_q(k, col), v);
    assert(lo_at(m2, k, k) == q_one());
    assert(up_at(m2, k, col) == v);
    assert(lu_dot(m2, k, col, k) == q_add(s1, q_mul(q_one(), v)));
    assert(udone(a, m2, k, col));
    // preserved entries
    assert forall|i: int, j: int| 1 <= i <= j <= dim implies #[trigger] upper_ok(
        a,
        m2,
        k,
        col + 1,
        i,
        j,
    ) by {
        assert(upper_ok(a, m1, k, col, i, j));
        if i < k || (i == k && j < col) {
            assert forall|t: int| 1 <= t <= i implies #[trigger] m1.at_q(i, t) == m2.at_q(i, t)
                && m1.at_q(t, j) == m2.at_q(t, j) by {
                assert(m2.at_q(i, t) == m1.at_q(i, t));
                assert(m2.at_q(t, j) == m1.at_q(t, j));
            }
            lemma_dot_frame(m1, m2, i, j, i);
        } else if i == k && j == col {
        } else {
            assert(m2.at_q(i, j) == m1.at_q(i, j));
        }
    }
    assert forall|i: int, j: int| 1 <= j < i <= dim implies #[trigger] lower_ok(
        a,
        m2,
        k,
        k + 1,
        i,
        j,
    ) by {
        assert(lower_ok(a, m1, k, k + 1, i, j));
        if j < k || (j == k && i < k + 1) {
            assert forall|t: int| 1 <= t <= j implies #[trigger] m1.at_q(i, t) == m2.at_q(i, t)
                && m1.at_q(t, j) == m2.at_q(t, j) by {
                assert(m2.at_q(i, t) == m1.at_q(i, t));
                assert(m2.at_q(t, j) == m1.at_q(t, j));
            }
            lemma_dot_frame(m1, m2, i, j, j);
        } else {
            assert(m2.at_q(i, j) == m1.at_q(i, j));
        }
    }
}

/// Writing the finished L entry `(row, k)` advances the elimination state.
proof fn lemma_write_l(a: BandMatrix, m1: BandMatrix, m2: BandMatrix, k: int, row: int, v: Q)
    requires
        decomp_state(a, m1, k, a.dim() + 1, row),
        1 <= k < row <= a.dim(),
        m2.wf(),
        same_shape(a, m2),
        m2.at_q(row, k) == v,
        forall|i2: int, j2: int|
            !(i2 == row && j2 == k) ==> #[trigger] m2.at_q(i2, j2) == m1.at_q(i2, j2),
        q_wf(v),
        !q_is_zero(m1.at_q(k, k)),
        q_eq(v, q_div(q_sub(a.at_q(row, k), lu_dot(m1, row, k, k - 1)), m1.at_q(k, k))),
    ensures
        decomp_state(a, m2, k, a.dim() + 1, row + 1),
        m2.at_q(k, k) == m1.at_q(k, k),
{
    let dim = a.dim();
    // the fresh entry
    assert forall|t: int| 1 <= t <= k - 1 implies #[trigger] m1.at_q(row, t) == m2.at_q(row, t)
        && m1.at_q(t, k) == m2.at_q(t, k) by {
        assert(m2.at_q(row, t) == m1.at_q(row, t));
        assert(m2.at_q(t, k) == m1.at_q(t, k));
    }
    lemma_dot_frame(m1, m2, row, k, k - 1);
    let s1 = lu_dot(m1, row, k, k - 1);
    lemma_lu_dot_valid(m1, row, k, k - 1);
    a.lemma_at_wf(row, k);
    m1.lemma_at_wf(k, k);
    lemma_l_entry(s1, a.at_q(row, k), m1.at_q(k, k), v);
    assert(lo_at(m2, row, k) == v);
    assert(m2.at_q(k, k) == m1.at_q(k, k));
    assert(up_at(m2, k, k) == m1.at_q(k, k));
    assert(lu_dot(m2, row, k, k) == q_add(s1, q_mul(v, m1.at_q(k, k))));
    assert(ldone(a, m2, row, k));
    // preserved entries
    assert forall|i: int, j: int| 1 <= i <= j <= dim implies #[trigger] upper_ok(
        a,
        m2,
        k,
        dim + 1,
        i,
        j,
    ) by {
        assert(upper_ok(a, m1, k, dim + 1, i, j));
        if i <= k {
            assert forall|t: int| 1 <= t <= i implies #[trigger] m1.at_q(i, t) == m2.at_q(i, t)
                && m1.at_q(t, j) == m2.at_q(t, j) by {
                assert(m2.at_q(i, t) == m1.at_q(i, t));
                assert(m2.at_q(t, j) == m1.at_q(t, j));
            }
            lemma_dot_frame(m1, m2, i, j, i);
        } else {
            assert(m2.at_q(i, j) == m1.at_q(i, j));
        }
    }
    assert forall|i: int, j: int| 1 <= j < i <= dim implies #[trigger] lower_ok(
        a,
        m2,
        k,
        row + 1,
        i,
        j,
    ) by {
        assert(lower_ok(a, m1, k, row, i, j));
        if j < k || (j == k && i < row) {
            assert forall|t: int| 1 <= t <= j implies #[trigger] m1.at_q(i, t) == m2.at_q(i, t)
                && m1.at_q(t, j) == m2.at_q(t, j) by {
                assert(m2.at_q(i, t) == m1.at_q(i, t));
                assert(m2.at_q(t, j) == m1.at_q(t, j));
            }
            lemma_dot_frame(m1, m2, i, j, j);
        } else if j == k && i == row {
        } else {
            assert(m2.at_q(i, j) == m1.at_q(i, j));
        }
    }
}

/// Entries of row `k` beyond the upper band are finished for free: the
/// input is zero there and so is the product.
proof fn lemma_u_row_oob(a: BandMatrix, m: BandMatrix, k: int, hi: int)
    requires
        decomp_state(a, m, k, hi + 1, k + 1),
        1 <= k <= a.dim(),
        hi == if k + a.uband() <= a.dim() { k + a.uband() } else { a.dim() },
    ensures
        decomp_state(a, m, k, a.dim() + 1, k + 1),
{
    let dim = a.dim();
    assert forall|i: int, j: int| 1 <= i <= j <= dim implies #[trigger] upper_ok(
        a,
        m,
        k,
        dim + 1,
        i,
        j,
    ) by {
        assert(upper_ok(a, m, k, hi + 1, i, j));
        if i == k && j > hi {
            assert forall|t: int| 1 <= t <= k implies lo_at(m, k, t).n == 0 || up_at(
                m,
                t,
                j,
            ).n == 0 by {
                assert(!m.inband(t, j));
                m.lemma_at_out_of_band(t, j);
            }
            lemma_dot_prefix_zero(m, k, j, k);
            a.lemma_at_out_of_band(k, j);
        }
    }
}

/// Entries of column `k` beyond the lower band are finished for free, and
/// the elimination state advances to the next pivot.
proof fn lemma_l_col_oob(a: BandMatrix, m: BandMatrix, k: int, hi: int)
    requires
        decomp_state(a, m, k, a.dim() + 1, hi + 1),
        1 <= k <= a.dim(),
        hi == if k + a.lband() <= a.dim() { k + a.lband() } else { a.dim() },
    ensures
        decomp_state(a, m, k + 1, k + 1, k + 2),
{
    let dim = a.dim();
    assert forall|i: int, j: int| 1 <= j < i <= dim implies #[trigger] lower_ok(
        a,
        m,
        k + 1,
        k + 2,
        i,
        j,
    ) by {
        assert(lower_ok(a, m, k, hi + 1, i, j));
        if j == k && i > hi {
            assert forall|t: int| 1 <= t <= k implies lo_at(m, i, t).n == 0 || up_at(
                m,
                t,
                k,
            ).n == 0 by {
                assert(!m.inband(i, t));
                m.lemma_at_out_of_band(i, t);
            }
            lemma_dot_prefix_zero(m, i, k, k);
            a.lemma_at_out_of_band(i, k);
        }
    }
    assert forall|i: int, j: int| 1 <= i <= j <= dim implies #[trigger] upper_ok(
        a,
        m,
        k + 1,
        k + 1,
        i,
        j,
    ) by {
        assert(upper_ok(a, m, k, dim + 1, i, j));
    }
}

/// When every entry is finished, the full product reproduces the input.
proof fn lemma_state_to_prod(a: BandMatrix, m: BandMatrix)
    requires
        decomp_state(a, m, a.dim() + 1, a.dim() + 1, a.dim() + 2),
    ensures
        forall|i: int, j: int|
            1 <= i <= a.dim() && 1 <= j <= a.dim() ==> q_eq(
                #[trigger] lu_prod(m, i, j),
                a.at_q(i, j),
            ),
{
    let dim = a.dim();
    assert forall|i: int, j: int| 1 <= i <= dim && 1 <= j <= dim implies q_eq(
        #[trigger] lu_prod(m, i, j),
        a.at_q(i, j),
    ) by {
        if i <= j {
            assert(upper_ok(a, m, dim + 1, dim + 1, i, j));
            assert forall|t: int| i < t <= dim implies lo_at(m, i, t).n == 0 || up_at(
                m,
                t,
                j,
            ).n == 0 by {}
            lemma_dot_zero_stretch(m, i, j, i, dim);
            lemma_lu_dot_valid(m, i, j, i);
            m.lemma_at_wf(i, j);
            a.lemma_at_wf(i, j);
            lemma_q_eq_trans(lu_dot(m, i, j, dim), lu_dot(m, i, j, i), a.at_q(i, j));
        } else {
            assert(lower_ok(a, m, dim + 1, dim + 2, i, j));
            assert forall|t: int| j < t <= dim implies lo_at(m, i, t).n == 0 || up_at(
                m,
                t,
                j,
            ).n == 0 by {}
            lemma_dot_zero_stretch(m, i, j, j, dim);
            lemma_lu_dot_valid(m, i, j, j);
            lemma_q_eq_trans(lu_dot(m, i, j, dim), lu_dot(m, i, j, j), a.at_q(i, j));
        }
    }
}

/// `f` holds LU factors of `a`: same shape, and the product of the
/// factors reproduces every entry of `a` exactly.  This is the defining
/// equation of the factorization, and at once the round-trip law: L times U
/// rebuilds the input.
pub open spec fn factors(a: BandMatrix, f: BandMatrix) -> bool {
    &&& same_shape(a, f)
    &&& forall|i: int, j: int|
        1 <= i <= a.dim() && 1 <= j <= a.dim() ==> q_eq(#[trigger] lu_prod(f, i, j), a.at_q(i, j))
}

/// A matrix of dimension one or less is its own factorization: the single
/// product entry is `1` times the single stored entry.
proof fn lemma_tiny_factors(a: BandMatrix, m: BandMatrix)
    requires
        a.wf(),
        m == a,
        a.dim() <= 1,
    ensures
        factors(a, m),
{
    assert forall|i: int, j: int| 1 <= i <= a.dim() && 1 <= j <= a.dim() implies q_eq(
        #[trigger] lu_prod(m, i, j),
        a.at_q(i, j),
    ) by {
        assert(i == 1 && j == 1 && m.dim() == 1);
        let v = a.at_q(1, 1);
        let w = q_mul(q_one(), v);
        assert(w.n == 1 * v.n && w.d == 1 * v.d);
        vstd::arithmetic::mul::lemma_mul_basics(v.n);
        vstd::arithmetic::mul::lemma_mul_basics(v.d);
        let s = q_add(q_zero(), w);
        assert(s.n == 0 * w.d + w.n * 1 && s.d == 1 * w.d);
        vstd::arithmetic::mul::lemma_mul_basics(w.d);
        vstd::arithmetic::mul::lemma_mul_basics(w.n);
        assert(s.n == v.n && s.d == v.d);
        assert(lo_at(m, 1, 1) == q_one());
        assert(up_at(m, 1, 1) == v);
        assert(lu_dot(m, 1, 1, 0) == q_zero());
        assert(lu_dot(m, 1, 1, 1) == q_add(lu_dot(m, 1, 1, 0), q_mul(q_one(), v)));
        assert(lu_prod(m, 1, 1) == s);
        assert(q_eq(s, v));
    }
}

/// `x` solves the factored system for right-hand side `b`: some
/// intermediate `y` satisfies `L y = b` and `U x = y`, row by row.
pub open spec fn triangular_solution(f: BandMatrix, b: Seq<Q>, x: Seq<Q>) -> bool {
    exists|y: Seq<Q>|
        crate::vector::seq_wf(y) && #[trigger] forward_ok(f, b, y) && backward_ok(f, y, x)
}

/// Factorizations of one matrix agree: the factor products of any two of
/// them coincide entrywise.
pub proof fn lemma_factorizations_agree(a: BandMatrix, f: BandMatrix, g: BandMatrix, i: int, j: int)
    requires
        a.wf(),
        factors(a, f),
        factors(a, g),
        1 <= i <= a.dim(),
        1 <= j <= a.dim(),
    ensures
        q_eq(lu_prod(f, i, j), lu_prod(g, i, j)),
{
    a.lemma_at_wf(i, j);
    lemma_q_eq_trans(lu_prod(f, i, j), a.at_q(i, j), lu_prod(g, i, j));
}

/// The LU factors of a band matrix: same storage, dual reading.
///
/// Entries at or above the diagonal are U; entries strictly below it are
/// the off-diagonal part of L, whose diagonal is an implicit one.
#[derive(Clone, Debug)]
pub struct LuMatrices {
    m: BandMatrix,
}

impl LuMatrices {
    /// The reduced matrix holding both factors.
    pub closed spec fn mat(self) -> BandMatrix {
        self.m
    }

    /// Well-formed factors: representable storage.
    pub open spec fn wf(self) -> bool {
        self.mat().wf()
    }

    /// Every pivot (diagonal entry of the U factor) is nonzero: what
    /// solving against these factors needs, since backward substitution
    /// divides by each of them.  Elimination checks only the pivots it
    /// divides by, so a factorization may hold zero pivots that no
    /// division ever touched.
    pub open spec fn pivots_nonzero(self) -> bool {
        forall|t: int|
            1 <= t <= self.mat().dim() ==> !q_is_zero(#[trigger] self.mat().at_q(t, t))
    }
}

impl BandMatrix {
    /// Reduce this matrix in place to its Doolittle LU factors by banded
    /// elimination, consuming it.
    ///
    /// On success the product of the factors reproduces every entry of the
    /// input exactly.  A matrix of dimension one or less is trivially
    /// factored and returned unchanged.  `ZeroPivot` reports a zero pivot
    /// met as a divisor: the input does not admit LU decomposition without
    /// pivoting, which this design deliberately omits; a pivot that no
    /// division touches — the last one, or any when the lower bandwidth is
    /// zero — is not inspected.  `Overflow` reports an exact intermediate
    /// value that does not fit the scalar representation.
    pub fn lu_decompose(self) -> (r: Result<LuMatrices, LinError>)
        requires
            self.wf(),
        ensures
            r is Ok ==> r->Ok_0.wf() && factors(self, r->Ok_0.mat()),
            self.dim() <= 1 ==> r is Ok && r->Ok_0.mat() == self,
            r is Err ==> r == Err::<LuMatrices, LinError>(LinError::ZeroPivot) || r == Err::<
                LuMatrices,
                LinError,
            >(LinError::Overflow),
    {
        let ghost a = self;
        proof {
            self.lemma_dim_bound();
        }
        let mut m = self;
        let n: usize = m.n();
        if n <= 1 {
            proof {
                lemma_tiny_factors(a, m);
            }
            return Ok(LuMatrices { m });
        }
        let lb: usize = m.lower_bandwidth();
        let ub: usize = m.upper_bandwidth();
        proof {
            assert forall|i: int, j: int| 1 <= i <= j <= a.dim() implies #[trigger] upper_ok(
                a,
                m,
                1,
                1,
                i,
                j,
            ) by {}
            assert forall|i: int, j: int| 1 <= j < i <= a.dim() implies #[trigger] lower_ok(
                a,
                m,
                1,
                2,
                i,
                j,
            ) by {}
        }
        let mut k: usize = 1;
        while k <= n
            invariant
                a.wf(),
                m.wf(),
                a == self,
                2 <= n == a.dim(),
                lb == a.lband(),
                ub == a.uband(),
                n < usize::MAX,
                1 <= k <= n + 1,
                decomp_state(a, m, k as int, k as int, k as int + 1),
            decreases n + 1 - k,
        {
            let hi_u: usize = if n - k < ub {
                n
            } else {
                k + ub
            };
            let mut col: usize = k;
            while col <= hi_u
                invariant
                    a.wf(),
                    m.wf(),
                    a == self,
                    2 <= n == a.dim(),
                    lb == a.lband(),
                    ub == a.uband(),
                    n < usize::MAX,
                    1 <= k <= n,
                    k <= col <= hi_u + 1,
                    hi_u as int == if k as int + ub as int <= n as int {
                        k as int + ub as int
                    } else {
                        n as int
                    },
                    decomp_state(a, m, k as int, col as int, k as int + 1),
                decreases hi_u + 1 - col,
            {
                let mut lo: usize = 1;
                if k > lb && k - lb > lo {
                    lo = k - lb;
                }
                if col > ub && col - ub > lo {
                    lo = col - ub;
                }
                proof {
                    assert forall|t: int| 1 <= t <= lo as int - 1 implies lo_at(
                        m,
                        k as int,
                        t,
                    ).n == 0 || up_at(m, t, col as int).n == 0 by {
                        if k as int - lb as int > t {
                            assert(!m.inband(k as int, t));
                            m.lemma_at_out_of_band(k as int, t);
                        } else {
                            assert(col as int - ub as int > t);
                            assert(!m.inband(t, col as int));
                            m.lemma_at_out_of_band(t, col as int);
                        }
                    }
                    lemma_dot_prefix_zero(m, k as int, col as int, lo as int - 1);
                }
                let mut s = Rat::zero();
                let mut t: usize = lo;
                while t < k
                    invariant
                        a.wf(),
                        m.wf(),
                        a == self,
                        2 <= n == a.dim(),
                        1 <= k <= n,
                        k <= col <= n,
                        1 <= lo <= t <= k,
                        s.wf(),
                        q_eq(s@, lu_dot(m, k as int, col as int, t as int - 1)),
                        decomp_state(a, m, k as int, col as int, k as int + 1),
                    decreases k - t,
                {
                    let lr = m.get(k, t);
                    let ur = m.get(t, col);
                    let term = match lr.mul(ur) {
                        Ok(v) => v,
                        Err(_) => {
                            return Err(LinError::Overflow);
                        },
                    };
                    let s2 = match s.add(term) {
                        Ok(v) => v,
                        Err(_) => {
                            return Err(LinError::Overflow);
                        },
                    };
                    proof {
                        lemma_lu_dot_valid(m, k as int, col as int, t as int - 1);
                        lemma_term_valid(m, k as int, t as int, col as int);
                        assert(lr@ == lo_at(m, k as int, t as int));
                        assert(ur@ == up_at(m, t as int, col as int));
                        lemma_chain_mul(
                            term@,
                            lr@,
                            ur@,
                            lo_at(m, k as int, t as int),
                            up_at(m, t as int, col as int),
                        );
                        lemma_chain_add(
                            s2@,
                            s@,
                            term@,
                            lu_dot(m, k as int, col as int, t as int - 1),
                            q_mul(lo_at(m, k as int, t as int), up_at(m, t as int, col as int)),
                        );
                    }
                    s = s2;
                    t = t + 1;
                }
                let aval = m.get(k, col);
                let val = match aval.sub(s) {
                    Ok(v) => v,
                    Err(_) => {
                        return Err(LinError::Overflow);
                    },
                };
                proof {
                    assert(upper_ok(a, m, k as int, col as int, k as int, col as int));
                    lemma_lu_dot_valid(m, k as int, col as int, k as int - 1);
                    a.lemma_at_wf(k as int, col as int);
                    lemma_chain_sub(
                        val@,
                        aval@,
                        s@,
                        a.at_q(k as int, col as int),
                        lu_dot(m, k as int, col as int, k as int - 1),
                    );
                }
                let ghost m1 = m;
                let wres = m.set(k, col, val);
                proof {
                    assert(m1.inband(k as int, col as int));
                    assert(wres is Ok);
                    lemma_write_u(a, m1, m, k as int, col as int, val@);
                }
                col = col + 1;
            }
            proof {
                lemma_u_row_oob(a, m, k as int, hi_u as int);
            }
            let hi_l: usize = if n - k < lb {
                n
            } else {
                k + lb
            };
            // the pivot serves as a divisor only when a stored row lies
            // below it inside the band; it is inspected only then
            if k < hi_l {
                let piv = m.get(k, k);
                if piv.is_zero() {
                    return Err(LinError::ZeroPivot);
                }
            }
            let mut row: usize = k + 1;
            while row <= hi_l
                invariant
                    a.wf(),
                    m.wf(),
                    a == self,
                    2 <= n == a.dim(),
                    lb == a.lband(),
                    ub == a.uband(),
                    n < usize::MAX,
                    1 <= k <= n,
                    k + 1 <= row <= hi_l + 1,
                    hi_l as int == if k as int + lb as int <= n as int {
                        k as int + lb as int
                    } else {
                        n as int
                    },
                    decomp_state(a, m, k as int, n as int + 1, row as int),
                    k < hi_l ==> !q_is_zero(m.at_q(k as int, k as int)),
                decreases hi_l + 1 - row,
            {
                let mut lo: usize = 1;
                if row > lb && row - lb > lo {
                    lo = row - lb;
                }
                if k > ub && k - ub > lo {
                    lo = k - ub;
                }
                proof {
                    assert forall|t: int| 1 <= t <= lo as int - 1 implies lo_at(
                        m,
                        row as int,
                        t,
                    ).n == 0 || up_at(m, t, k as int).n == 0 by {
                        if row as int - lb as int > t {
                            assert(!m.inband(row as int, t));
                            m.lemma_at_out_of_band(row as int, t);
                        } else {
                            assert(k as int - ub as int > t);
                            assert(!m.inband(t, k as int));
                            m.lemma_at_out_of_band(t, k as int);
                        }
                    }
                    lemma_dot_prefix_zero(m, row as int, k as int, lo as int - 1);
                }
                let mut s = Rat::zero();
                let mut t: usize = lo;
                while t < k
                    invariant
                        a.wf(),
                        m.wf(),
                        a == self,
                        2 <= n == a.dim(),
                        1 <= k <= n,
                        k + 1 <= row <= n,
                        1 <= lo <= t <= k,
                        s.wf(),
                        q_eq(s@, lu_dot(m, row as int, k as int, t as int - 1)),
                        decomp_state(a, m, k as int, n as int + 1, row as int),
                        !q_is_zero(m.at_q(k as int, k as int)),
                    decreases k - t,
                {
                    let lr = m.get(row, t);
                    let ur = m.get(t, k);
                    let term = match lr.mul(ur) {
                        Ok(v) => v,
                        Err(_) => {
                            return Err(LinError::Overflow);
                        },
                    };
                    let s2 = match s.add(term) {
                        Ok(v) => v,
                        Err(_) => {
                            return Err(LinError::Overflow);
                        },
                    };
                    proof {
                        lemma_lu_dot_valid(m, row as int, k as int, t as int - 1);
                        lemma_term_valid(m, row as int, t as int, k as int);
                        assert(lr@ == lo_at(m, row as int, t as int));
                        assert(ur@ == up_at(m, t as int, k as int));
                        lemma_chain_mul(
                            term@,
                            lr@,
                            ur@,
                            lo_at(m, row as int, t as int),
                            up_at(m, t as int, k as int),
                        );
                        lemma_chain_add(
                            s2@,
                            s@,
                            term@,
                            lu_dot(m, row as int, k as int, t as int - 1),
                            q_mul(lo_at(m, row as int, t as int), up_at(m, t as int, k as int)),
                        );
                    }
                    s = s2;
                    t = t + 1;
                }
                let aval = m.get(row, k);
                let num = match aval.sub(s) {
                    Ok(v) => v,
                    Err(_) => {
                        return Err(LinError::Overflow);
                    },
                };
                let pv = m.get(k, k);
                let val = match num.div(pv) {
                    Ok(v) => v,
                    Err(_) => {
                        return Err(LinError::Overflow);
                    },
                };
                proof {
                    assert(lower_ok(a, m, k as int, row as int, row as int, k as int));
                    lemma_lu_dot_valid(m, row as int, k as int, k as int - 1);
                    a.lemma_at_wf(row as int, k as int);
                    lemma_chain_sub(
                        num@,
                        aval@,
                        s@,
                        a.at_q(row as int, k as int),
                        lu_dot(m, row as int, k as int, k as int - 1),
                    );
                    lemma_prod_nonzero(
                        a.at_q(row as int, k as int).d,
                        lu_dot(m, row as int, k as int, k as int - 1).d,
                    );
                    lemma_chain_div(
                        val@,
                        num@,
                        pv@,
                        q_sub(
                            a.at_q(row as int, k as int),
                            lu_dot(m, row as int, k as int, k as int - 1),
                        ),
                        m.at_q(k as int, k as int),
                    );
                }
                let ghost m1 = m;
                let wres = m.set(row, k, val);
                proof {
                    assert(m1.inband(row as int, k as int));
                    assert(wres is Ok);
                    lemma_write_l(a, m1, m, k as int, row as int, val@);
                }
                row = row + 1;
            }
            proof {
                lemma_l_col_oob(a, m, k as int, hi_l as int);
            }
            k = k + 1;
        }
        proof {
            lemma_state_to_prod(a, m);
        }
        Ok(LuMatrices { m })
    }
}

/// Forward-substitution sum: over `i` in `1..=cut`, `L(row, i) * y(i)`.
pub open spec fn dot_l(m: BandMatrix, row: int, y: Seq<Q>, cut: int) -> Q
    decreases cut,
{
    if cut <= 0 {
        q_zero()
    } else {
        q_add(dot_l(m, row, y, cut - 1), q_mul(lo_at(m, row, cut), y[cut - 1]))
    }
}

/// Backward-substitution sum: over `i` in `from..=len(x)`, `U(row, i) * x(i)`.
pub open spec fn dot_u_from(m: BandMatrix, row: int, x: Seq<Q>, from: int) -> Q
    decreases x.len() + 1 - from,
{
    if from < 1 || from > x.len() {
        q_zero()
    } else {
        q_add(q_mul(up_at(m, row, from), x[from - 1]), dot_u_from(m, row, x, from + 1))
    }
}

/// `y` solves `L y = b` for the L factor held in `m`, row by row.
pub open spec fn forward_ok(m: BandMatrix, b: Seq<Q>, y: Seq<Q>) -> bool {
    &&& y.len() == b.len()
    &&& forall|r: int|
        1 <= r <= y.len() ==> q_eq(#[trigger] y[r - 1], q_sub(b[r - 1], dot_l(m, r, y, r - 1)))
}

/// `x` solves `U x = y` for the U factor held in `m`, row by row.
pub open spec fn backward_ok(m: BandMatrix, y: Seq<Q>, x: Seq<Q>) -> bool {
    &&& x.len() == y.len()
    &&& forall|r: int|
        1 <= r <= x.len() ==> q_eq(
            #[trigger] x[r - 1],
            q_div(q_sub(y[r - 1], dot_u_from(m, r, x, r + 1)), m.at_q(r, r)),
        )
}

/// The forward sum reads only the first `cut` entries of `y`.
proof fn lemma_dot_l_frame(m: BandMatrix, row: int, y1: Seq<Q>, y2: Seq<Q>, cut: int)
    requires
        forall|i: int| 0 <= i < cut ==> y1[i] == y2[i],
        cut <= y1.len(),
        cut <= y2.len(),
    ensures
        dot_l(m, row, y1, cut) == dot_l(m, row, y2, cut),
    decreases cut,
{
    if cut > 0 {
        lemma_dot_l_frame(m, row, y1, y2, cut - 1);
    }
}

/// The backward sum from `from` reads only entries `from..` of `x`.
proof fn lemma_dot_u_frame(m: BandMatrix, row: int, x1: Seq<Q>, x2: Seq<Q>, from: int)
    requires
        x1.len() == x2.len(),
        forall|i: int| from - 1 <= i < x1.len() ==> x1[i] == x2[i],
    ensures
        dot_u_from(m, row, x1, from) == dot_u_from(m, row, x2, from),
    decreases x1.len() + 1 - from,
{
    if 1 <= from && from <= x1.len() {
        lemma_dot_u_frame(m, row, x1, x2, from + 1);
    }
}

/// The forward sum over representable entries is valid.
proof fn lemma_dot_l_valid(m: BandMatrix, row: int, y: Seq<Q>, cut: int)
    requires
        m.wf(),
        crate::vector::seq_wf(y),
        cut <= y.len(),
    ensures
        q_valid(dot_l(m, row, y, cut)),
    decreases cut,
{
    if cut > 0 {
        lemma_dot_l_valid(m, row, y, cut - 1);
        m.lemma_at_wf(row, cut);
        lemma_prod_nonzero(lo_at(m, row, cut).d, y[cut - 1].d);
        lemma_prod_nonzero(dot_l(m, row, y, cut - 1).d, q_mul(lo_at(m, row, cut), y[cut - 1]).d);
    }
}

/// The backward sum over representable entries is valid.
proof fn lemma_dot_u_valid(m: BandMatrix, row: int, x: Seq<Q>, from: int)
    requires
        m.wf(),
        crate::vector::seq_wf(x),
    ensures
        q_valid(dot_u_from(m, row, x, from)),
    decreases x.len() + 1 - from,
{
    if 1 <= from && from <= x.len() {
        lemma_dot_u_valid(m, row, x, from + 1);
        m.lemma_at_wf(row, from);
        lemma_prod_nonzero(up_at(m, row, from).d, x[from - 1].d);
        lemma_prod_nonzero(
            q_mul(up_at(m, row, from), x[from - 1]).d,
            dot_u_from(m, row, x, from + 1).d,
        );
    }
}

/// A prefix of forward terms with a zero L numerator denotes zero.
proof fn lemma_dot_l_prefix_zero(m: BandMatrix, row: int, y: Seq<Q>, cut: int)
    requires
        0 <= cut,
        forall|t: int| 1 <= t <= cut ==> lo_at(m, row, t).n == 0,
    ensures
        dot_l(m, row, y, cut).n == 0,
    decreases cut,
{
    if cut > 0 {
        lemma_dot_l_prefix_zero(m, row, y, cut - 1);
        vstd::arithmetic::mul::lemma_mul_by_zero_is_zero(y[cut - 1].n);
        vstd::arithmetic::mul::lemma_mul_by_zero_is_zero(q_mul(lo_at(m, row, cut), y[cut - 1]).d);
        vstd::arithmetic::mul::lemma_mul_by_zero_is_zero(dot_l(m, row, y, cut - 1).d);
    }
}

/// A suffix of backward terms with a zero U numerator denotes zero.
proof fn lemma_dot_u_suffix_zero(m: BandMatrix, row: int, x: Seq<Q>, from: int)
    requires
        forall|t: int| from <= t <= x.len() ==> up_at(m, row, t).n == 0,
    ensures
        dot_u_from(m, row, x, from).n == 0,
    decreases x.len() + 1 - from,
{
    if 1 <= from && from <= x.len() {
        lemma_dot_u_suffix_zero(m, row, x, from + 1);
        vstd::arithmetic::mul::lemma_mul_by_zero_is_zero(x[from - 1].n);
        vstd::arithmetic::mul::lemma_mul_by_zero_is_zero(q_mul(up_at(m, row, from), x[from - 1]).d);
        vstd::arithmetic::mul::lemma_mul_by_zero_is_zero(dot_u_from(m, row, x, from + 1).d);
    }
}

/// Product of the diagonal entries `1..=cut` of the reduced matrix.
pub open spec fn diag_prod(m: BandMatrix, cut: int) -> Q
    decreases cut,
{
    if cut <= 0 {
        q_one()
    } else {
        q_mul(diag_prod(m, cut - 1), m.at_q(cut, cut))
    }
}

/// The diagonal product of a well-formed matrix is a valid rational.
proof fn lemma_diag_prod_valid(m: BandMatrix, cut: int)
    requires
        m.wf(),
    ensures
        q_valid(diag_prod(m, cut)),
    decreases cut,
{
    if cut > 0 {
        lemma_diag_prod_valid(m, cut - 1);
        m.lemma_at_wf(cut, cut);
        lemma_prod_nonzero(diag_prod(m, cut - 1).d, m.at_q(cut, cut).d);
    }
}

impl LuMatrices {
    /// The dimension.
    pub fn n(&self) -> (r: usize)
        ensures
            r == self.mat().dim(),
    {
        self.m.n()
    }

    /// The raw combined entry at one-based `(i, j)`.
    pub fn get(&self, i: usize, j: usize) -> (r: Rat)
        requires
            self.wf(),
            1 <= i <= self.mat().dim(),
            1 <= j <= self.mat().dim(),
        ensures
            r@ == self.mat().at_q(i as int, j as int),
            r.wf(),
    {
        self.m.get(i, j)
    }

    /// The `(i, j)` entry of the L factor: an implicit one on the
    /// diagonal, zero above it, the stored scalar below it.
    pub fn l(&self, i: usize, j: usize) -> (r: Rat)
        requires
            self.wf(),
            1 <= i <= self.mat().dim(),
            1 <= j <= self.mat().dim(),
        ensures
            r@ == lo_at(self.mat(), i as int, j as int),
            r.wf(),
    {
        if i == j {
            Rat::one()
        } else if i < j {
            Rat::zero()
        } else {
            self.m.get(i, j)
        }
    }

    /// The `(i, j)` entry of the U factor: zero below the diagonal, the
    /// stored scalar at or above it.
    pub fn u(&self, i: usize, j: usize) -> (r: Rat)
        requires
            self.wf(),
            1 <= i <= self.mat().dim(),
            1 <= j <= self.mat().dim(),
        ensures
            r@ == up_at(self.mat(), i as int, j as int),
            r.wf(),
    {
        if i > j {
            Rat::zero()
        } else {
            self.m.get(i, j)
        }
    }

    /// Whether every pivot is nonzero, checked entry by entry: the test a
    /// caller owes [`LuMatrices::solve`] before solving, since elimination
    /// inspects only the pivots it divides by.
    pub fn pivots_all_nonzero(&self) -> (r: bool)
        requires
            self.wf(),
        ensures
            r == self.pivots_nonzero(),
    {
        let n: usize = self.m.n();
        proof {
            self.m.lemma_dim_bound();
        }
        let mut t: usize = 1;
        while t <= n
            invariant
                self.wf(),
                n == self.mat().dim(),
                n < usize::MAX,
                1 <= t <= n + 1,
                forall|s: int| 1 <= s < t as int ==> !q_is_zero(#[trigger] self.mat().at_q(s, s)),
            decreases n + 1 - t,
        {
            if self.m.get(t, t).is_zero() {
                return false;
            }
            t = t + 1;
        }
        true
    }

    /// The determinant: the product of U's diagonal entries.  No row
    /// swaps occur during decomposition, so no sign correction applies.
    pub fn det(&self) -> (r: Result<Rat, LinError>)
        requires
            self.wf(),
        ensures
            r is Ok ==> {
                &&& r->Ok_0.wf()
                &&& q_eq(r->Ok_0@, diag_prod(self.mat(), self.mat().dim()))
            },
            r is Err ==> r == Err::<Rat, LinError>(LinError::Overflow),
            self.mat().dim() <= 1 ==> r is Ok,
    {
        let n: usize = self.m.n();
        let ghost mm = self.mat();
        proof {
            self.m.lemma_dim_bound();
        }
        let mut acc = Rat::one();
        let mut t: usize = 1;
        while t <= n
            invariant
                self.wf(),
                mm == self.mat(),
                n == mm.dim(),
                n < usize::MAX,
                1 <= t <= n + 1,
                acc.wf(),
                t == 1 ==> acc@ == crate::rat::q_one(),
                q_eq(acc@, diag_prod(mm, t as int - 1)),
            decreases n + 1 - t,
        {
            let d = self.m.get(t, t);
            let acc2 = match acc.mul(d) {
                Ok(v) => v,
                Err(_) => {
                    proof {
                        if n <= 1 {
                            crate::rat::lemma_mul_one_pair(d@);
                        }
                    }
                    return Err(LinError::Overflow);
                },
            };
            proof {
                lemma_diag_prod_valid(mm, t as int - 1);
                mm.lemma_at_wf(t as int, t as int);
                lemma_chain_mul(acc2@, acc@, d@, diag_prod(mm, t as int - 1), mm.at_q(t as int, t as int));
            }
            acc = acc2;
            t = t + 1;
        }
        Ok(acc)
    }

    /// Solve `L U x = b` by forward then backward substitution, both
    /// clipped to the bandwidths.  Backward substitution divides by every
    /// pivot, so all of them must be nonzero —
    /// [`LuMatrices::pivots_all_nonzero`] checks exactly that.
    ///
    /// On success the result is characterized exactly: there is an
    /// intermediate vector `y` with `L y = b` and `U x = y`, row by row.
    pub fn solve(&self, b: &Vector) -> (r: Result<Vector, LinError>)
        requires
            self.wf(),
            self.pivots_nonzero(),
            b.wf(),
            b@.len() == self.mat().dim(),
        ensures
            r is Ok ==> {
                &&& r->Ok_0.wf()
                &&& r->Ok_0@.len() == b@.len()
                &&& exists|y: Seq<Q>|
                    crate::vector::seq_wf(y) && #[trigger] forward_ok(self.mat(), b@, y)
                        && backward_ok(self.mat(), y, r->Ok_0@)
            },
            r is Err ==> r == Err::<Vector, LinError>(LinError::Overflow),
            self.mat().dim() == 1 && crate::rat::q_small(
                q_div(b@[0], self.mat().at_q(1, 1)),
            ) ==> r is Ok,
    {
        let n: usize = self.m.n();
        let lb: usize = self.m.lower_bandwidth();
        let ub: usize = self.m.upper_bandwidth();
        let ghost mm = self.mat();
        proof {
            self.m.lemma_dim_bound();
        }
        // forward substitution: L y = b
        let mut y = Vector::new(n);
        let mut row: usize = 1;
        while row <= n
            invariant
                self.wf(),
                b.wf(),
                mm == self.mat(),
                n == mm.dim(),
                lb == mm.lband(),
                ub == mm.uband(),
                b@.len() == n,
                n < usize::MAX,
                1 <= row <= n + 1,
                y.wf(),
                y@.len() == n,
                n == 1 && row > 1 ==> crate::rat::q_rep_le(y@[0], b@[0]),
                forall|r2: int|
                    1 <= r2 <= row - 1 ==> q_eq(
                        #[trigger] y@[r2 - 1],
                        q_sub(b@[r2 - 1], dot_l(mm, r2, y@, r2 - 1)),
                    ),
            decreases n + 1 - row,
        {
            let mut lo: usize = 1;
            if row > lb && row - lb > lo {
                lo = row - lb;
            }
            proof {
                assert forall|t: int| 1 <= t <= lo as int - 1 implies lo_at(mm, row as int, t).n
                    == 0 by {
                    assert(!mm.inband(row as int, t));
                    mm.lemma_at_out_of_band(row as int, t);
                }
                lemma_dot_l_prefix_zero(mm, row as int, y@, lo as int - 1);
            }
            let mut s = Rat::zero();
            let mut t: usize = lo;
            while t < row
                invariant
                    self.wf(),
                    mm == self.mat(),
                    n == mm.dim(),
                    1 <= row <= n,
                    1 <= lo <= t <= row,
                    y.wf(),
                    y@.len() == n,
                    s.wf(),
                    t == lo ==> s@ == crate::rat::q_zero(),
                    q_eq(s@, dot_l(mm, row as int, y@, t as int - 1)),
                decreases row - t,
            {
                let lr = self.m.get(row, t);
                let yv = y.get(t);
                let term = match lr.mul(yv) {
                    Ok(v) => v,
                    Err(_) => {
                        return Err(LinError::Overflow);
                    },
                };
                let s2 = match s.add(term) {
                    Ok(v) => v,
                    Err(_) => {
                        return Err(LinError::Overflow);
                    },
                };
                proof {
                    lemma_dot_l_valid(mm, row as int, y@, t as int - 1);
                    mm.lemma_at_wf(row as int, t as int);
                    assert(lr@ == lo_at(mm, row as int, t as int));
                    lemma_prod_nonzero(lo_at(mm, row as int, t as int).d, y@[t as int - 1].d);
                    lemma_chain_mul(term@, lr@, yv@, lo_at(mm, row as int, t as int), y@[t as int - 1]);
                    lemma_chain_add(
                        s2@,
                        s@,
                        term@,
                        dot_l(mm, row as int, y@, t as int - 1),
                        q_mul(lo_at(mm, row as int, t as int), y@[t as int - 1]),
                    );
                }
                s = s2;
                t = t + 1;
            }
            let bv = b.get(row);
            let val = match bv.sub(s) {
                Ok(v) => v,
                Err(_) => {
                    proof {
                        if n == 1 {
                            crate::rat::lemma_sub_zero_pair(bv@);
                        }
                    }
                    return Err(LinError::Overflow);
                },
            };
            proof {
                lemma_dot_l_valid(mm, row as int, y@, row as int - 1);
                lemma_chain_sub(
                    val@,
                    bv@,
                    s@,
                    b@[row as int - 1],
                    dot_l(mm, row as int, y@, row as int - 1),
                );
                if n == 1 {
                    crate::rat::lemma_sub_zero_pair(bv@);
                    assert(crate::rat::q_rep_le(val@, b@[0]));
                }
            }
            let ghost y1 = y@;
            y.set(row, val);
            proof {
                assert forall|r2: int| 1 <= r2 <= row as int implies q_eq(
                    #[trigger] y@[r2 - 1],
                    q_sub(b@[r2 - 1], dot_l(mm, r2, y@, r2 - 1)),
                ) by {
                    lemma_dot_l_frame(mm, r2, y1, y@, r2 - 1);
                    if r2 < row as int {
                        assert(y@[r2 - 1] == y1[r2 - 1]);
                    }
                }
            }
            row = row + 1;
        }
        // backward substitution: U x = y
        let mut x = Vector::new(n);
        let mut rrow: usize = n;
        while rrow >= 1
            invariant
                self.wf(),
                self.pivots_nonzero(),
                mm == self.mat(),
                n == mm.dim(),
                lb == mm.lband(),
                ub == mm.uband(),
                n < usize::MAX,
                0 <= rrow <= n,
                y.wf(),
                y@.len() == n,
                n == 1 ==> crate::rat::q_rep_le(y@[0], b@[0]),
                x.wf(),
                x@.len() == n,
                forall|r2: int|
                    rrow < r2 <= n ==> q_eq(
                        #[trigger] x@[r2 - 1],
                        q_div(q_sub(y@[r2 - 1], dot_u_from(mm, r2, x@, r2 + 1)), mm.at_q(r2, r2)),
                    ),
            decreases rrow,
        {
            let hi: usize = if n - rrow < ub {
                n
            } else {
                rrow + ub
            };
            proof {
                assert forall|t: int| hi as int + 1 <= t <= x@.len() implies up_at(
                    mm,
                    rrow as int,
                    t,
                ).n == 0 by {
                    assert(!mm.inband(rrow as int, t));
                    mm.lemma_at_out_of_band(rrow as int, t);
                }
                lemma_dot_u_suffix_zero(mm, rrow as int, x@, hi as int + 1);
            }
            let mut s = Rat::zero();
            let mut t: usize = hi;
            while t > rrow
                invariant
                    self.wf(),
                    mm == self.mat(),
                    n == mm.dim(),
                    1 <= rrow <= n,
                    rrow <= t <= hi,
                    hi <= n,
                    x.wf(),
                    x@.len() == n,
                    s.wf(),
                    t == hi ==> s@ == crate::rat::q_zero(),
                    q_eq(s@, dot_u_from(mm, rrow as int, x@, t as int + 1)),
                decreases t,
            {
                let ur = self.m.get(rrow, t);
                let xv = x.get(t);
                let term = match ur.mul(xv) {
                    Ok(v) => v,
                    Err(_) => {
                        return Err(LinError::Overflow);
                    },
                };
                let s2 = match term.add(s) {
                    Ok(v) => v,
                    Err(_) => {
                        return Err(LinError::Overflow);
                    },
                };
                proof {
                    lemma_dot_u_valid(mm, rrow as int, x@, t as int + 1);
                    mm.lemma_at_wf(rrow as int, t as int);
                    assert(ur@ == up_at(mm, rrow as int, t as int));
                    lemma_prod_nonzero(up_at(mm, rrow as int, t as int).d, x@[t as int - 1].d);
                    lemma_chain_mul(term@, ur@, xv@, up_at(mm, rrow as int, t as int), x@[t as int - 1]);
                    lemma_chain_add(
                        s2@,
                        term@,
                        s@,
                        q_mul(up_at(mm, rrow as int, t as int), x@[t as int - 1]),
                        dot_u_from(mm, rrow as int, x@, t as int + 1),
                    );
                }
                s = s2;
                t = t - 1;
            }
            let yv = y.get(rrow);
            let num = match yv.sub(s) {
                Ok(v) => v,
                Err(_) => {
                    proof {
                        if n == 1 {
                            crate::rat::lemma_sub_zero_pair(yv@);
                        }
                    }
                    return Err(LinError::Overflow);
                },
            };
            let pv = self.m.get(rrow, rrow);
            let val = match num.div(pv) {
                Ok(v) => v,
                Err(_) => {
                    proof {
                        if n == 1 && crate::rat::q_small(q_div(b@[0], mm.at_q(1, 1))) {
                            crate::rat::lemma_sub_zero_pair(yv@);
                            assert(crate::rat::q_rep_le(num@, b@[0]));
                            crate::rat::lemma_div_small_transfer(num@, b@[0], pv@);
                        }
                    }
                    return Err(LinError::Overflow);
                },
            };
            proof {
                lemma_dot_u_valid(mm, rrow as int, x@, rrow as int + 1);
                lemma_chain_sub(
                    num@,
                    yv@,
                    s@,
                    y@[rrow as int - 1],
                    dot_u_from(mm, rrow as int, x@, rrow as int + 1),
                );
                lemma_prod_nonzero(
                    y@[rrow as int - 1].d,
                    dot_u_from(mm, rrow as int, x@, rrow as int + 1).d,
                );
                mm.lemma_at_wf(rrow as int, rrow as int);
                lemma_chain_div(
                    val@,
                    num@,
                    pv@,
                    q_sub(y@[rrow as int - 1], dot_u_from(mm, rrow as int, x@, rrow as int + 1)),
                    mm.at_q(rrow as int, rrow as int),
                );
            }
            let ghost x1 = x@;
            x.set(rrow, val);
            proof {
                assert forall|r2: int| rrow as int - 1 < r2 <= n as int implies q_eq(
                    #[trigger] x@[r2 - 1],
                    q_div(q_sub(y@[r2 - 1], dot_u_from(mm, r2, x@, r2 + 1)), mm.at_q(r2, r2)),
                ) by {
                    lemma_dot_u_frame(mm, r2, x1, x@, r2 + 1);
                    if r2 > rrow as int {
                        assert(x@[r2 - 1] == x1[r2 - 1]);
                    } else {
                        lemma_dot_u_frame(mm, r2, x1, x@, rrow as int + 1);
                    }
                }
            }
            rrow = rrow - 1;
        }
        proof {
            assert(forward_ok(mm, b@, y@));
            assert(backward_ok(mm, y@, x@));
        }
        Ok(x)
    }
}

/// An upper entry beyond the band is finished before any write: the input
/// is zero there, and so is the factor product.
proof fn lemma_udone_oob(a: BandMatrix, m: BandMatrix, k: int, j: int)
    requires
        a.wf(),
        m.wf(),
        same_shape(a, m),
        1 <= k <= j <= a.dim(),
        j - k > a.uband(),
    ensures
        udone(a, m, k, j),
{
    assert forall|t: int| 1 <= t <= k implies lo_at(m, k, t).n == 0 || up_at(m, t, j).n == 0 by {
        assert(!m.inband(t, j));
        m.lemma_at_out_of_band(t, j);
    }
    lemma_dot_prefix_zero(m, k, j, k);
    a.lemma_at_out_of_band(k, j);
}

/// A lower entry beyond the band is finished before any write.
proof fn lemma_ldone_oob(a: BandMatrix, m: BandMatrix, i: int, k: int)
    requires
        a.wf(),
        m.wf(),
        same_shape(a, m),
        1 <= k < i <= a.dim(),
        i - k > a.lband(),
    ensures
        ldone(a, m, i, k),
{
    assert forall|t: int| 1 <= t <= k implies lo_at(m, i, t).n == 0 || up_at(m, t, k).n == 0 by {
        assert(!m.inband(i, t));
        m.lemma_at_out_of_band(i, t);
    }
    lemma_dot_prefix_zero(m, i, k, k);
    a.lemma_at_out_of_band(i, k);
}

/// Passing over the out-of-band upper cell `(k, col)` without a write
/// advances the elimination state.
proof fn lemma_skip_u(a: BandMatrix, m: BandMatrix, k: int, col: int)
    requires
        decomp_state(a, m, k, col, k + 1),
        1 <= k <= col <= a.dim(),
        col - k > a.uband(),
    ensures
        decomp_state(a, m, k, col + 1, k + 1),
{
    lemma_udone_oob(a, m, k, col);
    assert forall|i: int, j: int| 1 <= i <= j <= a.dim() implies #[trigger] upper_ok(
        a,
        m,
        k,
        col + 1,
        i,
        j,
    ) by {
        assert(upper_ok(a, m, k, col, i, j));
    }
}

/// Passing over the out-of-band lower cell `(row, k)` without a write
/// advances the elimination state.
proof fn lemma_skip_l(a: BandMatrix, m: BandMatrix, k: int, row: int)
    requires
        decomp_state(a, m, k, a.dim() + 1, row),
        1 <= k < row <= a.dim(),
        row - k > a.lband(),
    ensures
        decomp_state(a, m, k, a.dim() + 1, row + 1),
{
    lemma_ldone_oob(a, m, row, k);
    assert forall|i: int, j: int| 1 <= j < i <= a.dim() implies #[trigger] lower_ok(
        a,
        m,
        k,
        row + 1,
        i,
        j,
    ) by {
        assert(lower_ok(a, m, k, row, i, j));
    }
}

/// A fully processed pivot advances the elimination state to the next one.
proof fn lemma_next_pivot(a: BandMatrix, m: BandMatrix, k: int)
    requires
        decomp_state(a, m, k, a.dim() + 1, a.dim() + 1),
        1 <= k <= a.dim(),
    ensures
        decomp_state(a, m, k + 1, k + 1, k + 2),
{
    assert forall|i: int, j: int| 1 <= i <= j <= a.dim() implies #[trigger] upper_ok(
        a,
        m,
        k + 1,
        k + 1,
        i,
        j,
    ) by {
        assert(upper_ok(a, m, k, a.dim() + 1, i, j));
    }
    assert forall|i: int, j: int| 1 <= j < i <= a.dim() implies #[trigger] lower_ok(
        a,
        m,
        k + 1,
        k + 2,
        i,
        j,
    ) by {
        assert(lower_ok(a, m, k, a.dim() + 1, i, j));
    }
}

impl BandMatrix {
    /// The unoptimized reference decomposition: the same elimination as
    /// [`BandMatrix::lu_decompose`], but with the inner sums running
    /// unclipped from the first column and the outer sweeps over the full
    /// matrix.  It exists to validate the banded variant against; its
    /// contract is the same.  Full sweeps divide by every pivot but the
    /// last, so every pivot but the last is inspected.
    pub fn lu_decompose_slow(self) -> (r: Result<LuMatrices, LinError>)
        requires
            self.wf(),
        ensures
            r is Ok ==> r->Ok_0.wf() && factors(self, r->Ok_0.mat()),
            self.dim() <= 1 ==> r is Ok && r->Ok_0.mat() == self,
            r is Err ==> r == Err::<LuMatrices, LinError>(LinError::ZeroPivot) || r == Err::<
                LuMatrices,
                LinError,
            >(LinError::Overflow),
    {
        let ghost a = self;
        proof {
            self.lemma_dim_bound();
        }
        let mut m = self;
        let n: usize = m.n();
        if n <= 1 {
            proof {
                lemma_tiny_factors(a, m);
            }
            return Ok(LuMatrices { m });
        }
        proof {
            assert forall|i: int, j: int| 1 <= i <= j <= a.dim() implies #[trigger] upper_ok(
                a,
                m,
                1,
                1,
                i,
                j,
            ) by {}
            assert forall|i: int, j: int| 1 <= j < i <= a.dim() implies #[trigger] lower_ok(
                a,
                m,
                1,
                2,
                i,
                j,
            ) by {}
        }
        let mut k: usize = 1;
        while k <= n
            invariant
                a.wf(),
                m.wf(),
                a == self,
                2 <= n == a.dim(),
                n < usize::MAX,
                1 <= k <= n + 1,
                decomp_state(a, m, k as int, k as int, k as int + 1),
            decreases n + 1 - k,
        {
            let mut col: usize = k;
            while col <= n
                invariant
                    a.wf(),
                    m.wf(),
                    a == self,
                    2 <= n == a.dim(),
                    n < usize::MAX,
                    1 <= k <= n,
                    k <= col <= n + 1,
                    decomp_state(a, m, k as int, col as int, k as int + 1),
                decreases n + 1 - col,
            {
                let mut s = Rat::zero();
                let mut t: usize = 1;
                while t < k
                    invariant
                        a.wf(),
                        m.wf(),
                        a == self,
                        2 <= n == a.dim(),
                        1 <= k <= n,
                        k <= col <= n,
                        1 <= t <= k,
                        s.wf(),
                        q_eq(s@, lu_dot(m, k as int, col as int, t as int - 1)),
                        decomp_state(a, m, k as int, col as int, k as int + 1),
                    decreases k - t,
                {
                    let lr = m.get(k, t);
                    let ur = m.get(t, col);
                    let term = match lr.mul(ur) {
                        Ok(v) => v,
                        Err(_) => {
                            return Err(LinError::Overflow);
                        },
                    };
                    let s2 = match s.add(term) {
                        Ok(v) => v,
                        Err(_) => {
                            return Err(LinError::Overflow);
                        },
                    };
                    proof {
                        lemma_lu_dot_valid(m, k as int, col as int, t as int - 1);
                        lemma_term_valid(m, k as int, t as int, col as int);
                        assert(lr@ == lo_at(m, k as int, t as int));
                        assert(ur@ == up_at(m, t as int, col as int));
                        lemma_chain_mul(
                            term@,
                            lr@,
                            ur@,
                            lo_at(m, k as int, t as int),
                            up_at(m, t as int, col as int),
                        );
                        lemma_chain_add(
                            s2@,
                            s@,
                            term@,
                            lu_dot(m, k as int, col as int, t as int - 1),
                            q_mul(lo_at(m, k as int, t as int), up_at(m, t as int, col as int)),
                        );
                    }
                    s = s2;
                    t = t + 1;
                }
                let aval = m.get(k, col);
                let val = match aval.sub(s) {
                    Ok(v) => v,
                    Err(_) => {
                        return Err(LinError::Overflow);
                    },
                };
                proof {
                    assert(upper_ok(a, m, k as int, col as int, k as int, col as int));
                    lemma_lu_dot_valid(m, k as int, col as int, k as int - 1);
                    a.lemma_at_wf(k as int, col as int);
                    lemma_chain_sub(
                        val@,
                        aval@,
                        s@,
                        a.at_q(k as int, col as int),
                        lu_dot(m, k as int, col as int, k as int - 1),
                    );
                }
                let ghost m1 = m;
                let wres = m.set(k, col, val);
                proof {
                    if wres is Ok {
                        lemma_write_u(a, m1, m, k as int, col as int, val@);
                    } else {
                        assert(m == m1);
                        assert(!m1.inband(k as int, col as int));
                        a.lemma_shape_nonneg();
                        assert(col as int - k as int > a.uband());
                        lemma_skip_u(a, m, k as int, col as int);
                    }
                }
                col = col + 1;
            }
            // the pivot serves as a divisor only when a row lies below it;
            // it is inspected only then
            if k < n {
                let piv = m.get(k, k);
                if piv.is_zero() {
                    return Err(LinError::ZeroPivot);
                }
            }
            let mut row: usize = k + 1;
            while row <= n
                invariant
                    a.wf(),
                    m.wf(),
                    a == self,
                    2 <= n == a.dim(),
                    n < usize::MAX,
                    1 <= k <= n,
                    k + 1 <= row <= n + 1,
                    decomp_state(a, m, k as int, n as int + 1, row as int),
                    k < n ==> !q_is_zero(m.at_q(k as int, k as int)),
                decreases n + 1 - row,
            {
                let mut s = Rat::zero();
                let mut t: usize = 1;
                while t < k
                    invariant
                        a.wf(),
                        m.wf(),
                        a == self,
                        2 <= n == a.dim(),
                        1 <= k <= n,
                        k + 1 <= row <= n,
                        1 <= t <= k,
                        s.wf(),
                        q_eq(s@, lu_dot(m, row as int, k as int, t as int - 1)),
                        decomp_state(a, m, k as int, n as int + 1, row as int),
                        !q_is_zero(m.at_q(k as int, k as int)),
                    decreases k - t,
                {
                    let lr = m.get(row, t);
                    let ur = m.get(t, k);
                    let term = match lr.mul(ur) {
                        Ok(v) => v,
                        Err(_) => {
                            return Err(LinError::Overflow);
                        },
                    };
                    let s2 = match s.add(term) {
                        Ok(v) => v,
                        Err(_) => {
                            return Err(LinError::Overflow);
                        },
                    };
                    proof {
                        lemma_lu_dot_valid(m, row as int, k as int, t as int - 1);
                        lemma_term_valid(m, row as int, t as int, k as int);
                        assert(lr@ == lo_at(m, row as int, t as int));
                        assert(ur@ == up_at(m, t as int, k as int));
                        lemma_chain_mul(
                            term@,
                            lr@,
                            ur@,
                            lo_at(m, row as int, t as int),
                            up_at(m, t as int, k as int),
                        );
                        lemma_chain_add(
                            s2@,
                            s@,
                            term@,
                            lu_dot(m, row as int, k as int, t as int - 1),
                            q_mul(lo_at(m, row as int, t as int), up_at(m, t as int, k as int)),
                        );
                    }
                    s = s2;
                    t = t + 1;
                }
                let aval = m.get(row, k);
                let num = match aval.sub(s) {
                    Ok(v) => v,
                    Err(_) => {
                        return Err(LinError::Overflow);
                    },
                };
                let pv = m.get(k, k);
                let val = match num.div(pv) {
                    Ok(v) => v,
                    Err(_) => {
                        return Err(LinError::Overflow);
                    },
                };
                proof {
                    assert(lower_ok(a, m, k as int, row as int, row as int, k as int));
                    lemma_lu_dot_valid(m, row as int, k as int, k as int - 1);
                    a.lemma_at_wf(row as int, k as int);
                    lemma_chain_sub(
                        num@,
                        aval@,
                        s@,
                        a.at_q(row as int, k as int),
                        lu_dot(m, row as int, k as int, k as int - 1),
                    );
                    lemma_prod_nonzero(
                        a.at_q(row as int, k as int).d,
                        lu_dot(m, row as int, k as int, k as int - 1).d,
                    );
                    lemma_chain_div(
                        val@,
                        num@,
                        pv@,
                        q_sub(
                            a.at_q(row as int, k as int),
                            lu_dot(m, row as int, k as int, k as int - 1),
                        ),
                        m.at_q(k as int, k as int),
                    );
                }
                let ghost m1 = m;
                let wres = m.set(row, k, val);
                proof {
                    if wres is Ok {
                        lemma_write_l(a, m1, m, k as int, row as int, val@);
                    } else {
                        assert(m == m1);
                        assert(!m1.inband(row as int, k as int));
                        a.lemma_shape_nonneg();
                        assert(row as int - k as int > a.lband());
                        lemma_skip_l(a, m, k as int, row as int);
                    }
                }
                row = row + 1;
            }
            proof {
                lemma_next_pivot(a, m, k as int);
            }
            k = k + 1;
        }
        proof {
            lemma_state_to_prod(a, m);
        }
        Ok(LuMatrices { m })
    }
}

/// A stretch of forward terms whose L factor has a zero numerator
/// contributes nothing.
proof fn lemma_dot_l_zero_stretch(m: BandMatrix, row: int, y: Seq<Q>, lo: int, hi: int)
    requires
        m.wf(),
        crate::vector::seq_wf(y),
        0 <= lo <= hi <= y.len(),
        forall|t: int| lo < t <= hi ==> lo_at(m, row, t).n == 0,
    ensures
        q_eq(dot_l(m, row, y, hi), dot_l(m, row, y, lo)),
    decreases hi - lo,
{
    if lo < hi {
        lemma_dot_l_zero_stretch(m, row, y, lo, hi - 1);
        vstd::arithmetic::mul::lemma_mul_by_zero_is_zero(y[hi - 1].n);
        lemma_add_zero(dot_l(m, row, y, hi - 1), q_mul(lo_at(m, row, hi), y[hi - 1]));
        lemma_dot_l_valid(m, row, y, hi - 1);
        lemma_dot_l_valid(m, row, y, lo);
        lemma_q_eq_trans(dot_l(m, row, y, hi), dot_l(m, row, y, hi - 1), dot_l(m, row, y, lo));
    }
}

/// A stretch of backward terms whose U factor has a zero numerator
/// contributes nothing.
proof fn lemma_dot_u_zero_stretch(m: BandMatrix, row: int, x: Seq<Q>, from: int, mid: int)
    requires
        m.wf(),
        crate::vector::seq_wf(x),
        1 <= from <= mid,
        mid <= x.len() + 1,
        forall|t: int| from <= t < mid ==> up_at(m, row, t).n == 0,
    ensures
        q_eq(dot_u_from(m, row, x, from), dot_u_from(m, row, x, mid)),
    decreases mid - from,
{
    if from < mid {
        lemma_dot_u_zero_stretch(m, row, x, from + 1, mid);
        vstd::arithmetic::mul::lemma_mul_by_zero_is_zero(x[from - 1].n);
        crate::rat::lemma_add_zero_left(
            q_mul(up_at(m, row, from), x[from - 1]),
            dot_u_from(m, row, x, from + 1),
        );
        lemma_dot_u_valid(m, row, x, from + 1);
        lemma_dot_u_valid(m, row, x, mid);
        lemma_q_eq_trans(
            dot_u_from(m, row, x, from),
            dot_u_from(m, row, x, from + 1),
            dot_u_from(m, row, x, mid),
        );
    }
}

/// The forward-substitution result solves `L y = b`: in every row, the L
/// factor's full row sum against `y` reproduces the right-hand side.
pub proof fn lemma_forward_solves(m: BandMatrix, b: Seq<Q>, y: Seq<Q>, r: int)
    requires
        m.wf(),
        crate::vector::seq_wf(b),
        crate::vector::seq_wf(y),
        forward_ok(m, b, y),
        1 <= r <= y.len(),
    ensures
        q_eq(dot_l(m, r, y, y.len() as int), b[r - 1]),
{
    let len = y.len() as int;
    assert forall|t: int| r < t <= len implies lo_at(m, r, t).n == 0 by {}
    lemma_dot_l_zero_stretch(m, r, y, r, len);
    lemma_dot_l_valid(m, r, y, r - 1);
    lemma_u_entry(dot_l(m, r, y, r - 1), b[r - 1], y[r - 1]);
    assert(dot_l(m, r, y, r) == q_add(dot_l(m, r, y, r - 1), q_mul(q_one(), y[r - 1])));
    lemma_dot_l_valid(m, r, y, r);
    lemma_q_eq_trans(dot_l(m, r, y, len), dot_l(m, r, y, r), b[r - 1]);
}

/// The backward-substitution result solves `U x = y`: in every row, the U
/// factor's full row sum against `x` reproduces the forward result.
pub proof fn lemma_backward_solves(m: BandMatrix, y: Seq<Q>, x: Seq<Q>, r: int)
    requires
        m.wf(),
        crate::vector::seq_wf(y),
        crate::vector::seq_wf(x),
        backward_ok(m, y, x),
        1 <= r <= x.len(),
        !q_is_zero(m.at_q(r, r)),
    ensures
        q_eq(dot_u_from(m, r, x, 1), y[r - 1]),
{
    let p = m.at_q(r, r);
    let v = x[r - 1];
    let s = dot_u_from(m, r, x, r + 1);
    m.lemma_at_wf(r, r);
    lemma_dot_u_valid(m, r, x, r + 1);
    // the whole sum reduces to the terms from the diagonal on
    assert forall|t: int| 1 <= t < r implies up_at(m, r, t).n == 0 by {}
    lemma_dot_u_zero_stretch(m, r, x, 1, r);
    assert(dot_u_from(m, r, x, r) == q_add(q_mul(p, v), s));
    // the diagonal term completes the row: p * v + s denotes y(r)
    crate::rat::lemma_q_mul_comm(p, v);
    lemma_prod_nonzero(p.d, v.d);
    lemma_prod_nonzero(v.d, p.d);
    crate::rat::lemma_add_congr(q_mul(p, v), s, q_mul(v, p), s);
    crate::rat::lemma_q_add_comm(q_mul(v, p), s);
    lemma_prod_nonzero(q_mul(v, p).d, s.d);
    lemma_l_entry(s, y[r - 1], p, v);
    lemma_prod_nonzero(s.d, q_mul(v, p).d);
    lemma_q_eq_trans(q_add(q_mul(p, v), s), q_add(q_mul(v, p), s), q_add(s, q_mul(v, p)));
    lemma_q_eq_trans(q_add(q_mul(p, v), s), q_add(s, q_mul(v, p)), y[r - 1]);
    lemma_dot_u_valid(m, r, x, r);
    lemma_q_eq_trans(dot_u_from(m, r, x, 1), dot_u_from(m, r, x, r), y[r - 1]);
}

/// Prefix of the backward row sum: over `j` in `1..=cut`, `U(t, j) * x(j)`.
spec fn usum(f: BandMatrix, t: int, x: Seq<Q>, cut: int) -> Q
    decreases cut,
{
    if cut <= 0 {
        q_zero()
    } else {
        q_add(usum(f, t, x, cut - 1), q_mul(up_at(f, t, cut), x[cut - 1]))
    }
}

/// Column sum: over `t` in `1..=cut`, `(L(r, t) * U(t, jcol)) * xj`.
spec fn csum(f: BandMatrix, r: int, jcol: int, xj: Q, cut: int) -> Q
    decreases cut,
{
    if cut <= 0 {
        q_zero()
    } else {
        q_add(csum(f, r, jcol, xj, cut - 1), q_mul(q_mul(lo_at(f, r, cut), up_at(f, cut, jcol)), xj))
    }
}

/// Row-major double sum: over `j` in `1..=cut`, the partial product entry
/// `(L U)(r, j)` up to `tcut`, times `x(j)`.
spec fn wsum(f: BandMatrix, r: int, x: Seq<Q>, tcut: int, cut: int) -> Q
    decreases cut,
{
    if cut <= 0 {
        q_zero()
    } else {
        q_add(wsum(f, r, x, tcut, cut - 1), q_mul(lu_dot(f, r, cut, tcut), x[cut - 1]))
    }
}

/// Column-major double sum: over `t` in `1..=cut`, `L(r, t)` times the
/// prefix backward sum of row `t` up to `jcut`.
spec fn lsum(f: BandMatrix, r: int, x: Seq<Q>, jcut: int, cut: int) -> Q
    decreases cut,
{
    if cut <= 0 {
        q_zero()
    } else {
        q_add(lsum(f, r, x, jcut, cut - 1), q_mul(lo_at(f, r, cut), usum(f, cut, x, jcut)))
    }
}

/// The prefix backward sum over representable entries is valid.
proof fn lemma_usum_valid(f: BandMatrix, t: int, x: Seq<Q>, cut: int)
    requires
        f.wf(),
        crate::vector::seq_wf(x),
        cut <= x.len(),
    ensures
        q_valid(usum(f, t, x, cut)),
    decreases cut,
{
    if cut > 0 {
        lemma_usum_valid(f, t, x, cut - 1);
        f.lemma_at_wf(t, cut);
        lemma_prod_nonzero(up_at(f, t, cut).d, x[cut - 1].d);
        lemma_prod_nonzero(usum(f, t, x, cut - 1).d, q_mul(up_at(f, t, cut), x[cut - 1]).d);
    }
}

/// The column sum over representable entries is valid.
proof fn lemma_csum_valid(f: BandMatrix, r: int, jcol: int, xj: Q, cut: int)
    requires
        f.wf(),
        q_valid(xj),
    ensures
        q_valid(csum(f, r, jcol, xj, cut)),
    decreases cut,
{
    if cut > 0 {
        lemma_csum_valid(f, r, jcol, xj, cut - 1);
        lemma_term_valid(f, r, cut, jcol);
        lemma_prod_nonzero(q_mul(lo_at(f, r, cut), up_at(f, cut, jcol)).d, xj.d);
        lemma_prod_nonzero(
            csum(f, r, jcol, xj, cut - 1).d,
            q_mul(q_mul(lo_at(f, r, cut), up_at(f, cut, jcol)), xj).d,
        );
    }
}

/// The row-major double sum over representable entries is valid.
proof fn lemma_wsum_valid(f: BandMatrix, r: int, x: Seq<Q>, tcut: int, cut: int)
    requires
        f.wf(),
        crate::vector::seq_wf(x),
        cut <= x.len(),
    ensures
        q_valid(wsum(f, r, x, tcut, cut)),
    decreases cut,
{
    if cut > 0 {
        lemma_wsum_valid(f, r, x, tcut, cut - 1);
        lemma_lu_dot_valid(f, r, cut, tcut);
        lemma_prod_nonzero(lu_dot(f, r, cut, tcut).d, x[cut - 1].d);
        lemma_prod_nonzero(wsum(f, r, x, tcut, cut - 1).d, q_mul(lu_dot(f, r, cut, tcut), x[cut - 1]).d);
    }
}

/// The column-major double sum over representable entries is valid.
proof fn lemma_lsum_valid(f: BandMatrix, r: int, x: Seq<Q>, jcut: int, cut: int)
    requires
        f.wf(),
        crate::vector::seq_wf(x),
        jcut <= x.len(),
    ensures
        q_valid(lsum(f, r, x, jcut, cut)),
    decreases cut,
{
    if cut > 0 {
        lemma_lsum_valid(f, r, x, jcut, cut - 1);
        lemma_usum_valid(f, cut, x, jcut);
        f.lemma_at_wf(r, cut);
        lemma_prod_nonzero(lo_at(f, r, cut).d, usum(f, cut, x, jcut).d);
        lemma_prod_nonzero(lsum(f, r, x, jcut, cut - 1).d, q_mul(lo_at(f, r, cut), usum(f, cut, x, jcut)).d);
    }
}

/// The prefix backward sum assembled left to right agrees with the suffix
/// backward sum assembled right to left.
proof fn lemma_usum_fold(f: BandMatrix, t: int, x: Seq<Q>, from: int)
    requires
        f.wf(),
        crate::vector::seq_wf(x),
        1 <= from <= x.len() + 1,
    ensures
        q_eq(
            q_add(usum(f, t, x, from - 1), dot_u_from(f, t, x, from)),
            usum(f, t, x, x.len() as int),
        ),
    decreases x.len() + 1 - from,
{
    let len = x.len() as int;
    lemma_usum_valid(f, t, x, from - 1);
    if from == len + 1 {
        lemma_add_zero(usum(f, t, x, len), dot_u_from(f, t, x, from));
    } else {
        lemma_usum_fold(f, t, x, from + 1);
        let av = usum(f, t, x, from - 1);
        let term = q_mul(up_at(f, t, from), x[from - 1]);
        let rest = dot_u_from(f, t, x, from + 1);
        f.lemma_at_wf(t, from);
        lemma_prod_nonzero(up_at(f, t, from).d, x[from - 1].d);
        lemma_dot_u_valid(f, t, x, from + 1);
        crate::rat::lemma_q_add_assoc(av, term, rest);
        assert(q_add(av, term) == usum(f, t, x, from));
        lemma_usum_valid(f, t, x, from);
        lemma_prod_nonzero(usum(f, t, x, from).d, rest.d);
        lemma_q_eq_trans(
            q_add(av, dot_u_from(f, t, x, from)),
            q_add(usum(f, t, x, from), rest),
            usum(f, t, x, len),
        );
    }
}

/// The full prefix backward sum denotes the full suffix backward sum.
proof fn lemma_usum_is_dot_u(f: BandMatrix, t: int, x: Seq<Q>)
    requires
        f.wf(),
        crate::vector::seq_wf(x),
    ensures
        q_eq(usum(f, t, x, x.len() as int), dot_u_from(f, t, x, 1)),
{
    let len = x.len() as int;
    lemma_usum_fold(f, t, x, 1);
    lemma_dot_u_valid(f, t, x, 1);
    crate::rat::lemma_add_zero_left(q_zero(), dot_u_from(f, t, x, 1));
    lemma_prod_nonzero(1, dot_u_from(f, t, x, 1).d);
    lemma_usum_valid(f, t, x, len);
    lemma_q_eq_trans(
        usum(f, t, x, len),
        q_add(q_zero(), dot_u_from(f, t, x, 1)),
        dot_u_from(f, t, x, 1),
    );
}

/// A partial product entry times a scalar distributes into the column sum.
proof fn lemma_dot_mul_dist(f: BandMatrix, r: int, jcol: int, xj: Q, cut: int)
    requires
        f.wf(),
        q_valid(xj),
        0 <= cut,
    ensures
        q_eq(q_mul(lu_dot(f, r, jcol, cut), xj), csum(f, r, jcol, xj, cut)),
    decreases cut,
{
    if cut == 0 {
        vstd::arithmetic::mul::lemma_mul_by_zero_is_zero(xj.n);
        vstd::arithmetic::mul::lemma_mul_by_zero_is_zero(q_mul(q_zero(), xj).d);
        assert(q_mul(lu_dot(f, r, jcol, 0), xj).n == 0);
    } else {
        lemma_dot_mul_dist(f, r, jcol, xj, cut - 1);
        let s = lu_dot(f, r, jcol, cut - 1);
        let term = q_mul(lo_at(f, r, cut), up_at(f, cut, jcol));
        assert(lu_dot(f, r, jcol, cut) == q_add(s, term));
        lemma_lu_dot_valid(f, r, jcol, cut - 1);
        lemma_term_valid(f, r, cut, jcol);
        crate::rat::lemma_q_mul_distr(s, term, xj);
        lemma_csum_valid(f, r, jcol, xj, cut - 1);
        lemma_prod_nonzero(term.d, xj.d);
        lemma_prod_nonzero(s.d, xj.d);
        crate::rat::lemma_add_congr(
            q_mul(s, xj),
            q_mul(term, xj),
            csum(f, r, jcol, xj, cut - 1),
            q_mul(term, xj),
        );
        lemma_prod_nonzero(q_mul(s, xj).d, q_mul(term, xj).d);
        lemma_q_eq_trans(
            q_mul(lu_dot(f, r, jcol, cut), xj),
            q_add(q_mul(s, xj), q_mul(term, xj)),
            csum(f, r, jcol, xj, cut),
        );
    }
}

/// Extending every inner prefix sum by column `jcol` adds that column's
/// sum to the column-major double sum.
proof fn lemma_lsum_step(f: BandMatrix, r: int, x: Seq<Q>, jcol: int, cut: int)
    requires
        f.wf(),
        crate::vector::seq_wf(x),
        1 <= jcol <= x.len(),
        0 <= cut,
    ensures
        q_eq(
            lsum(f, r, x, jcol, cut),
            q_add(lsum(f, r, x, jcol - 1, cut), csum(f, r, jcol, x[jcol - 1], cut)),
        ),
    decreases cut,
{
    if cut == 0 {
    } else {
        lemma_lsum_step(f, r, x, jcol, cut - 1);
        let lo = lo_at(f, r, cut);
        let u1 = usum(f, cut, x, jcol - 1);
        let u2 = q_mul(up_at(f, cut, jcol), x[jcol - 1]);
        f.lemma_at_wf(r, cut);
        f.lemma_at_wf(cut, jcol);
        lemma_usum_valid(f, cut, x, jcol - 1);
        lemma_prod_nonzero(up_at(f, cut, jcol).d, x[jcol - 1].d);
        // L(r,cut) * (u1 + u2) ~ L*u1 + (L*U)*x
        crate::rat::lemma_q_mul_distl(lo, u1, u2);
        crate::rat::lemma_q_mul_assoc(lo, up_at(f, cut, jcol), x[jcol - 1]);
        lemma_prod_nonzero(lo.d, u1.d);
        crate::rat::lemma_add_congr(
            q_mul(lo, u1),
            q_mul(lo, u2),
            q_mul(lo, u1),
            q_mul(q_mul(lo, up_at(f, cut, jcol)), x[jcol - 1]),
        );
        let p = q_mul(lo, u1);
        let q2 = q_mul(q_mul(lo, up_at(f, cut, jcol)), x[jcol - 1]);
        let term = q_mul(lo, usum(f, cut, x, jcol));
        lemma_prod_nonzero(lo.d, usum(f, cut, x, jcol).d);
        lemma_usum_valid(f, cut, x, jcol);
        lemma_prod_nonzero(p.d, q_mul(lo, u2).d);
        lemma_q_eq_trans(term, q_add(p, q_mul(lo, u2)), q_add(p, q2));
        // assemble with the shuffle
        let l1 = lsum(f, r, x, jcol, cut - 1);
        let l2 = lsum(f, r, x, jcol - 1, cut - 1);
        let c2 = csum(f, r, jcol, x[jcol - 1], cut - 1);
        lemma_lsum_valid(f, r, x, jcol, cut - 1);
        lemma_lsum_valid(f, r, x, jcol - 1, cut - 1);
        lemma_csum_valid(f, r, jcol, x[jcol - 1], cut - 1);
        lemma_prod_nonzero(p.d, q2.d);
        lemma_prod_nonzero(l2.d, c2.d);
        crate::rat::lemma_add_congr(l1, term, q_add(l2, c2), q_add(p, q2));
        crate::rat::lemma_q_add_shuffle(l2, c2, p, q2);
        lemma_prod_nonzero(l2.d, p.d);
        lemma_prod_nonzero(c2.d, q2.d);
        lemma_prod_nonzero(q_add(l2, c2).d, q_add(p, q2).d);
        lemma_q_eq_trans(
            q_add(l1, term),
            q_add(q_add(l2, c2), q_add(p, q2)),
            q_add(q_add(l2, p), q_add(c2, q2)),
        );
        assert(q_add(l2, p) == lsum(f, r, x, jcol - 1, cut));
        assert(q_add(c2, q2) == csum(f, r, jcol, x[jcol - 1], cut));
    }
}

/// With no columns taken, the column-major double sum denotes zero.
proof fn lemma_lsum_empty(f: BandMatrix, r: int, x: Seq<Q>, cut: int)
    requires
        0 <= cut,
    ensures
        lsum(f, r, x, 0, cut).n == 0,
    decreases cut,
{
    if cut > 0 {
        lemma_lsum_empty(f, r, x, cut - 1);
        vstd::arithmetic::mul::lemma_mul_by_zero_is_zero(lo_at(f, r, cut).n);
        vstd::arithmetic::mul::lemma_mul_by_zero_is_zero(q_mul(lo_at(f, r, cut), usum(f, cut, x, 0)).d);
        vstd::arithmetic::mul::lemma_mul_by_zero_is_zero(lsum(f, r, x, 0, cut - 1).d);
    }
}

/// Exchanging the order of the double sum: summing the partial products
/// row by row equals summing them column by column.
proof fn lemma_exchange(f: BandMatrix, r: int, x: Seq<Q>, tcut: int, cut: int)
    requires
        f.wf(),
        crate::vector::seq_wf(x),
        0 <= cut <= x.len(),
        0 <= tcut,
    ensures
        q_eq(wsum(f, r, x, tcut, cut), lsum(f, r, x, cut, tcut)),
    decreases cut,
{
    if cut == 0 {
        lemma_lsum_empty(f, r, x, tcut);
        vstd::arithmetic::mul::lemma_mul_by_zero_is_zero(lsum(f, r, x, 0, tcut).d);
        assert(wsum(f, r, x, tcut, 0) == q_zero());
    } else {
        lemma_exchange(f, r, x, tcut, cut - 1);
        let w1 = wsum(f, r, x, tcut, cut - 1);
        let term = q_mul(lu_dot(f, r, cut, tcut), x[cut - 1]);
        let l1 = lsum(f, r, x, cut - 1, tcut);
        let c1 = csum(f, r, cut, x[cut - 1], tcut);
        lemma_dot_mul_dist(f, r, cut, x[cut - 1], tcut);
        lemma_wsum_valid(f, r, x, tcut, cut - 1);
        lemma_lu_dot_valid(f, r, cut, tcut);
        lemma_prod_nonzero(lu_dot(f, r, cut, tcut).d, x[cut - 1].d);
        lemma_lsum_valid(f, r, x, cut - 1, tcut);
        lemma_csum_valid(f, r, cut, x[cut - 1], tcut);
        crate::rat::lemma_add_congr(w1, term, l1, c1);
        lemma_lsum_step(f, r, x, cut, tcut);
        lemma_lsum_valid(f, r, x, cut, tcut);
        lemma_prod_nonzero(l1.d, c1.d);
        lemma_q_eq_trans(q_add(w1, term), q_add(l1, c1), lsum(f, r, x, cut, tcut));
    }
}

/// Row `r` of the input matrix against `x` denotes row `r` of the factor
/// product against `x`.
proof fn lemma_row_congr(a: BandMatrix, f: BandMatrix, r: int, x: Seq<Q>, cut: int)
    requires
        a.wf(),
        f.wf(),
        factors(a, f),
        crate::vector::seq_wf(x),
        x.len() == a.dim(),
        1 <= r <= a.dim(),
        0 <= cut <= a.dim(),
    ensures
        q_eq(crate::relax::row_dot(a, r, x, cut), wsum(f, r, x, f.dim(), cut)),
    decreases cut,
{
    if cut > 0 {
        lemma_row_congr(a, f, r, x, cut - 1);
        crate::relax::lemma_row_dot_valid(a, r, x, cut - 1);
        lemma_wsum_valid(f, r, x, f.dim(), cut - 1);
        a.lemma_at_wf(r, cut);
        lemma_lu_dot_valid(f, r, cut, f.dim());
        assert(q_eq(lu_prod(f, r, cut), a.at_q(r, cut)));
        crate::rat::lemma_mul_congr(a.at_q(r, cut), x[cut - 1], lu_dot(f, r, cut, f.dim()), x[cut - 1]);
        crate::rat::lemma_add_congr(
            crate::relax::row_dot(a, r, x, cut - 1),
            q_mul(a.at_q(r, cut), x[cut - 1]),
            wsum(f, r, x, f.dim(), cut - 1),
            q_mul(lu_dot(f, r, cut, f.dim()), x[cut - 1]),
        );
    }
}

/// The column-major double sum against the solved `x` denotes the L
/// factor's row sum against the intermediate `y`.
proof fn lemma_lsum_to_dot_l(
    f: BandMatrix,
    r: int,
    y: Seq<Q>,
    x: Seq<Q>,
    cut: int,
)
    requires
        f.wf(),
        crate::vector::seq_wf(y),
        crate::vector::seq_wf(x),
        x.len() == f.dim(),
        y.len() == f.dim(),
        backward_ok(f, y, x),
        forall|t: int| 1 <= t <= f.dim() ==> !q_is_zero(#[trigger] f.at_q(t, t)),
        0 <= cut <= f.dim(),
    ensures
        q_eq(lsum(f, r, x, x.len() as int, cut), dot_l(f, r, y, cut)),
    decreases cut,
{
    if cut > 0 {
        lemma_lsum_to_dot_l(f, r, y, x, cut - 1);
        let len = x.len() as int;
        lemma_usum_is_dot_u(f, cut, x);
        lemma_backward_solves(f, y, x, cut);
        lemma_usum_valid(f, cut, x, len);
        lemma_dot_u_valid(f, cut, x, 1);
        lemma_q_eq_trans(usum(f, cut, x, len), dot_u_from(f, cut, x, 1), y[cut - 1]);
        f.lemma_at_wf(r, cut);
        crate::rat::lemma_mul_congr(
            lo_at(f, r, cut),
            usum(f, cut, x, len),
            lo_at(f, r, cut),
            y[cut - 1],
        );
        lemma_lsum_valid(f, r, x, len, cut - 1);
        lemma_dot_l_valid(f, r, y, cut - 1);
        crate::rat::lemma_add_congr(
            lsum(f, r, x, len, cut - 1),
            q_mul(lo_at(f, r, cut), usum(f, cut, x, len)),
            dot_l(f, r, y, cut - 1),
            q_mul(lo_at(f, r, cut), y[cut - 1]),
        );
    }
}

/// The solution law: a factorization of `a` together with a forward and a
/// backward substitution solves the original system exactly.  In every
/// row, the input matrix's full row sum against `x` denotes the right-hand
/// side.
pub proof fn lemma_solution_solves_system(
    a: BandMatrix,
    f: BandMatrix,
    b: Seq<Q>,
    y: Seq<Q>,
    x: Seq<Q>,
    r: int,
)
    requires
        a.wf(),
        f.wf(),
        factors(a, f),
        crate::vector::seq_wf(b),
        crate::vector::seq_wf(y),
        crate::vector::seq_wf(x),
        b.len() == a.dim(),
        y.len() == a.dim(),
        x.len() == a.dim(),
        forward_ok(f, b, y),
        backward_ok(f, y, x),
        forall|t: int| 1 <= t <= f.dim() ==> !q_is_zero(#[trigger] f.at_q(t, t)),
        1 <= r <= a.dim(),
    ensures
        q_eq(crate::relax::row_dot(a, r, x, a.dim()), b[r - 1]),
{
    let n = a.dim();
    lemma_row_congr(a, f, r, x, n);
    lemma_exchange(f, r, x, n, n);
    lemma_lsum_to_dot_l(f, r, y, x, n);
    lemma_forward_solves(f, b, y, r);
    lemma_wsum_valid(f, r, x, n, n);
    lemma_lsum_valid(f, r, x, n, n);
    lemma_dot_l_valid(f, r, y, n);
    lemma_q_eq_trans(
        crate::relax::row_dot(a, r, x, n),
        wsum(f, r, x, n, n),
        lsum(f, r, x, n, n),
    );
    lemma_q_eq_trans(crate::relax::row_dot(a, r, x, n), lsum(f, r, x, n, n), dot_l(f, r, y, n));
    lemma_q_eq_trans(crate::relax::row_dot(a, r, x, n), dot_l(f, r, y, n), b[r - 1]);
}

} // verus!
