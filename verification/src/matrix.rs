//! Square banded matrices with one-based indexed access.
//!
//! A matrix of dimension `n` with lower bandwidth `l` and upper bandwidth
//! `u` stores only the band: `(l + u + 1)` slots per row, row-major.  Cells
//! outside the band are structurally zero: reading one yields zero, writing
//! one is rejected with a distinct error.

use vstd::prelude::*;

use crate::rat::{q_wf, q_zero, LinError, Q, Rat};

verus! {

/// A square band matrix of exact rational entries.
#[derive(Clone, Debug)]
pub struct BandMatrix {
    n: usize,
    l: usize,
    u: usize,
    elements: Vec<Rat>,
}

impl BandMatrix {
    /// The dimension, as a mathematical integer.
    pub closed spec fn dim(self) -> int {
        self.n as int
    }

    /// The lower bandwidth: diagonals below the main one that are stored.
    pub closed spec fn lband(self) -> int {
        self.l as int
    }

    /// The upper bandwidth: diagonals above the main one that are stored.
    pub closed spec fn uband(self) -> int {
        self.u as int
    }

    /// Width of one stored row.
    pub open spec fn width(self) -> int {
        self.lband() + self.uband() + 1
    }

    /// The one-based cell `(i, j)` lies inside the stored band.
    pub open spec fn inband(self, i: int, j: int) -> bool {
        &&& 1 <= i <= self.dim()
        &&& 1 <= j <= self.dim()
        &&& j - i <= self.uband()
        &&& i - j <= self.lband()
    }

    /// Storage offset of an in-band cell.
    pub open spec fn off(self, i: int, j: int) -> int {
        self.width() * (i - 1) + self.lband() + (j - i)
    }

    /// The representation invariant: the storage holds exactly the band,
    /// every entry is representable, and the offsets fit `usize`.
    pub closed spec fn wf(self) -> bool {
        &&& self.width() <= usize::MAX
        &&& self.width() * self.dim() < usize::MAX
        &&& self.elements@.len() == self.width() * self.dim()
        &&& forall|k: int|
            0 <= k < self.elements@.len() ==> (#[trigger] self.elements@[k]).wf()
    }

    /// The mathematical entry at one-based `(i, j)`: the stored scalar
    /// inside the band, zero everywhere else.
    pub closed spec fn at_q(self, i: int, j: int) -> Q {
        if self.inband(i, j) && 0 <= self.off(i, j) < self.elements@.len() {
            self.elements@[self.off(i, j)]@
        } else {
            q_zero()
        }
    }

    /// An in-band offset is within storage, and distinct in-band cells have
    /// distinct offsets.
    proof fn lemma_off_range(self, i: int, j: int)
        requires
            self.wf(),
            self.inband(i, j),
        ensures
            0 <= self.off(i, j) < self.elements@.len(),
    {
        let w = self.width();
        assert(0 <= self.lband() + (j - i) < w);
        vstd::arithmetic::mul::lemma_mul_inequality(i - 1, self.dim() - 1, w);
        vstd::arithmetic::mul::lemma_mul_is_commutative(i - 1, w);
        vstd::arithmetic::mul::lemma_mul_is_commutative(self.dim() - 1, w);
        vstd::arithmetic::mul::lemma_mul_is_distributive_sub(w, self.dim(), 1);
        vstd::arithmetic::mul::lemma_mul_nonnegative(w, i - 1);
        vstd::arithmetic::mul::lemma_mul_is_commutative(w, i - 1);
    }

    /// Distinct in-band cells occupy distinct storage slots.
    proof fn lemma_off_inj(self, i: int, j: int, i2: int, j2: int)
        requires
            self.wf(),
            self.inband(i, j),
            self.inband(i2, j2),
            self.off(i, j) == self.off(i2, j2),
        ensures
            i == i2 && j == j2,
    {
        let w = self.width();
        vstd::arithmetic::div_mod::lemma_fundamental_div_mod_converse(
            self.off(i, j),
            w,
            i - 1,
            self.lband() + (j - i),
        );
        vstd::arithmetic::div_mod::lemma_fundamental_div_mod_converse(
            self.off(i2, j2),
            w,
            i2 - 1,
            self.lband() + (j2 - i2),
        );
    }

    /// The dimension of a well-formed matrix leaves room for a one-past-the-
    /// end index.
    pub proof fn lemma_dim_bound(self)
        requires
            self.wf(),
        ensures
            0 <= self.dim() < usize::MAX,
    {
        if self.dim() > 0 {
            assert(self.dim() <= self.width() * self.dim()) by (nonlinear_arith)
                requires
                    self.width() >= 1,
                    self.dim() > 0,
            ;
        }
    }

    /// Dimension and bandwidths are never negative.
    pub proof fn lemma_shape_nonneg(self)
        ensures
            self.dim() >= 0,
            self.lband() >= 0,
            self.uband() >= 0,
    {
    }

    /// Every mathematical entry of a well-formed matrix is representable.
    pub proof fn lemma_at_wf(self, i: int, j: int)
        requires
            self.wf(),
        ensures
            q_wf(self.at_q(i, j)),
    {
    }

    /// Out of the band the mathematical entry is the literal zero pair.
    pub proof fn lemma_at_out_of_band(self, i: int, j: int)
        requires
            !self.inband(i, j),
        ensures
            self.at_q(i, j) == q_zero(),
    {
    }

    /// The dimension.
    pub fn n(&self) -> (r: usize)
        ensures
            r == self.dim(),
    {
        self.n
    }

    /// The lower bandwidth.
    pub fn lower_bandwidth(&self) -> (r: usize)
        ensures
            r == self.lband(),
    {
        self.l
    }

    /// The upper bandwidth.
    pub fn upper_bandwidth(&self) -> (r: usize)
        ensures
            r == self.uband(),
    {
        self.u
    }

    /// A zero-filled `n` by `n` band matrix with bandwidths `l` and `u`.
    pub fn new(n: usize, l: usize, u: usize) -> (r: BandMatrix)
        requires
            l + u + 1 <= usize::MAX,
            (l + u + 1) * n < usize::MAX,
        ensures
            r.wf(),
            r.dim() == n,
            r.lband() == l,
            r.uband() == u,
            forall|i: int, j: int| #[trigger] r.at_q(i, j) == q_zero(),
    {
        let w: usize = l + u + 1;
        proof {
            vstd::arithmetic::mul::lemma_mul_nonnegative(w as int, n as int);
        }
        let total: usize = w * n;
        let mut elements: Vec<Rat> = Vec::new();
        while elements.len() < total
            invariant
                elements.len() <= total,
                forall|k: int| 0 <= k < elements.len() ==> (#[trigger] elements@[k])@ == q_zero()
                    && elements@[k].wf(),
            decreases total - elements.len(),
        {
            elements.push(Rat::zero());
        }
        BandMatrix { n, l, u, elements }
    }

    /// Storage offset of the one-based cell `(i, j)`, or `None` when the
    /// cell lies outside the stored band.
    fn idx(&self, i: usize, j: usize) -> (r: Option<usize>)
        requires
            self.wf(),
            1 <= i <= self.dim(),
            1 <= j <= self.dim(),
        ensures
            r is Some <==> self.inband(i as int, j as int),
            r is Some ==> r->0 == self.off(i as int, j as int) && r->0 < self.elements@.len(),
    {
        let w: usize = self.l + self.u + 1;
        if j >= i && j - i > self.u {
            return None;
        }
        if i >= j && i - j > self.l {
            return None;
        }
        proof {
            self.lemma_off_range(i as int, j as int);
        }
        let base: usize = w * (i - 1);
        let r: usize = if j >= i {
            base + (self.l + (j - i))
        } else {
            base + (self.l - (i - j))
        };
        Some(r)
    }

    /// The entry at one-based `(i, j)`; cells outside the band read as zero.
    pub fn get(&self, i: usize, j: usize) -> (r: Rat)
        requires
            self.wf(),
            1 <= i <= self.dim(),
            1 <= j <= self.dim(),
        ensures
            r@ == self.at_q(i as int, j as int),
            r.wf(),
    {
        match self.idx(i, j) {
            Some(k) => self.elements[k],
            None => Rat::zero(),
        }
    }

    /// Replace the entry at one-based `(i, j)`.
    ///
    /// A zero or too-large index is rejected with `IndexOutOfRange`; a cell
    /// outside the band is structurally zero and is rejected with
    /// `OutOfBand`.
    pub fn set(&mut self, i: usize, j: usize, v: Rat) -> (r: Result<(), LinError>)
        requires
            old(self).wf(),
            v.wf(),
        ensures
            final(self).wf(),
            final(self).dim() == old(self).dim(),
            final(self).lband() == old(self).lband(),
            final(self).uband() == old(self).uband(),
            r is Ok <==> old(self).inband(i as int, j as int),
            r == Err::<(), LinError>(LinError::IndexOutOfRange) <==> !(1 <= i <= old(self).dim()
                && 1 <= j <= old(self).dim()),
            r == Err::<(), LinError>(LinError::OutOfBand) <==> (1 <= i <= old(self).dim() && 1 <= j
                <= old(self).dim() && !old(self).inband(i as int, j as int)),
            r is Ok ==> final(self).at_q(i as int, j as int) == v@,
            r is Ok ==> forall|i2: int, j2: int|
                !(i2 == i as int && j2 == j as int) ==> #[trigger] final(self).at_q(i2, j2) == old(
                    self,
                ).at_q(i2, j2),
            r is Err ==> *final(self) == *old(self),
    {
        if i == 0 || i > self.n || j == 0 || j > self.n {
            return Err(LinError::IndexOutOfRange);
        }
        match self.idx(i, j) {
            Some(k) => {
                proof {
                    self.lemma_off_range(i as int, j as int);
                }
                self.elements.set(k, v);
                proof {
                    let newm = *self;
                    let oldm = *old(self);
                    assert(newm.at_q(i as int, j as int) == v@);
                    assert forall|i2: int, j2: int|
                        !(i2 == i as int && j2 == j as int) implies #[trigger] newm.at_q(i2, j2)
                        == oldm.at_q(i2, j2) by {
                        if oldm.inband(i2, j2) {
                            oldm.lemma_off_range(i2, j2);
                            if oldm.off(i2, j2) == oldm.off(i as int, j as int) {
                                oldm.lemma_off_inj(i2, j2, i as int, j as int);
                            }
                        }
                    }
                }
                Ok(())
            },
            None => Err(LinError::OutOfBand),
        }
    }
}

} // verus!
