//! One-based column vectors of exact rational scalars.

use vstd::prelude::*;

use crate::rat::{
    lemma_chain_add, lemma_prod_nonzero, q_add, q_div, q_eq, q_is_zero, q_mul, q_sub, q_valid,
    q_wf, q_zero, LinError, Q, Rat,
};

verus! {

/// All entries of the sequence fit the executable representation.
pub open spec fn seq_wf(s: Seq<Q>) -> bool {
    forall|k: int| 0 <= k < s.len() ==> q_wf(#[trigger] s[k])
}

/// Sum of the first `j` entries of `s`.
pub open spec fn seq_sum(s: Seq<Q>, j: int) -> Q
    decreases j,
{
    if j <= 0 {
        q_zero()
    } else {
        q_add(seq_sum(s, j - 1), s[j - 1])
    }
}

/// Sum of squares of the first `j` entries of `s`.
pub open spec fn seq_norm_sq(s: Seq<Q>, j: int) -> Q
    decreases j,
{
    if j <= 0 {
        q_zero()
    } else {
        q_add(seq_norm_sq(s, j - 1), q_mul(s[j - 1], s[j - 1]))
    }
}

/// A partial sum of representable entries is valid (its denominator is not
/// zero).
pub proof fn lemma_seq_sum_valid(s: Seq<Q>, j: int)
    requires
        seq_wf(s),
        j <= s.len(),
    ensures
        q_valid(seq_sum(s, j)),
    decreases j,
{
    if j > 0 {
        lemma_seq_sum_valid(s, j - 1);
        lemma_prod_nonzero(seq_sum(s, j - 1).d, s[j - 1].d);
    }
}

/// A partial sum of squares of representable entries is valid.
pub proof fn lemma_seq_norm_sq_valid(s: Seq<Q>, j: int)
    requires
        seq_wf(s),
        j <= s.len(),
    ensures
        q_valid(seq_norm_sq(s, j)),
    decreases j,
{
    if j > 0 {
        lemma_seq_norm_sq_valid(s, j - 1);
        lemma_prod_nonzero(s[j - 1].d, s[j - 1].d);
        lemma_prod_nonzero(seq_norm_sq(s, j - 1).d, q_mul(s[j - 1], s[j - 1]).d);
    }
}

/// All entries of the sequence are valid rationals.
pub open spec fn seq_valid(s: Seq<Q>) -> bool {
    forall|k: int| 0 <= k < s.len() ==> q_valid(#[trigger] s[k])
}

/// Pointwise difference of two sequences of equal length.
pub open spec fn seq_diff(p: Seq<Q>, n: Seq<Q>) -> Seq<Q> {
    Seq::new(p.len(), |k: int| q_sub(p[k], n[k]))
}

/// Two sequences denote the same vector, entry by entry.
pub open spec fn seq_q_eq(s1: Seq<Q>, s2: Seq<Q>) -> bool {
    s1.len() == s2.len() && forall|k: int| 0 <= k < s1.len() ==> q_eq(#[trigger] s1[k], s2[k])
}

/// A partial sum of squares of valid entries is valid.
pub proof fn lemma_seq_norm_sq_valid_entries(s: Seq<Q>, j: int)
    requires
        seq_valid(s),
        j <= s.len(),
    ensures
        q_valid(seq_norm_sq(s, j)),
    decreases j,
{
    if j > 0 {
        lemma_seq_norm_sq_valid_entries(s, j - 1);
        lemma_prod_nonzero(s[j - 1].d, s[j - 1].d);
        lemma_prod_nonzero(seq_norm_sq(s, j - 1).d, q_mul(s[j - 1], s[j - 1]).d);
    }
}

/// The sum of squares respects entrywise rational equality.
pub proof fn lemma_norm_sq_congr(s1: Seq<Q>, s2: Seq<Q>, j: int)
    requires
        seq_valid(s1),
        seq_valid(s2),
        seq_q_eq(s1, s2),
        j <= s1.len(),
    ensures
        q_eq(seq_norm_sq(s1, j), seq_norm_sq(s2, j)),
        q_valid(seq_norm_sq(s1, j)),
        q_valid(seq_norm_sq(s2, j)),
    decreases j,
{
    lemma_seq_norm_sq_valid_entries(s1, j);
    lemma_seq_norm_sq_valid_entries(s2, j);
    if j > 0 {
        lemma_norm_sq_congr(s1, s2, j - 1);
        crate::rat::lemma_mul_congr(s1[j - 1], s1[j - 1], s2[j - 1], s2[j - 1]);
        crate::rat::lemma_add_congr(
            seq_norm_sq(s1, j - 1),
            q_mul(s1[j - 1], s1[j - 1]),
            seq_norm_sq(s2, j - 1),
            q_mul(s2[j - 1], s2[j - 1]),
        );
    }
}

/// A fixed-length column vector with one-based indexed access.
#[derive(Clone, Debug)]
pub struct Vector {
    elements: Vec<Rat>,
}

impl View for Vector {
    type V = Seq<Q>;

    closed spec fn view(&self) -> Seq<Q> {
        self.elements@.map_values(|r: Rat| r@)
    }
}

impl Vector {
    /// All entries are representable.
    pub open spec fn wf(self) -> bool {
        seq_wf(self@)
    }

    /// Read the entry at a zero-based offset.
    fn at(&self, i: usize) -> (r: Rat)
        requires
            i < self@.len(),
        ensures
            r@ == self@[i as int],
            self.wf() ==> r.wf(),
    {
        let r = self.elements[i];
        proof {
            assert(self@[i as int] == self.elements@[i as int]@);
            if self.wf() {
                assert(q_wf(self@[i as int]));
            }
        }
        r
    }

    /// The dimension.
    pub fn n(&self) -> (r: usize)
        ensures
            r == self@.len(),
    {
        self.elements.len()
    }

    /// A zero-filled vector of length `n`.
    pub fn new(n: usize) -> (r: Vector)
        ensures
            r.wf(),
            r@.len() == n,
            forall|k: int| 0 <= k < n ==> r@[k] == q_zero(),
    {
        let mut elements: Vec<Rat> = Vec::new();
        while elements.len() < n
            invariant
                elements.len() <= n,
                forall|k: int| 0 <= k < elements.len() ==> elements@[k]@ == q_zero(),
            decreases n - elements.len(),
        {
            elements.push(Rat::zero());
        }
        Vector { elements }
    }

    /// A vector holding the given entries in order.
    pub fn from_vec(v: Vec<Rat>) -> (r: Vector)
        ensures
            r@.len() == v@.len(),
            forall|k: int| 0 <= k < v@.len() ==> r@[k] == v@[k]@,
    {
        Vector { elements: v }
    }

    /// The entries in order.
    pub fn to_vec(&self) -> (r: Vec<Rat>)
        ensures
            r@.len() == self@.len(),
            forall|k: int| 0 <= k < self@.len() ==> r@[k]@ == self@[k],
    {
        let mut out: Vec<Rat> = Vec::new();
        let mut i: usize = 0;
        while i < self.elements.len()
            invariant
                i <= self.elements.len(),
                out.len() == i,
                forall|k: int| 0 <= k < i ==> out@[k]@ == self@[k],
            decreases self.elements.len() - i,
        {
            out.push(self.at(i));
            i = i + 1;
        }
        out
    }

    /// The entries in order.
    pub fn iter(&self) -> (r: Vec<Rat>)
        ensures
            r@.len() == self@.len(),
            forall|k: int| 0 <= k < self@.len() ==> r@[k]@ == self@[k],
    {
        self.to_vec()
    }

    /// The `i`th entry, one-based.
    pub fn get(&self, i: usize) -> (r: Rat)
        requires
            1 <= i <= self@.len(),
        ensures
            r@ == self@[i - 1],
    {
        self.elements[i - 1]
    }

    /// Replace the `i`th entry, one-based.
    pub fn set(&mut self, i: usize, v: Rat)
        requires
            1 <= i <= old(self)@.len(),
        ensures
            final(self)@ == old(self)@.update(i - 1, v@),
    {
        self.elements.set(i - 1, v);
        proof {
            assert(self@ =~= old(self)@.update(i - 1, v@));
        }
    }

    /// Elementwise difference `self - rhs`.  Success is owed whenever every
    /// raw entrywise difference fits.
    pub fn sub(&self, rhs: &Vector) -> (r: Result<Vector, LinError>)
        requires
            self.wf(),
            rhs.wf(),
            self@.len() == rhs@.len(),
        ensures
            r is Ok ==> {
                &&& r->Ok_0.wf()
                &&& r->Ok_0@.len() == self@.len()
                &&& forall|k: int|
                    0 <= k < self@.len() ==> q_eq(#[trigger] r->Ok_0@[k], q_sub(self@[k], rhs@[k]))
            },
            r is Err ==> r == Err::<Vector, LinError>(LinError::Overflow),
            (forall|k: int|
                0 <= k < self@.len() ==> crate::rat::q_small(#[trigger] q_sub(self@[k], rhs@[k])))
                ==> r is Ok,
    {
        let n: usize = self.elements.len();
        let mut out: Vec<Rat> = Vec::new();
        let mut i: usize = 0;
        while i < n
            invariant
                i <= n,
                n == self@.len() == rhs@.len(),
                self.wf(),
                rhs.wf(),
                out.len() == i,
                forall|k: int|
                    0 <= k < i ==> (#[trigger] out@[k]).wf() && q_eq(
                        out@[k]@,
                        q_sub(self@[k], rhs@[k]),
                    ),
            decreases n - i,
        {
            let d = match self.at(i).sub(rhs.at(i)) {
                Ok(d) => d,
                Err(_) => {
                    proof {
                        assert(!crate::rat::q_small(q_sub(self@[i as int], rhs@[i as int])));
                    }
                    return Err(LinError::Overflow);
                },
            };
            out.push(d);
            i = i + 1;
        }
        Ok(Vector { elements: out })
    }

    /// Elementwise quotient `self / rhs`.  Success is owed whenever the
    /// divisor is nonzero and every raw entrywise quotient fits.
    pub fn div(&self, rhs: Rat) -> (r: Result<Vector, LinError>)
        requires
            self.wf(),
            rhs.wf(),
        ensures
            r == Err::<Vector, LinError>(LinError::DivisorZero) <==> q_is_zero(rhs@),
            r is Ok ==> {
                &&& r->Ok_0.wf()
                &&& r->Ok_0@.len() == self@.len()
                &&& forall|k: int|
                    0 <= k < self@.len() ==> q_eq(#[trigger] r->Ok_0@[k], q_div(self@[k], rhs@))
            },
            r is Err ==> r == Err::<Vector, LinError>(LinError::Overflow) || r == Err::<
                Vector,
                LinError,
            >(LinError::DivisorZero),
            (!q_is_zero(rhs@) && forall|k: int|
                0 <= k < self@.len() ==> crate::rat::q_small(#[trigger] q_div(self@[k], rhs@)))
                ==> r is Ok,
    {
        if rhs.is_zero() {
            return Err(LinError::DivisorZero);
        }
        let n: usize = self.elements.len();
        let mut out: Vec<Rat> = Vec::new();
        let mut i: usize = 0;
        while i < n
            invariant
                i <= n,
                n == self@.len(),
                self.wf(),
                rhs.wf(),
                !q_is_zero(rhs@),
                out.len() == i,
                forall|k: int|
                    0 <= k < i ==> (#[trigger] out@[k]).wf() && q_eq(
                        out@[k]@,
                        q_div(self@[k], rhs@),
                    ),
            decreases n - i,
        {
            let d = match self.at(i).div(rhs) {
                Ok(d) => d,
                Err(_) => {
                    proof {
                        assert(!crate::rat::q_small(q_div(self@[i as int], rhs@)));
                    }
                    return Err(LinError::Overflow);
                },
            };
            out.push(d);
            i = i + 1;
        }
        Ok(Vector { elements: out })
    }

    /// Sum of all entries.
    pub fn sum(&self) -> (r: Result<Rat, LinError>)
        requires
            self.wf(),
        ensures
            r is Ok ==> r->Ok_0.wf() && q_eq(r->Ok_0@, seq_sum(self@, self@.len() as int)),
            r is Err ==> r == Err::<Rat, LinError>(LinError::Overflow),
            self@.len() == 0 ==> r is Ok,
    {
        let n: usize = self.elements.len();
        let mut acc = Rat::zero();
        let mut i: usize = 0;
        while i < n
            invariant
                i <= n,
                n == self@.len(),
                self.wf(),
                acc.wf(),
                q_eq(acc@, seq_sum(self@, i as int)),
            decreases n - i,
        {
            let term = self.at(i);
            let next = match acc.add(term) {
                Ok(v) => v,
                Err(_) => {
                    return Err(LinError::Overflow);
                },
            };
            proof {
                lemma_seq_sum_valid(self@, i as int);
                lemma_chain_add(next@, acc@, term@, seq_sum(self@, i as int), self@[i as int]);
            }
            acc = next;
            i = i + 1;
        }
        Ok(acc)
    }

    /// Sum of squares of all entries: the square of the Euclidean norm,
    /// which stays rational where the norm itself does not.
    pub fn norm_sq(&self) -> (r: Result<Rat, LinError>)
        requires
            self.wf(),
        ensures
            r is Ok ==> r->Ok_0.wf() && q_eq(r->Ok_0@, seq_norm_sq(self@, self@.len() as int)),
            r is Err ==> r == Err::<Rat, LinError>(LinError::Overflow),
            self@.len() == 0 ==> r is Ok,
    {
        let n: usize = self.elements.len();
        let mut acc = Rat::zero();
        let mut i: usize = 0;
        while i < n
            invariant
                i <= n,
                n == self@.len(),
                self.wf(),
                acc.wf(),
                q_eq(acc@, seq_norm_sq(self@, i as int)),
            decreases n - i,
        {
            let e = self.at(i);
            let sq = match e.mul(e) {
                Ok(v) => v,
                Err(_) => {
                    return Err(LinError::Overflow);
                },
            };
            let next = match acc.add(sq) {
                Ok(v) => v,
                Err(_) => {
                    return Err(LinError::Overflow);
                },
            };
            proof {
                lemma_seq_norm_sq_valid(self@, i as int);
                lemma_prod_nonzero(self@[i as int].d, self@[i as int].d);
                lemma_chain_add(
                    next@,
                    acc@,
                    sq@,
                    seq_norm_sq(self@, i as int),
                    q_mul(self@[i as int], self@[i as int]),
                );
            }
            acc = next;
            i = i + 1;
        }
        Ok(acc)
    }
}

} // verus!
