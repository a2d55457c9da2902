//! Banded linear algebra over exact rational arithmetic: banded LU
//! factorization, triangular solves, Jacobi and Gauss-Seidel relaxation,
//! and a Sherman-Morrison rank-one update solver.

pub mod lu;
pub mod matrix;
pub mod rat;
pub mod relax;
pub mod sherman;
pub mod vector;
