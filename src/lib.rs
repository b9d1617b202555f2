//! Contiguous lists of equal-length coefficient vectors ("polynomials"),
//! with traversal and partitioning into disjoint views of the same storage.

pub mod container;
pub mod polynomial;
pub mod polynomial_list;

pub use container::Container;
pub use polynomial::Polynomial;
pub use polynomial_list::{DimensionMismatch, PolynomialList};
