use vstd::prelude::*;

use crate::container::Container;

verus! {

/// One polynomial: a run of `polynomial_size` coefficients.
#[derive(Debug, Clone)]
pub struct Polynomial<C: Container> {
    pub data: C,
    pub polynomial_size: usize,
}

impl<C: Container> Polynomial<C> {
    /// Wraps a run of exactly `polynomial_size` coefficients.
    pub fn new(data: C, polynomial_size: usize) -> (r: Self)
        requires
            data.coeffs().len() == polynomial_size,
        ensures
            r.data == data,
            r.polynomial_size == polynomial_size,
    {
        Polynomial { data, polynomial_size }
    }
}

} // verus!
