use vstd::prelude::*;

verus! {

/// A flat run of coefficients: an owned buffer, a shared slice or an
/// exclusive slice.
pub trait Container: Sized {
    /// The coefficients held, in storage order.
    spec fn coeffs(&self) -> Seq<u64>;

    /// Number of coefficients held.
    fn container_len(&self) -> (r: usize)
        ensures
            r == self.coeffs().len(),
    ;
}

impl Container for Vec<u64> {
    open spec fn coeffs(&self) -> Seq<u64> {
        self@
    }

    fn container_len(&self) -> (r: usize) {
        self.len()
    }
}

impl<'a> Container for &'a [u64] {
    open spec fn coeffs(&self) -> Seq<u64> {
        (**self)@
    }

    fn container_len(&self) -> (r: usize) {
        (**self).len()
    }
}

impl<'a> Container for &'a mut [u64] {
    open spec fn coeffs(&self) -> Seq<u64> {
        (**self)@
    }

    fn container_len(&self) -> (r: usize) {
        (**self).len()
    }
}

} // verus!
