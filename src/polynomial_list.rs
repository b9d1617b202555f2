use vstd::prelude::*;

use crate::container::Container;
use crate::polynomial::Polynomial;

verus! {

/// The `i`-th run of `size` consecutive elements of `s`.
pub open spec fn chunk_of(s: Seq<u64>, size: nat, i: int) -> Seq<u64> {
    s.subrange(i * size, (i + 1) * size)
}

/// The first `n` runs of `size` consecutive elements of `s`.
pub open spec fn chunks_of(s: Seq<u64>, size: nat, n: nat) -> Seq<Seq<u64>> {
    Seq::new(n, |i: int| chunk_of(s, size, i))
}

/// Concatenating the first `n` runs of `size` elements gives back the first
/// `n * size` elements of `s`.
pub proof fn lemma_chunks_of_flatten(s: Seq<u64>, size: nat, n: nat)
    requires
        n * size <= s.len(),
    ensures
        chunks_of(s, size, n).flatten() == s.subrange(0, (n * size) as int),
    decreases n,
{
    if n == 0 {
        assert(chunks_of(s, size, n) =~= Seq::<Seq<u64>>::empty());
        assert(s.subrange(0, 0) =~= Seq::<u64>::empty());
    } else {
        let m = (n - 1) as nat;
        assert(m * size <= n * size) by (nonlinear_arith)
            requires m + 1 == n;
        assert(n * size == m * size + size) by (nonlinear_arith)
            requires m + 1 == n;
        lemma_chunks_of_flatten(s, size, m);
        assert(chunks_of(s, size, n) =~= chunks_of(s, size, m).push(chunk_of(s, size, m as int)));
        chunks_of(s, size, m).lemma_flatten_push(chunk_of(s, size, m as int));
        assert(s.subrange(0, (n * size) as int) =~= s.subrange(0, (m * size) as int) + chunk_of(
            s,
            size,
            m as int,
        ));
    }
}

/// Storage length and dimensions disagree: `length != polynomial_size * count`.
#[derive(Debug, Clone, Copy, PartialEq, Eq)]
pub struct DimensionMismatch;

/// `count` polynomials of `polynomial_size` coefficients each, stored one
/// after the other in `data`.
#[derive(Debug, Clone)]
pub struct PolynomialList<C: Container> {
    pub data: C,
    pub count: usize,
    pub polynomial_size: usize,
}

impl<C: Container> PolynomialList<C> {
    /// The dimensional invariant: the storage holds exactly `count`
    /// polynomials of a positive size.
    pub open spec fn wf(&self) -> bool {
        &&& self.polynomial_size > 0
        &&& self.data.coeffs().len() == self.polynomial_size * self.count
    }

    /// The list as `count` coefficient sequences; polynomial `i` occupies
    /// `[i * polynomial_size, (i + 1) * polynomial_size)` of the storage.
    pub open spec fn polynomials(&self) -> Seq<Seq<u64>> {
        chunks_of(self.data.coeffs(), self.polynomial_size as nat, self.count as nat)
    }

    /// The list cut into consecutive groups of `group_size` polynomials, as
    /// the coefficient runs those groups occupy; a remainder shorter than a
    /// group is left out.
    pub open spec fn sublists(&self, group_size: nat) -> Seq<Seq<u64>> {
        chunks_of(
            self.data.coeffs(),
            group_size * (self.polynomial_size as nat),
            (self.count as nat / group_size) as nat,
        )
    }

    /// The list that pairs `data` with the given dimensions.
    pub open spec fn spec_new(data: C, polynomial_size: usize, count: usize) -> Self {
        PolynomialList { data, count, polynomial_size }
    }

    /// Storage whose length matches the dimensions makes a well-formed list,
    /// whose logical length is the storage's length.
    pub proof fn lemma_matching_dimensions_accepted(data: C, polynomial_size: usize, count: usize)
        requires
            polynomial_size > 0,
            data.coeffs().len() == polynomial_size * count,
        ensures
            Self::spec_new(data, polynomial_size, count).wf(),
            Self::spec_new(data, polynomial_size, count).data.coeffs().len() == data.coeffs().len(),
    {
    }

    /// Unwrapping a freshly made list gives back the very storage it was made
    /// from.
    pub proof fn lemma_round_trip(data: C, polynomial_size: usize, count: usize)
        ensures
            Self::spec_new(data, polynomial_size, count).data == data,
    {
    }

    /// The polynomials of a list, concatenated in order, are its storage.
    pub proof fn lemma_polynomials_cover(&self)
        requires
            self.wf(),
        ensures
            self.polynomials().len() == self.count,
            self.polynomials().flatten() == self.data.coeffs(),
    {
        let s = self.data.coeffs();
        let n = self.count as nat;
        let size = self.polynomial_size as nat;
        assert(n * size == size * n) by (nonlinear_arith);
        lemma_chunks_of_flatten(s, size, n);
        assert(s.subrange(0, s.len() as int) =~= s);
    }

    /// Grouping by `group_size` yields `count / group_size` groups that,
    /// concatenated, are the storage of the first
    /// `(count / group_size) * group_size` polynomials; the trailing
    /// `count % group_size` polynomials are in no group. When `group_size`
    /// divides `count`, the groups cover the whole storage.
    pub proof fn lemma_sublists_cover(&self, group_size: nat)
        requires
            self.wf(),
            group_size > 0,
        ensures
            self.sublists(group_size).len() == self.count as nat / group_size,
            self.sublists(group_size).flatten() == self.data.coeffs().subrange(
                0,
                (self.count as nat / group_size) * group_size * self.polynomial_size,
            ),
            self.count as nat - (self.count as nat / group_size) * group_size == self.count as nat
                % group_size,
            self.count as nat % group_size == 0 ==> self.sublists(group_size).flatten()
                == self.data.coeffs(),
    {
        let s = self.data.coeffs();
        let c = self.count as nat;
        let ps = self.polynomial_size as nat;
        let q = c / group_size;
        assert(q * group_size + c % group_size == c) by (nonlinear_arith)
            requires group_size > 0, q == c / group_size;
        assert(q * (group_size * ps) == q * group_size * ps) by (nonlinear_arith);
        assert(q * group_size * ps <= c * ps) by (nonlinear_arith)
            requires q * group_size <= c;
        assert(c * ps == ps * c) by (nonlinear_arith);
        lemma_chunks_of_flatten(s, group_size * ps, q);
        if c % group_size == 0 {
            assert(s.subrange(0, s.len() as int) =~= s);
        }
    }

    /// Pairs storage with dimensions that match it.
    pub fn new(data: C, polynomial_size: usize, count: usize) -> (r: Self)
        requires
            polynomial_size > 0,
            data.coeffs().len() == polynomial_size * count,
        ensures
            r == Self::spec_new(data, polynomial_size, count),
            r.wf(),
    {
        PolynomialList { data, count, polynomial_size }
    }

    /// Pairs storage with dimensions, rejecting a length that is not
    /// `polynomial_size * count`.
    pub fn try_new(data: C, polynomial_size: usize, count: usize) -> (r: Result<
        Self,
        DimensionMismatch,
    >)
        requires
            polynomial_size > 0,
        ensures
            r is Ok <==> data.coeffs().len() == polynomial_size * count,
            r matches Ok(l) ==> l == Self::spec_new(data, polynomial_size, count) && l.wf(),
    {
        let len = data.container_len();
        match polynomial_size.checked_mul(count) {
            Some(expected) if expected == len => Ok(Self::new(data, polynomial_size, count)),
            _ => Err(DimensionMismatch),
        }
    }

    /// Number of coefficients in the storage.
    pub fn container_len(&self) -> (r: usize)
        ensures
            r == self.data.coeffs().len(),
            self.wf() ==> r == self.polynomial_size * self.count,
    {
        self.data.container_len()
    }

    /// Gives the storage back, unchanged.
    pub fn into_data(self) -> (r: C)
        ensures
            r == self.data,
    {
        self.data
    }
}

impl<'a> PolynomialList<&'a [u64]> {
    /// Each polynomial of the list, in order, as a shared view.
    pub fn iter_polynomial(&self) -> (r: Vec<Polynomial<&'a [u64]>>)
        requires
            self.wf(),
        ensures
            r.len() == self.count,
            forall|i: int|
                0 <= i < r.len() ==> (#[trigger] r[i]).data@ == self.polynomials()[i]
                    && r[i].polynomial_size == self.polynomial_size,
    {
        let ps = self.polynomial_size;
        let mut rest: &'a [u64] = self.data;
        let mut out: Vec<Polynomial<&'a [u64]>> = Vec::new();
        let mut i: usize = 0;
        while i < self.count
            invariant
                self.wf(),
                ps == self.polynomial_size,
                i <= self.count,
                rest@ == self.data@.subrange(i * ps, self.data@.len() as int),
                out.len() == i,
                forall|j: int| 0 <= j < i ==> #[trigger] out[j].polynomial_size == ps,
                forall|j: int| 0 <= j < i ==> #[trigger] out[j].data@ == chunk_of(self.data@, ps as nat, j),
            decreases self.count - i,
        {
            proof {
                assert(ps * (i + 1) <= ps * self.count) by (nonlinear_arith)
                    requires i + 1 <= self.count;
                assert(ps * (i + 1) == i * ps + ps) by (nonlinear_arith);
            }
            let (head, tail) = rest.split_at(ps);
            assert(head@ =~= chunk_of(self.data@, ps as nat, i as int));
            assert(tail@ =~= self.data@.subrange((i + 1) * ps, self.data@.len() as int));
            out.push(Polynomial::new(head, ps));
            rest = tail;
            i = i + 1;
        }
        out
    }

    /// Consecutive groups of `count` polynomials, each as a list of its own.
    /// When `count` does not divide the list's count, the trailing
    /// `self.count % count` polynomials belong to no group.
    pub fn sublist_iter(&self, count: usize) -> (r: Vec<PolynomialList<&'a [u64]>>)
        requires
            self.wf(),
            count > 0,
        ensures
            r.len() == self.count / count,
            forall|j: int|
                0 <= j < r.len() ==> (#[trigger] r[j]).data@ == self.sublists(count as nat)[j]
                    && r[j].wf() && r[j].count == count
                    && r[j].polynomial_size == self.polynomial_size,
    {
        let polynomial_size = self.polynomial_size;
        let mut out: Vec<PolynomialList<&'a [u64]>> = Vec::new();
        if count > self.count {
            assert(self.count / count == 0) by (nonlinear_arith)
                requires self.count < count;
            return out;
        }
        proof {
            assert(self.data@.len() == self.data.len());
            assert(count * polynomial_size <= self.count * polynomial_size) by (nonlinear_arith)
                requires count <= self.count;
            assert(polynomial_size * self.count == self.count * polynomial_size) by (nonlinear_arith);
        }
        let span = count * polynomial_size;
        let groups = self.count / count;
        let mut rest: &'a [u64] = self.data;
        let mut j: usize = 0;
        while j < groups
            invariant
                self.wf(),
                polynomial_size == self.polynomial_size,
                0 < count,
                span == count * polynomial_size,
                groups == self.count / count,
                j <= groups,
                rest@ == self.data@.subrange(j * span, self.data@.len() as int),
                out.len() == j,
                forall|k: int|
                    0 <= k < j ==> (#[trigger] out[k]).wf() && out[k].count == count
                        && out[k].polynomial_size == polynomial_size,
                forall|k: int|
                    0 <= k < j ==> #[trigger] out[k].data@ == chunk_of(self.data@, span as nat, k),
            decreases groups - j,
        {
            proof {
                assert(groups * count <= self.count) by (nonlinear_arith)
                    requires groups == self.count / count, count > 0;
                assert((j + 1) * span <= groups * span) by (nonlinear_arith)
                    requires j + 1 <= groups;
                assert(groups * span == groups * count * polynomial_size) by (nonlinear_arith)
                    requires span == count * polynomial_size;
                assert(groups * count * polynomial_size <= self.count * polynomial_size) by (nonlinear_arith)
                    requires groups * count <= self.count;
                assert(polynomial_size * self.count == self.count * polynomial_size) by (nonlinear_arith);
                assert((j + 1) * span == j * span + span) by (nonlinear_arith);
                assert(span == polynomial_size * count) by (nonlinear_arith)
                    requires span == count * polynomial_size;
            }
            let (head, tail) = rest.split_at(span);
            assert(head@ =~= chunk_of(self.data@, span as nat, j as int));
            assert(tail@ =~= self.data@.subrange((j + 1) * span, self.data@.len() as int));
            out.push(PolynomialList { data: head, count, polynomial_size });
            rest = tail;
            j = j + 1;
        }
        out
    }

    /// A shared view of the same storage and dimensions.
    pub fn as_view(&self) -> (r: PolynomialList<&'a [u64]>)
        ensures
            r.data@ == self.data@,
            r.count == self.count,
            r.polynomial_size == self.polynomial_size,
    {
        PolynomialList { data: self.data, count: self.count, polynomial_size: self.polynomial_size }
    }
}

impl<'a> PolynomialList<&'a mut [u64]> {
    /// Each polynomial of the list, in order, as an exclusive view. The
    /// views are disjoint: what is written through view `i` lands in
    /// polynomial `i` of the list and nowhere else.
    pub fn iter_polynomial(&mut self) -> (r: Vec<Polynomial<&mut [u64]>>)
        requires
            old(self).wf(),
        ensures
            r.len() == old(self).count,
            forall|i: int|
                0 <= i < r.len() ==> (#[trigger] r[i]).data@ == old(self).polynomials()[i]
                    && r[i].polynomial_size == old(self).polynomial_size,
            final(self).count == old(self).count,
            final(self).polynomial_size == old(self).polynomial_size,
            final(self).data@ == Seq::new(r.len() as nat, |i: int| final(r[i].data)@).flatten(),
    {
        let ps = self.polynomial_size;
        let count = self.count;
        let ghost released = final(self).data@;
        let mut rest: &mut [u64] = &mut *self.data;
        let mut out: Vec<Polynomial<&mut [u64]>> = Vec::new();
        let mut i: usize = 0;
        assert(released == final(rest)@);
        while i < count
            invariant
                old(self).wf(),
                ps == old(self).polynomial_size,
                count == old(self).count,
                i <= count,
                rest@ == old(self).data@.subrange(i * ps, old(self).data@.len() as int),
                out.len() == i,
                forall|j: int| 0 <= j < i ==> #[trigger] out[j].polynomial_size == ps,
                forall|j: int| 0 <= j < i ==> #[trigger] out[j].data@ == chunk_of(old(self).data@, ps as nat, j),
                released == Seq::new(i as nat, |j: int| final(out[j].data)@).flatten() + final(rest)@,
            decreases count - i,
        {
            proof {
                assert(ps * (i + 1) <= ps * count) by (nonlinear_arith)
                    requires i + 1 <= count;
                assert(ps * (i + 1) == i * ps + ps) by (nonlinear_arith);
                assert((i + 1) * ps == ps * (i + 1)) by (nonlinear_arith);
            }
            let cur = rest;
            let (head, tail) = cur.split_at_mut(ps);
            assert(head@ =~= chunk_of(old(self).data@, ps as nat, i as int));
            assert(tail@ =~= old(self).data@.subrange((i + 1) * ps, old(self).data@.len() as int));
            let ghost prev = Seq::new(i as nat, |j: int| final(out[j].data)@);
            let ghost head_released = final(head)@;
            out.push(Polynomial::new(head, ps));
            proof {
                let next = Seq::new((i + 1) as nat, |j: int| final(out[j].data)@);
                assert(next =~= prev.push(head_released));
                prev.lemma_flatten_push(head_released);
            }
            rest = tail;
            i = i + 1;
        }
        assert(count * ps == ps * count) by (nonlinear_arith);
        assert(rest@.len() == 0);
        assert(final(rest)@ =~= Seq::<u64>::empty());
        out
    }

    /// An exclusive view of the same storage and dimensions; what is written
    /// through it is what the list holds afterwards.
    pub fn as_mut_view(&mut self) -> (r: PolynomialList<&mut [u64]>)
        ensures
            r.data@ == old(self).data@,
            r.count == old(self).count,
            r.polynomial_size == old(self).polynomial_size,
            final(self).data@ == final(r.data)@,
            final(self).count == old(self).count,
            final(self).polynomial_size == old(self).polynomial_size,
    {
        PolynomialList { data: &mut *self.data, count: self.count, polynomial_size: self.polynomial_size }
    }

    /// A shared view of the same storage and dimensions.
    pub fn as_view(&self) -> (r: PolynomialList<&[u64]>)
        ensures
            r.data@ == old(self.data)@,
            r.count == self.count,
            r.polynomial_size == self.polynomial_size,
    {
        PolynomialList { data: &*self.data, count: self.count, polynomial_size: self.polynomial_size }
    }
}

} // verus!
