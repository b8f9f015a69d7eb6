//! The systems handed to a direct sparse solver: a complex system re-expressed
//! as a real one of twice the order, or laid out as interleaved real and
//! imaginary parts; and the way back from the solver's output to complex
//! numbers.

use vstd::prelude::*;
use crate::bits::{Complex, FloatBits};
use crate::matrix::{order_of, ComplexMatrix, Triplet};
use crate::tools::{complex_to_primitive, expanded, folded, primitive_to_complex};

verus! {

/// Why a system cannot be solved.
#[derive(Clone, Copy, Debug, PartialEq, Eq, Structural)]
pub enum SolveError {
    /// A vector does not have the length the system asks for: the right-hand
    /// side against the matrix order, or a solution against the system.
    DimensionMismatch { expected: usize, found: usize },
    /// The solver reported the system as unsolvable.
    SolverFailure,
}

/// A real sparse system `A' x' = b'` of order `order`: entry `i` of `A'` is
/// `values[i]` at `(rows[i], cols[i])`.
pub struct RealSystem<T> {
    pub order: usize,
    pub rows: Vec<usize>,
    pub cols: Vec<usize>,
    pub values: Vec<T>,
    pub rhs: Vec<T>,
}

/// A complex sparse system of order `order` in the interleaved layout: the
/// value of entry `i` is `values[2i] + j values[2i+1]`, at `(rows[i], cols[i])`,
/// and element `k` of the right-hand side is `rhs[2k] + j rhs[2k+1]`.
pub struct ComplexSystem<T> {
    pub order: usize,
    pub rows: Vec<usize>,
    pub cols: Vec<usize>,
    pub values: Vec<T>,
    pub rhs: Vec<T>,
}

/// The `(re, im)` pairs of a complex vector.
pub open spec fn pairs<T>(b: Seq<Complex<T>>) -> Seq<(T, T)> {
    b.map_values(|c: Complex<T>| (c.re, c.im))
}

/// The complex numbers `re + j im` of a sequence of pairs.
pub open spec fn complexes<T>(p: Seq<(T, T)>) -> Seq<Complex<T>> {
    p.map_values(|q: (T, T)| Complex { re: q.0, im: q.1 })
}

/// The real entries that stand for the complex entry `t = (r, c, a + jb)` in
/// the real system of order `2n`: `a` at `(r, c)` and `(r+n, c+n)`, `-b` at
/// `(r, c+n)` and `b` at `(r+n, c)`; a zero part contributes nothing.
pub open spec fn augmented_entry<T: FloatBits>(t: Triplet<T>, n: int) -> Seq<(int, int, T)> {
    let r = t.0 as int;
    let c = t.1 as int;
    let a = t.2.re;
    let b = t.2.im;
    (if a.spec_is_zero() {
        Seq::empty()
    } else {
        seq![(r, c, a), (r + n, c + n, a)]
    }) + (if b.spec_is_zero() {
        Seq::empty()
    } else {
        seq![(r, c + n, b.spec_negated()), (r + n, c, b)]
    })
}

/// The real entries that stand for the complex entries `s`, in their order.
pub open spec fn augmented<T: FloatBits>(s: Seq<Triplet<T>>, n: int) -> Seq<(int, int, T)>
    decreases s.len(),
{
    if s.len() == 0 {
        Seq::empty()
    } else {
        augmented(s.drop_last(), n) + augmented_entry(s.last(), n)
    }
}

/// The parts of `b` interleaved: `re` then `im` of each element in turn.
pub open spec fn interleaved<T>(b: Seq<Complex<T>>) -> Seq<T> {
    Seq::new(2 * b.len(), |i: int| if i % 2 == 0 { b[i / 2].re } else { b[i / 2].im })
}

/// The complex numbers `x[2i] + j x[2i+1]` for `i` below half the length of `x`.
pub open spec fn deinterleaved<T>(x: Seq<T>) -> Seq<Complex<T>> {
    Seq::new(x.len() / 2, |i: int| Complex { re: x[2 * i], im: x[2 * i + 1] })
}

impl<T> RealSystem<T> {
    /// The entries of the coefficient matrix, in order.
    pub open spec fn triplets(&self) -> Seq<(int, int, T)> {
        Seq::new(self.values@.len(), |i: int| (self.rows@[i] as int, self.cols@[i] as int, self.values@[i]))
    }
}

/// Lays `b` out as pairs.
fn to_pairs<T: Copy>(b: &[Complex<T>]) -> (r: Vec<(T, T)>)
    ensures
        r@ == pairs(b@),
{
    let n = b.len();
    let mut r: Vec<(T, T)> = Vec::with_capacity(n);
    let mut i: usize = 0;
    while i < n
        invariant
            n == b@.len(),
            i <= n,
            r@ == pairs(b@.subrange(0, i as int)),
        decreases n - i,
    {
        r.push((b[i].re, b[i].im));
        i += 1;
        assert(r@ =~= pairs(b@.subrange(0, i as int)));
    }
    assert(b@.subrange(0, n as int) =~= b@);
    r
}

/// Makes complex numbers of pairs.
fn from_pairs<T: Copy>(p: Vec<(T, T)>) -> (r: Vec<Complex<T>>)
    ensures
        r@ == complexes(p@),
{
    let n = p.len();
    let mut r: Vec<Complex<T>> = Vec::with_capacity(n);
    let mut i: usize = 0;
    while i < n
        invariant
            n == p@.len(),
            i <= n,
            r@ == complexes(p@.subrange(0, i as int)),
        decreases n - i,
    {
        r.push(Complex { re: p[i].0, im: p[i].1 });
        i += 1;
        assert(r@ =~= complexes(p@.subrange(0, i as int)));
    }
    assert(p@.subrange(0, n as int) =~= p@);
    r
}

impl<T: FloatBits> ComplexMatrix<T> {
    /// The real system of order `2n` equivalent to `A x = b`, where `A` is
    /// this matrix and `n` its order.
    ///
    /// Each entry `a + jb` at `(r, c)` becomes `a` at `(r, c)` and
    /// `(r+n, c+n)`, `-b` at `(r, c+n)` and `b` at `(r+n, c)`, zero parts left
    /// out; the right-hand side is the real parts of `b` followed by its
    /// imaginary parts. A `b` whose length is not the order is refused.
    pub fn real_system(&self, b: &[Complex<T>]) -> (r: Result<RealSystem<T>, SolveError>)
        requires
            b@.len() <= usize::MAX / 2,
        ensures
            b@.len() != self.spec_order() ==> r == Err::<RealSystem<T>, SolveError>(
                SolveError::DimensionMismatch { expected: self.spec_order() as usize, found: b@.len() as usize },
            ),
            b@.len() == self.spec_order() ==> (r matches Ok(sys) && sys.order == 2 * b@.len()
                && sys.triplets() == augmented(self.triplets(), b@.len() as int)
                && sys.rows@.len() == sys.values@.len() && sys.cols@.len() == sys.values@.len()
                && sys.rhs@ == expanded(pairs(b@))),
    {
        let n = self.order();
        if b.len() != n {
            return Err(SolveError::DimensionMismatch { expected: n, found: b.len() });
        }
        let entries = self.entries();
        proof {
            self.lemma_entries_bounded();
        }
        let len = entries.len();
        let mut rows: Vec<usize> = Vec::new();
        let mut cols: Vec<usize> = Vec::new();
        let mut values: Vec<T> = Vec::new();
        let mut i: usize = 0;
        while i < len
            invariant
                len == entries@.len(),
                entries@ == self.triplets(),
                n == b@.len(),
                n <= usize::MAX / 2,
                forall|j: int| 0 <= j < len ==> (#[trigger] entries@[j]).0 < n && entries@[j].1 < n,
                i <= len,
                rows@.len() == values@.len(),
                cols@.len() == values@.len(),
                Seq::new(values@.len(), |k: int| (rows@[k] as int, cols@[k] as int, values@[k])) == augmented(
                    entries@.subrange(0, i as int),
                    n as int,
                ),
            decreases len - i,
        {
            let t = entries[i];
            let ghost before = Seq::new(values@.len(), |k: int| (rows@[k] as int, cols@[k] as int, values@[k]));
            let ghost added: Seq<(int, int, T)> = Seq::empty();
            if !t.2.re.is_zero() {
                rows.push(t.0);
                cols.push(t.1);
                values.push(t.2.re);
                rows.push(t.0 + n);
                cols.push(t.1 + n);
                values.push(t.2.re);
                proof {
                    added = seq![(t.0 as int, t.1 as int, t.2.re), (t.0 + n, t.1 + n, t.2.re)];
                }
            }
            if !t.2.im.is_zero() {
                rows.push(t.0);
                cols.push(t.1 + n);
                values.push(t.2.im.negated());
                rows.push(t.0 + n);
                cols.push(t.1);
                values.push(t.2.im);
                proof {
                    added = added + seq![(t.0 as int, t.1 + n, t.2.im.spec_negated()), (t.0 + n, t.1 as int, t.2.im)];
                }
            }
            proof {
                assert(added =~= augmented_entry(t, n as int));
                assert(Seq::new(values@.len(), |k: int| (rows@[k] as int, cols@[k] as int, values@[k])) =~= before
                    + added);
                assert(entries@.subrange(0, i + 1).drop_last() =~= entries@.subrange(0, i as int));
            }
            i += 1;
        }
        assert(entries@.subrange(0, len as int) =~= entries@);
        let rhs = complex_to_primitive(to_pairs(b).as_slice());
        let sys = RealSystem { order: 2 * n, rows, cols, values, rhs };
        assert(sys.triplets() =~= augmented(self.triplets(), n as int));
        Ok(sys)
    }
}

/// Lays the parts of `v` out interleaved.
fn interleave<T: Copy>(v: &[Complex<T>]) -> (r: Vec<T>)
    ensures
        r@ == interleaved(v@),
{
    let n = v.len();
    let mut r: Vec<T> = Vec::new();
    let mut i: usize = 0;
    while i < n
        invariant
            n == v@.len(),
            i <= n,
            r@ == interleaved(v@.subrange(0, i as int)),
        decreases n - i,
    {
        r.push(v[i].re);
        r.push(v[i].im);
        i += 1;
        assert(r@ =~= interleaved(v@.subrange(0, i as int)));
    }
    assert(v@.subrange(0, n as int) =~= v@);
    r
}

/// Reads `x` back as interleaved parts; its length is even.
fn deinterleave<T: Copy>(x: &[T]) -> (r: Vec<Complex<T>>)
    requires
        x@.len() % 2 == 0,
    ensures
        r@ == deinterleaved(x@),
{
    let len = x.len();
    let half = len / 2;
    let mut r: Vec<Complex<T>> = Vec::with_capacity(half);
    let mut i: usize = 0;
    while i < half
        invariant
            len == x@.len(),
            half == x@.len() / 2,
            x@.len() % 2 == 0,
            i <= half,
            r@ == deinterleaved(x@).subrange(0, i as int),
        decreases half - i,
    {
        r.push(Complex { re: x[2 * i], im: x[2 * i + 1] });
        i += 1;
        assert(r@ =~= deinterleaved(x@).subrange(0, i as int));
    }
    assert(r@ =~= deinterleaved(x@));
    r
}

impl<T: Copy> RealSystem<T> {
    /// The complex solution held by the solver's real solution `x`: element
    /// `i` is `x[i] + j x[i+n]`, where `2n` is the length of the right-hand
    /// side. An `x` of another length, or of odd length, is refused.
    pub fn solution(&self, x: &[T]) -> (r: Result<Vec<Complex<T>>, SolveError>)
        ensures
            x@.len() == self.rhs@.len() && x@.len() % 2 == 0 ==> (r matches Ok(v) && v@ == complexes(folded(x@))),
            x@.len() != self.rhs@.len() || x@.len() % 2 != 0 ==> r == Err::<Vec<Complex<T>>, SolveError>(
                SolveError::DimensionMismatch { expected: self.rhs@.len() as usize, found: x@.len() as usize },
            ),
    {
        let mismatch = SolveError::DimensionMismatch { expected: self.rhs.len(), found: x.len() };
        if x.len() != self.rhs.len() {
            return Err(mismatch);
        }
        match primitive_to_complex(x) {
            Ok(p) => Ok(from_pairs(p)),
            Err(_) => Err(mismatch),
        }
    }
}

impl<T: Copy> ComplexSystem<T> {
    /// The complex solution held by the solver's interleaved output `x`:
    /// element `i` is `x[2i] + j x[2i+1]`. An `x` whose length differs from
    /// the right-hand side's, or is odd, is refused.
    pub fn solution(&self, x: &[T]) -> (r: Result<Vec<Complex<T>>, SolveError>)
        ensures
            x@.len() == self.rhs@.len() && x@.len() % 2 == 0 ==> (r matches Ok(v) && v@ == deinterleaved(x@)),
            x@.len() != self.rhs@.len() || x@.len() % 2 != 0 ==> r == Err::<Vec<Complex<T>>, SolveError>(
                SolveError::DimensionMismatch { expected: self.rhs@.len() as usize, found: x@.len() as usize },
            ),
    {
        if x.len() != self.rhs.len() || x.len() % 2 != 0 {
            return Err(SolveError::DimensionMismatch { expected: self.rhs.len(), found: x.len() });
        }
        Ok(deinterleave(x))
    }
}

impl<T: FloatBits> ComplexMatrix<T> {
    /// The system `A x = b` in the interleaved complex layout, where `A` is
    /// this matrix: the entries keep their storage order. A `b` whose length
    /// is not the order is refused.
    pub fn complex_system(&self, b: &[Complex<T>]) -> (r: Result<ComplexSystem<T>, SolveError>)
        ensures
            b@.len() != self.spec_order() ==> r == Err::<ComplexSystem<T>, SolveError>(
                SolveError::DimensionMismatch { expected: self.spec_order() as usize, found: b@.len() as usize },
            ),
            b@.len() == self.spec_order() ==> (r matches Ok(sys) && sys.order == b@.len()
                && sys.rows@ == self.triplets().map_values(|t: Triplet<T>| t.0)
                && sys.cols@ == self.triplets().map_values(|t: Triplet<T>| t.1)
                && sys.values@ == interleaved(self.triplets().map_values(|t: Triplet<T>| t.2))
                && sys.rhs@ == interleaved(b@)),
    {
        let n = self.order();
        if b.len() != n {
            return Err(SolveError::DimensionMismatch { expected: n, found: b.len() });
        }
        let entries = self.entries();
        let len = entries.len();
        let mut rows: Vec<usize> = Vec::with_capacity(len);
        let mut cols: Vec<usize> = Vec::with_capacity(len);
        let mut coefficients: Vec<Complex<T>> = Vec::with_capacity(len);
        let mut i: usize = 0;
        while i < len
            invariant
                len == entries@.len(),
                i <= len,
                rows@ == entries@.subrange(0, i as int).map_values(|t: Triplet<T>| t.0),
                cols@ == entries@.subrange(0, i as int).map_values(|t: Triplet<T>| t.1),
                coefficients@ == entries@.subrange(0, i as int).map_values(|t: Triplet<T>| t.2),
            decreases len - i,
        {
            rows.push(entries[i].0);
            cols.push(entries[i].1);
            coefficients.push(entries[i].2);
            i += 1;
            assert(rows@ =~= entries@.subrange(0, i as int).map_values(|t: Triplet<T>| t.0));
            assert(cols@ =~= entries@.subrange(0, i as int).map_values(|t: Triplet<T>| t.1));
            assert(coefficients@ =~= entries@.subrange(0, i as int).map_values(|t: Triplet<T>| t.2));
        }
        assert(entries@.subrange(0, len as int) =~= entries@);
        let values = interleave(coefficients.as_slice());
        let rhs = interleave(b);
        Ok(ComplexSystem { order: n, rows, cols, values, rhs })
    }
}

/// A 1×1 matrix holding `a + jb` at `(0, 0)` has order 1, and its real
/// system holds `a` at `(0, 0)` and `(1, 1)`, `-b` at `(0, 1)` and `b` at
/// `(1, 0)`, a zero part being left out.
pub proof fn lemma_single_entry_augmentation<T: FloatBits>(m: ComplexMatrix<T>, z: Complex<T>)
    requires
        m.triplets() == seq![(0usize, 0usize, z)],
    ensures
        m.spec_order() == 1,
        augmented(m.triplets(), 1) == (if z.re.spec_is_zero() {
            Seq::<(int, int, T)>::empty()
        } else {
            seq![(0int, 0int, z.re), (1int, 1int, z.re)]
        }) + (if z.im.spec_is_zero() {
            Seq::<(int, int, T)>::empty()
        } else {
            seq![(0int, 1int, z.im.spec_negated()), (1int, 0int, z.im)]
        }),
{
    let s = m.triplets();
    assert(s.drop_last() =~= Seq::<Triplet<T>>::empty());
    assert(augmented(s.drop_last(), 1) =~= Seq::<(int, int, T)>::empty());
    assert(order_of(s.drop_last()) == 0);
    assert(order_of(s) == 1);
    assert(augmented(s, 1) =~= augmented_entry(s.last(), 1));
}

/// Expanding a complex right-hand side to its real form and reading a
/// solution of that form back gives the vector again.
pub proof fn lemma_real_layout_round_trip<T>(b: Seq<Complex<T>>)
    ensures
        complexes(folded(expanded(pairs(b)))) == b,
{
    crate::tools::lemma_expand_fold_round_trip(pairs(b));
    assert(complexes(pairs(b)) =~= b);
}

/// Interleaving a complex vector and reading it back gives the vector again.
pub proof fn lemma_interleaved_round_trip<T>(b: Seq<Complex<T>>)
    ensures
        deinterleaved(interleaved(b)) == b,
{
    let x = interleaved(b);
    assert(x.len() / 2 == b.len());
    assert forall|i: int| 0 <= i < b.len() implies #[trigger] deinterleaved(x)[i] == b[i] by {
        assert((2 * i) % 2 == 0 && (2 * i) / 2 == i);
        assert((2 * i + 1) % 2 == 1 && (2 * i + 1) / 2 == i);
    }
    assert(deinterleaved(x) =~= b);
}

} // verus!
