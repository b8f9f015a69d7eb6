//! Moving a complex vector, given as `(re, im)` pairs, to and from the real
//! vector of twice its length that holds all real parts, then all imaginary
//! parts.

use vstd::prelude::*;

verus! {

/// The real parts of `b`, in order, followed by its imaginary parts, in order.
pub open spec fn expanded<T>(b: Seq<(T, T)>) -> Seq<T> {
    b.map_values(|p: (T, T)| p.0) + b.map_values(|p: (T, T)| p.1)
}

/// The pairs `(x[i], x[i + h])` for `i < h`, where `h` is half the length of `x`.
pub open spec fn folded<T>(x: Seq<T>) -> Seq<(T, T)> {
    Seq::new(x.len() / 2, |i: int| (x[i], x[i + x.len() / 2]))
}

/// Lays out `complex` as a real vector: all real parts, then all imaginary
/// parts, each in the input's order.
pub fn complex_to_primitive<T: Copy>(complex: &[(T, T)]) -> (r: Vec<T>)
    ensures
        r@ == expanded(complex@),
{
    let n = complex.len();
    let mut r: Vec<T> = Vec::with_capacity(n);
    let mut i: usize = 0;
    while i < n
        invariant
            n == complex@.len(),
            i <= n,
            r@ == complex@.subrange(0, i as int).map_values(|p: (T, T)| p.0),
        decreases n - i,
    {
        r.push(complex[i].0);
        i += 1;
        assert(complex@.subrange(0, i as int) == complex@.subrange(0, i - 1).push(complex@[i - 1]));
    }
    let ghost reals = r@;
    let mut k: usize = 0;
    while k < n
        invariant
            n == complex@.len(),
            k <= n,
            reals == complex@.map_values(|p: (T, T)| p.0),
            r@ == reals + complex@.subrange(0, k as int).map_values(|p: (T, T)| p.1),
        decreases n - k,
    {
        r.push(complex[k].1);
        k += 1;
        assert(complex@.subrange(0, k as int) == complex@.subrange(0, k - 1).push(complex@[k - 1]));
    }
    assert(complex@.subrange(0, n as int) == complex@);
    r
}

/// Folds a real vector of even length `2n` back into `n` pairs, pairing
/// element `i` (real part) with element `i + n` (imaginary part).
///
/// A vector of odd length is refused with the message `"Lenght error"`.
pub fn primitive_to_complex<T: Copy>(primitive: &[T]) -> (r: Result<Vec<(T, T)>, &'static str>)
    ensures
        primitive@.len() % 2 == 0 ==> (r matches Ok(v) && v@ == folded(primitive@)),
        primitive@.len() % 2 != 0 ==> r == Err::<Vec<(T, T)>, &'static str>("Lenght error"),
{
    let len = primitive.len();
    if len % 2 != 0 {
        return Err("Lenght error");
    }
    let half = len / 2;
    let mut r: Vec<(T, T)> = Vec::with_capacity(half);
    let mut i: usize = 0;
    while i < half
        invariant
            len == primitive@.len(),
            half == len / 2,
            i <= half,
            r@ == folded(primitive@).subrange(0, i as int),
        decreases half - i,
    {
        r.push((primitive[i], primitive[i + half]));
        i += 1;
    }
    assert(r@ == folded(primitive@));
    Ok(r)
}

/// Expanding a complex vector to its real form and folding that back gives
/// the vector again.
pub proof fn lemma_expand_fold_round_trip<T>(b: Seq<(T, T)>)
    ensures
        folded(expanded(b)) == b,
{
    let x = expanded(b);
    assert(x.len() / 2 == b.len());
    assert(folded(x) =~= b);
}

} // verus!
