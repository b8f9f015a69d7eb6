//! Sparse complex matrices stored as `(row, col, value)` triplets.

use vstd::prelude::*;
use crate::bits::{Complex, FloatBits};

verus! {

/// A stored entry: row, column and value.
pub type Triplet<T> = (usize, usize, Complex<T>);

/// The entry `t` sits at `(row, col)`.
pub open spec fn at<T>(t: Triplet<T>, row: usize, col: usize) -> bool {
    t.0 == row && t.1 == col
}

/// No two entries of `s` share a coordinate.
pub open spec fn coords_unique<T>(s: Seq<Triplet<T>>) -> bool {
    forall|i: int, j: int|
        0 <= i < s.len() && 0 <= j < s.len() && i != j ==> !at(#[trigger] s[i], (#[trigger] s[j]).0, s[j].1)
}

/// What every stored sequence of entries satisfies: each value is non-zero,
/// each index leaves room for the order (`index + 1`) in a `usize`, and
/// coordinates are unique.
pub open spec fn entries_wf<T: FloatBits>(s: Seq<Triplet<T>>) -> bool {
    &&& forall|i: int|
        0 <= i < s.len() ==> !(#[trigger] s[i]).2.spec_is_zero() && s[i].0 < usize::MAX && s[i].1 < usize::MAX
    &&& coords_unique(s)
}

/// The matrix that the entries `s` describe, as a map from coordinates to values.
pub open spec fn entry_map<T>(s: Seq<Triplet<T>>) -> Map<(usize, usize), Complex<T>>
    decreases s.len(),
{
    if s.len() == 0 {
        Map::empty()
    } else {
        entry_map(s.drop_last()).insert((s.last().0, s.last().1), s.last().2)
    }
}

/// Keeps the entries that do not sit at `(row, col)`.
pub open spec fn elsewhere<T>(row: usize, col: usize) -> spec_fn(Triplet<T>) -> bool {
    |t: Triplet<T>| !at(t, row, col)
}

/// `s` with any entry at `(row, col)` taken out, the others in their order.
pub open spec fn without<T>(s: Seq<Triplet<T>>, row: usize, col: usize) -> Seq<Triplet<T>> {
    s.filter(elsewhere(row, col))
}

/// How many entries of `s` sit at `(row, col)`.
pub open spec fn count_at<T>(s: Seq<Triplet<T>>, row: usize, col: usize) -> nat {
    s.filter(|t: Triplet<T>| at(t, row, col)).len()
}

/// The entries after setting `t`: a zero value changes nothing; otherwise
/// the entry at the same coordinate, if any, is taken out and `t` is appended.
pub open spec fn with_entry<T: FloatBits>(s: Seq<Triplet<T>>, t: Triplet<T>) -> Seq<Triplet<T>> {
    if t.2.spec_is_zero() {
        s
    } else {
        without(s, t.0, t.1).push(t)
    }
}

/// The entries after setting each of `batch`, in order.
pub open spec fn with_entries<T: FloatBits>(s: Seq<Triplet<T>>, batch: Seq<Triplet<T>>) -> Seq<Triplet<T>>
    decreases batch.len(),
{
    if batch.len() == 0 {
        s
    } else {
        with_entry(with_entries(s, batch.drop_last()), batch.last())
    }
}

/// `1 + max(row, col)` over the entries of `s`, or 0 where there is none.
pub open spec fn order_of<T>(s: Seq<Triplet<T>>) -> nat
    decreases s.len(),
{
    if s.len() == 0 {
        0
    } else {
        let t = s.last();
        let k: nat = if t.0 >= t.1 { (t.0 + 1) as nat } else { (t.1 + 1) as nat };
        let o = order_of(s.drop_last());
        if o >= k { o } else { k }
    }
}

proof fn lemma_entry_map_absent<T>(s: Seq<Triplet<T>>, row: usize, col: usize)
    requires
        forall|j: int| 0 <= j < s.len() ==> !at(#[trigger] s[j], row, col),
    ensures
        !entry_map(s).contains_key((row, col)),
    decreases s.len(),
{
    if s.len() > 0 {
        lemma_entry_map_absent(s.drop_last(), row, col);
    }
}

proof fn lemma_entry_map_at<T>(s: Seq<Triplet<T>>, i: int)
    requires
        coords_unique(s),
        0 <= i < s.len(),
    ensures
        entry_map(s).contains_key((s[i].0, s[i].1)),
        entry_map(s)[(s[i].0, s[i].1)] == s[i].2,
    decreases s.len(),
{
    if i < s.len() - 1 {
        let d = s.drop_last();
        assert(d[i] == s[i]);
        assert forall|a: int, b: int|
            0 <= a < d.len() && 0 <= b < d.len() && a != b implies !at(#[trigger] d[a], (#[trigger] d[b]).0, d[b].1) by {
            assert(d[a] == s[a] && d[b] == s[b]);
        }
        lemma_entry_map_at(d, i);
        assert(!at(s[s.len() - 1], s[i].0, s[i].1));
    }
}

proof fn lemma_entry_map_dom<T>(s: Seq<Triplet<T>>, k: (usize, usize))
    requires
        entry_map(s).contains_key(k),
    ensures
        exists|i: int| 0 <= i < s.len() && at(#[trigger] s[i], k.0, k.1),
    decreases s.len(),
{
    if (s.last().0, s.last().1) != k {
        lemma_entry_map_dom(s.drop_last(), k);
        let i = choose|i: int| 0 <= i < s.drop_last().len() && at(#[trigger] s.drop_last()[i], k.0, k.1);
        assert(s[i] == s.drop_last()[i]);
    } else {
        assert(at(s[s.len() - 1], k.0, k.1));
    }
}

proof fn lemma_without_absent<T>(s: Seq<Triplet<T>>, row: usize, col: usize)
    requires
        forall|j: int| 0 <= j < s.len() ==> !at(#[trigger] s[j], row, col),
    ensures
        without(s, row, col) == s,
    decreases s.len(),
{
    reveal(Seq::filter);
    if s.len() > 0 {
        lemma_without_absent(s.drop_last(), row, col);
        assert(s.drop_last().push(s.last()) =~= s);
    }
}

proof fn lemma_without_at<T>(s: Seq<Triplet<T>>, i: int)
    requires
        coords_unique(s),
        0 <= i < s.len(),
    ensures
        without(s, s[i].0, s[i].1) == s.remove(i),
{
    let row = s[i].0;
    let col = s[i].1;
    let a = s.subrange(0, i);
    let b = s.subrange(i + 1, s.len() as int);
    let one = seq![s[i]];
    assert forall|j: int| 0 <= j < a.len() implies !at(#[trigger] a[j], row, col) by {
        assert(a[j] == s[j]);
    }
    assert forall|j: int| 0 <= j < b.len() implies !at(#[trigger] b[j], row, col) by {
        assert(b[j] == s[i + 1 + j]);
    }
    lemma_without_absent(a, row, col);
    lemma_without_absent(b, row, col);
    assert(s =~= a + (one + b));
    Seq::filter_distributes_over_add(a, one + b, elsewhere(row, col));
    Seq::filter_distributes_over_add(one, b, elsewhere(row, col));
    reveal_with_fuel(Seq::filter, 2);
    assert(one.drop_last() =~= Seq::<Triplet<T>>::empty());
    assert(without(one, row, col) =~= Seq::<Triplet<T>>::empty());
    assert(without(s, row, col) =~= a + b);
}

proof fn lemma_entry_map_without<T>(s: Seq<Triplet<T>>, row: usize, col: usize)
    ensures
        entry_map(without(s, row, col)) == entry_map(s).remove((row, col)),
    decreases s.len(),
{
    reveal(Seq::filter);
    if s.len() == 0 {
        assert(entry_map(s).remove((row, col)) =~= Map::<(usize, usize), Complex<T>>::empty());
    } else {
        lemma_entry_map_without(s.drop_last(), row, col);
        let w = without(s.drop_last(), row, col);
        if at(s.last(), row, col) {
            assert(without(s, row, col) == w);
            assert(entry_map(s).remove((row, col)) =~= entry_map(s.drop_last()).remove((row, col)));
        } else {
            assert(without(s, row, col) == w.push(s.last()));
            assert(w.push(s.last()).drop_last() =~= w);
            assert(entry_map(s).remove((row, col)) =~= entry_map(w).insert((s.last().0, s.last().1), s.last().2));
        }
    }
}

proof fn lemma_order_of<T>(s: Seq<Triplet<T>>)
    ensures
        forall|i: int| 0 <= i < s.len() ==> (#[trigger] s[i]).0 < order_of(s) && s[i].1 < order_of(s),
        order_of(s) > 0 ==> exists|i: int|
            0 <= i < s.len() && ((#[trigger] s[i]).0 + 1 == order_of(s) || s[i].1 + 1 == order_of(s)),
    decreases s.len(),
{
    if s.len() > 0 {
        let d = s.drop_last();
        lemma_order_of(d);
        assert forall|i: int| 0 <= i < s.len() implies (#[trigger] s[i]).0 < order_of(s) && s[i].1 < order_of(s) by {
            if i < d.len() {
                assert(s[i] == d[i]);
            }
        }
        if order_of(d) > order_of(s) || order_of(d) == order_of(s) && order_of(d) > 0 {
            let i = choose|i: int| 0 <= i < d.len() && ((#[trigger] d[i]).0 + 1 == order_of(d) || d[i].1 + 1 == order_of(d));
            assert(s[i] == d[i]);
        } else {
            let l = s.len() - 1;
            assert(s[l].0 + 1 == order_of(s) || s[l].1 + 1 == order_of(s));
        }
    }
}

proof fn lemma_count_after_write<T>(s: Seq<Triplet<T>>, t: Triplet<T>)
    ensures
        count_at(without(s, t.0, t.1).push(t), t.0, t.1) == 1,
{
    let w = without(s, t.0, t.1);
    let p = |u: Triplet<T>| at(u, t.0, t.1);
    assert forall|j: int| 0 <= j < w.len() implies !at(#[trigger] w[j], t.0, t.1) by {
        s.lemma_filter_pred(elsewhere(t.0, t.1), j);
    }
    lemma_filter_none(w, t.0, t.1);
    reveal(Seq::filter);
    assert(w.push(t).drop_last() =~= w);
    assert(w.push(t).filter(p) == w.filter(p).push(t));
}

proof fn lemma_filter_none<T>(s: Seq<Triplet<T>>, row: usize, col: usize)
    requires
        forall|j: int| 0 <= j < s.len() ==> !at(#[trigger] s[j], row, col),
    ensures
        count_at(s, row, col) == 0,
    decreases s.len(),
{
    reveal(Seq::filter);
    if s.len() > 0 {
        lemma_filter_none(s.drop_last(), row, col);
    }
}

/// Last write wins: after setting a non-zero `v` at `(row, col)` the matrix
/// holds `v` there, and after setting a non-zero `v2` at the same place it
/// holds `v2`; each time exactly one entry sits at `(row, col)`.
pub proof fn lemma_last_write_wins<T: FloatBits>(
    m0: ComplexMatrix<T>,
    m1: ComplexMatrix<T>,
    m2: ComplexMatrix<T>,
    row: usize,
    col: usize,
    v: Complex<T>,
    v2: Complex<T>,
)
    requires
        !v.spec_is_zero(),
        !v2.spec_is_zero(),
        m1.triplets() == with_entry(m0.triplets(), (row, col, v)),
        m2.triplets() == with_entry(m1.triplets(), (row, col, v2)),
    ensures
        m1@.contains_key((row, col)) && m1@[(row, col)] == v,
        m2@.contains_key((row, col)) && m2@[(row, col)] == v2,
        count_at(m1.triplets(), row, col) == 1,
        count_at(m2.triplets(), row, col) == 1,
{
    lemma_count_after_write(m0.triplets(), (row, col, v));
    lemma_count_after_write(m1.triplets(), (row, col, v2));
    assert(m1.triplets().drop_last() =~= without(m0.triplets(), row, col));
    assert(m2.triplets().drop_last() =~= without(m1.triplets(), row, col));
}

/// A sparse complex matrix: a collection of `(row, col, value)` triplets with
/// non-zero values and one entry at most per coordinate.
#[derive(Debug)]
pub struct ComplexMatrix<T: FloatBits> {
    entries: Vec<Triplet<T>>,
}

impl<T: FloatBits> View for ComplexMatrix<T> {
    type V = Map<(usize, usize), Complex<T>>;

    /// The stored value at each coordinate that has one.
    open spec fn view(&self) -> Map<(usize, usize), Complex<T>> {
        entry_map(self.triplets())
    }
}

impl<T: FloatBits> ComplexMatrix<T> {
    /// The stored triplets, in storage order.
    pub closed spec fn triplets(&self) -> Seq<Triplet<T>> {
        self.entries@
    }

    #[verifier::type_invariant]
    spec fn inv(self) -> bool {
        entries_wf(self.entries@)
    }

    /// The order of the matrix: `1 + max(row, col)` over its entries, 0 if empty.
    pub open spec fn spec_order(&self) -> nat {
        order_of(self.triplets())
    }

    /// A new, empty matrix.
    pub fn new() -> (r: Self)
        ensures
            r.triplets() == Seq::<Triplet<T>>::empty(),
            r@ == Map::<(usize, usize), Complex<T>>::empty(),
    {
        ComplexMatrix { entries: Vec::new() }
    }

    /// A new, empty matrix with room for `capacity` entries.
    pub fn with_capacity(capacity: usize) -> (r: Self)
        ensures
            r.triplets() == Seq::<Triplet<T>>::empty(),
            r@ == Map::<(usize, usize), Complex<T>>::empty(),
    {
        ComplexMatrix { entries: Vec::with_capacity(capacity) }
    }

    /// The number of stored entries.
    pub fn num_entries(&self) -> (r: usize)
        ensures
            r == self.triplets().len(),
    {
        self.entries.len()
    }

    /// The index of the entry at `(row, col)`, if there is one.
    fn position(&self, row: usize, col: usize) -> (r: Option<usize>)
        ensures
            entries_wf(self.entries@),
            match r {
                Some(i) => i < self.entries@.len() && at(self.entries@[i as int], row, col),
                None => forall|j: int| 0 <= j < self.entries@.len() ==> !at(#[trigger] self.entries@[j], row, col),
            },
    {
        proof {
            use_type_invariant(self);
        }
        let n = self.entries.len();
        let mut i: usize = 0;
        while i < n
            invariant
                n == self.entries@.len(),
                i <= n,
                entries_wf(self.entries@),
                forall|j: int| 0 <= j < i ==> !at(#[trigger] self.entries@[j], row, col),
            decreases n - i,
        {
            if self.entries[i].0 == row && self.entries[i].1 == col {
                return Some(i);
            }
            i += 1;
        }
        None
    }

    /// The value stored at `(row, col)`, if any.
    pub fn get(&self, row: usize, col: usize) -> (r: Option<&Complex<T>>)
        ensures
            r == (if self@.contains_key((row, col)) { Some(&self@[(row, col)]) } else { None }),
    {
        match self.position(row, col) {
            Some(i) => {
                proof {
                    lemma_entry_map_at(self.entries@, i as int);
                }
                Some(&self.entries[i].2)
            },
            None => {
                proof {
                    lemma_entry_map_absent(self.entries@, row, col);
                }
                None
            },
        }
    }

    /// Sets the entry at `(row, col)` to `value`.
    ///
    /// A zero value is not stored and changes nothing. Otherwise any entry at
    /// the same coordinate is taken out and the new one appended: the last
    /// write wins.
    pub fn add_element(&mut self, row: usize, col: usize, value: Complex<T>)
        requires
            row < usize::MAX,
            col < usize::MAX,
        ensures
            final(self).triplets() == with_entry(old(self).triplets(), (row, col, value)),
            final(self)@ == (if value.spec_is_zero() { old(self)@ } else { old(self)@.insert((row, col), value) }),
            value.spec_is_zero() ==> final(self).triplets() == old(self).triplets() && final(self).spec_order()
                == old(self).spec_order(),
            !value.spec_is_zero() ==> count_at(final(self).triplets(), row, col) == 1,
            !value.spec_is_zero() ==> final(self).triplets().len() == old(self).triplets().len() + (if old(self)@.contains_key(
                (row, col),
            ) {
                0int
            } else {
                1int
            }),
    {
        if value.is_zero() {
            return;
        }
        proof {
            use_type_invariant(&*self);
        }
        let ghost s = self.entries@;
        let n = self.entries.len();
        let skip: usize = match self.position(row, col) {
            Some(i) => i,
            None => n,
        };
        let mut e: Vec<Triplet<T>> = Vec::with_capacity(n);
        let mut j: usize = 0;
        while j < n
            invariant
                n == s.len(),
                s == self.entries@,
                skip <= n,
                j <= n,
                e@ == (if j <= skip { s.subrange(0, j as int) } else { s.subrange(0, skip as int) + s.subrange(
                    skip + 1,
                    j as int,
                ) }),
            decreases n - j,
        {
            if j != skip {
                e.push(self.entries[j]);
            }
            j += 1;
            proof {
                if j <= skip {
                    assert(s.subrange(0, j as int) =~= s.subrange(0, j - 1).push(s[j - 1]));
                } else if j > skip + 1 {
                    assert(s.subrange(0, skip as int) + s.subrange(skip + 1, j as int) =~= (s.subrange(0, skip as int)
                        + s.subrange(skip + 1, j - 1)).push(s[j - 1]));
                }
            }
        }
        proof {
            if skip < n {
                lemma_entry_map_at(s, skip as int);
                lemma_without_at(s, skip as int);
                assert(e@ =~= s.remove(skip as int));
                assert forall|k: int| 0 <= k < e@.len() implies !at(#[trigger] e@[k], row, col) by {
                    if k >= skip {
                        assert(e@[k] == s[k + 1]);
                    } else {
                        assert(e@[k] == s[k]);
                    }
                }
            } else {
                lemma_entry_map_absent(s, row, col);
                lemma_without_absent(s, row, col);
                assert(e@ =~= s);
            }
        }
        let ghost w = e@;
        assert(w == without(s, row, col));
        e.push((row, col, value));
        proof {
            assert forall|a: int, b: int|
                0 <= a < e@.len() && 0 <= b < e@.len() && a != b implies !at(#[trigger] e@[a], (#[trigger] e@[b]).0, e@[b].1) by {
                if a < w.len() && b < w.len() {
                    if skip < n {
                        let sa = if a >= skip { a + 1 } else { a };
                        let sb = if b >= skip { b + 1 } else { b };
                        assert(e@[a] == s[sa] && e@[b] == s[sb]);
                    } else {
                        assert(e@[a] == s[a] && e@[b] == s[b]);
                    }
                }
            }
            assert forall|k: int| 0 <= k < w.len() implies !(#[trigger] e@[k]).2.spec_is_zero() && e@[k].0 < usize::MAX
                && e@[k].1 < usize::MAX by {
                if skip < n {
                    let sk = if k >= skip { k + 1 } else { k };
                    assert(e@[k] == s[sk]);
                } else {
                    assert(e@[k] == s[k]);
                }
            }
        }
        *self = ComplexMatrix { entries: e };
        proof {
            lemma_count_after_write(s, (row, col, value));
            lemma_entry_map_without(s, row, col);
            assert(w.push((row, col, value)).drop_last() =~= w);
            assert(self@ =~= entry_map(s).insert((row, col), value));
        }
    }
    /// The order of the matrix: `1 + max(row, col)` over its entries, or 0
    /// for an empty matrix. It is computed from the entries on each call.
    pub fn order(&self) -> (r: usize)
        ensures
            r == self.spec_order(),
            forall|k: (usize, usize)| #[trigger] self@.contains_key(k) ==> k.0 < r && k.1 < r,
            r > 0 ==> exists|k: (usize, usize)| #[trigger] self@.contains_key(k) && (k.0 + 1 == r || k.1 + 1 == r),
            (forall|k: (usize, usize)| !(#[trigger] self@.contains_key(k))) ==> r == 0,
    {
        proof {
            use_type_invariant(self);
        }
        let ghost s = self.entries@;
        let n = self.entries.len();
        let mut o: usize = 0;
        let mut i: usize = 0;
        while i < n
            invariant
                n == s.len(),
                s == self.entries@,
                entries_wf(s),
                i <= n,
                o == order_of(s.subrange(0, i as int)),
            decreases n - i,
        {
            let row = self.entries[i].0;
            let col = self.entries[i].1;
            let k: usize = if row >= col { row + 1 } else { col + 1 };
            if k > o {
                o = k;
            }
            i += 1;
            assert(s.subrange(0, i as int).drop_last() =~= s.subrange(0, i - 1));
        }
        proof {
            assert(s.subrange(0, n as int) =~= s);
            lemma_order_of(s);
            assert forall|k: (usize, usize)| #[trigger] self@.contains_key(k) implies k.0 < o && k.1 < o by {
                lemma_entry_map_dom(s, k);
                let i = choose|i: int| 0 <= i < s.len() && at(#[trigger] s[i], k.0, k.1);
            }
            if o > 0 {
                let i = choose|i: int| 0 <= i < s.len() && ((#[trigger] s[i]).0 + 1 == o || s[i].1 + 1 == o);
                lemma_entry_map_at(s, i);
                assert(self@.contains_key((s[i].0, s[i].1)));
            }
            if s.len() > 0 {
                assert(self@.contains_key((s.last().0, s.last().1)));
            }
        }
        o
    }

    /// Sets each entry of `batch` in turn, as `add_element` does: a later
    /// entry wins over an earlier one at the same coordinate.
    pub fn add_elements(&mut self, batch: &[Triplet<T>])
        requires
            forall|i: int| 0 <= i < batch@.len() ==> (#[trigger] batch@[i]).0 < usize::MAX && batch@[i].1 < usize::MAX,
        ensures
            final(self).triplets() == with_entries(old(self).triplets(), batch@),
    {
        let ghost s0 = self.triplets();
        let n = batch.len();
        let mut i: usize = 0;
        while i < n
            invariant
                n == batch@.len(),
                i <= n,
                forall|j: int| 0 <= j < batch@.len() ==> (#[trigger] batch@[j]).0 < usize::MAX && batch@[j].1 < usize::MAX,
                self.triplets() == with_entries(s0, batch@.subrange(0, i as int)),
            decreases n - i,
        {
            let t = batch[i];
            self.add_element(t.0, t.1, t.2);
            i += 1;
            assert(batch@.subrange(0, i as int).drop_last() =~= batch@.subrange(0, i - 1));
        }
        assert(batch@.subrange(0, n as int) =~= batch@);
    }

    /// A matrix holding `entries`, set in order as `add_elements` does.
    pub fn from_entries(entries: Vec<Triplet<T>>) -> (r: Self)
        requires
            forall|i: int| 0 <= i < entries@.len() ==> (#[trigger] entries@[i]).0 < usize::MAX && entries@[i].1 < usize::MAX,
        ensures
            r.triplets() == with_entries(Seq::<Triplet<T>>::empty(), entries@),
    {
        let mut m = Self::with_capacity(entries.len());
        m.add_elements(entries.as_slice());
        m
    }

    /// The stored triplets, in storage order.
    pub fn entries(&self) -> (r: Vec<Triplet<T>>)
        ensures
            r@ == self.triplets(),
    {
        let n = self.entries.len();
        let mut r: Vec<Triplet<T>> = Vec::with_capacity(n);
        let mut i: usize = 0;
        while i < n
            invariant
                n == self.entries@.len(),
                i <= n,
                r@ == self.entries@.subrange(0, i as int),
            decreases n - i,
        {
            r.push(self.entries[i]);
            i += 1;
            assert(r@ =~= self.entries@.subrange(0, i as int));
        }
        assert(self.entries@.subrange(0, n as int) =~= self.entries@);
        r
    }

    /// Each stored index is below the order.
    pub proof fn lemma_entries_bounded(&self)
        ensures
            forall|i: int|
                0 <= i < self.triplets().len() ==> (#[trigger] self.triplets()[i]).0 < self.spec_order()
                    && self.triplets()[i].1 < self.spec_order(),
    {
        lemma_order_of(self.triplets());
    }

    /// Every entry of `self` is an entry of `other`, with the same value.
    fn included_in(&self, other: &Self) -> (r: bool)
        ensures
            r == (forall|k: (usize, usize)| #[trigger] self@.contains_key(k) ==> other@.contains_key(k) && other@[k] == self@[k]),
    {
        proof {
            use_type_invariant(self);
        }
        let ghost s = self.entries@;
        let n = self.entries.len();
        let mut i: usize = 0;
        while i < n
            invariant
                n == s.len(),
                s == self.entries@,
                entries_wf(s),
                i <= n,
                forall|j: int| 0 <= j < i ==> other@.contains_key(((#[trigger] s[j]).0, s[j].1)) && other@[(s[j].0, s[j].1)] == s[j].2,
            decreases n - i,
        {
            let t = self.entries[i];
            proof {
                lemma_entry_map_at(s, i as int);
            }
            match other.get(t.0, t.1) {
                Some(v) => {
                    if !v.same(&t.2) {
                        assert(self@.contains_key((t.0, t.1)));
                        return false;
                    }
                },
                None => {
                    assert(self@.contains_key((t.0, t.1)));
                    return false;
                },
            }
            i += 1;
        }
        proof {
            assert forall|k: (usize, usize)| #[trigger] self@.contains_key(k) implies other@.contains_key(k) && other@[k] == self@[k] by {
                lemma_entry_map_dom(s, k);
                let i = choose|i: int| 0 <= i < s.len() && at(#[trigger] s[i], k.0, k.1);
                lemma_entry_map_at(s, i);
            }
        }
        true
    }
}

impl<T: FloatBits> Clone for ComplexMatrix<T> {
    fn clone(&self) -> (r: Self)
        ensures
            r.triplets() == self.triplets(),
    {
        proof {
            use_type_invariant(self);
        }
        ComplexMatrix { entries: self.entries() }
    }
}

/// Two matrices are equal when they hold the same entries, whatever the
/// order in which they were stored.
impl<T: FloatBits> PartialEq for ComplexMatrix<T> {
    fn eq(&self, other: &Self) -> (r: bool) {
        let r = self.included_in(other) && other.included_in(self);
        proof {
            if r {
                assert(self@ =~= other@);
            }
        }
        r
    }
}

impl<T: FloatBits> vstd::std_specs::cmp::PartialEqSpecImpl for ComplexMatrix<T> {
    open spec fn obeys_eq_spec() -> bool {
        true
    }

    open spec fn eq_spec(&self, other: &Self) -> bool {
        self@ == other@
    }
}

/// The 2×2 identity matrix.
impl<T: FloatBits> Default for ComplexMatrix<T> {
    fn default() -> (r: Self)
        ensures
            r.triplets() == seq![
                (0usize, 0usize, Complex { re: T::spec_one(), im: T::spec_zero() }),
                (1usize, 1usize, Complex { re: T::spec_one(), im: T::spec_zero() }),
            ],
    {
        let one = Complex::new(T::one(), T::zero());
        let mut m = Self::new();
        m.add_element(0, 0, one);
        proof {
            lemma_without_absent(Seq::<Triplet<T>>::empty(), 0, 0);
            lemma_without_absent(seq![(0usize, 0usize, one)], 1, 1);
        }
        m.add_element(1, 1, one);
        m
    }
}

} // verus!
