//! The container: three field buffers of equal length, one logical record per index.
use core::cmp::Ordering;
use vstd::prelude::*;

use crate::buffer::{capacity_of, reserve_exact_in, shrink_in, slice_range, slice_range_mut};
use crate::permutation::{
    fixed_count, inverse, is_permutation, lemma_fixed_count_bound, lemma_fixed_count_grows,
    lemma_swap_permutation, permute, swap_at,
};
use crate::range::{bounds_to_range, end_of, range_in_bounds, start_of, Bound};
use crate::sorting::{sorts_stably, stable_order};

verus! {

/// A struct-of-arrays container for records of three fields.
///
/// The record at index `i` is `(f0[i], f1[i], f2[i])`; the three buffers always
/// have the same length.
pub struct Soa3<A, B, C> {
    f0: Vec<A>,
    f1: Vec<B>,
    f2: Vec<C>,
}

/// Borrowed view of one record: one shared reference per field.
pub struct RowRef<'a, A, B, C>(pub &'a A, pub &'a B, pub &'a C);

/// Borrowed view of one record: one mutable reference per field.
pub struct RowRefMut<'a, A, B, C>(pub &'a mut A, pub &'a mut B, pub &'a mut C);

/// Borrowed view of a contiguous range of records: one slice per field.
pub struct FieldSlices<'a, A, B, C>(pub &'a [A], pub &'a [B], pub &'a [C]);

/// Mutable view of a contiguous range of records: one mutable slice per field.
pub struct FieldSlicesMut<'a, A, B, C>(pub &'a mut [A], pub &'a mut [B], pub &'a mut [C]);

/// The records spelled out by three field sequences, as long as the first one.
pub open spec fn zip_rows<A, B, C>(a: Seq<A>, b: Seq<B>, c: Seq<C>) -> Seq<(A, B, C)> {
    Seq::new(a.len(), |i: int| (a[i], b[i], c[i]))
}

impl<'a, A, B, C> View for RowRef<'a, A, B, C> {
    type V = (A, B, C);

    open spec fn view(&self) -> (A, B, C) {
        (*self.0, *self.1, *self.2)
    }
}

impl<'a, A, B, C> FieldSlices<'a, A, B, C> {
    /// The records that the slices cover, in index order.
    pub open spec fn rows(&self) -> Seq<(A, B, C)> {
        zip_rows(self.0@, self.1@, self.2@)
    }

    /// All three slices have the same length.
    pub open spec fn aligned(&self) -> bool {
        self.0@.len() == self.1@.len() && self.1@.len() == self.2@.len()
    }
}

/// `key`, given a view of `row`, may return `k`.
pub open spec fn key_gives<'a, A: 'a, B: 'a, C: 'a, F: Fn(RowRef<'a, A, B, C>) -> i128>(
    key: F,
    row: (A, B, C),
    k: i128,
) -> bool {
    exists|x: RowRef<'a, A, B, C>| x@ == row && call_ensures(key, (x,), k)
}

/// `cmp`, given views of `x` and `y` in that order, may return `o`.
pub open spec fn cmp_gives<
    'a,
    A: 'a,
    B: 'a,
    C: 'a,
    F: Fn(RowRef<'a, A, B, C>, RowRef<'a, A, B, C>) -> Ordering,
>(
    cmp: F,
    x: (A, B, C),
    y: (A, B, C),
    o: Ordering,
) -> bool {
    exists|rx: RowRef<'a, A, B, C>, ry: RowRef<'a, A, B, C>|
        rx@ == x && ry@ == y && call_ensures(cmp, (rx, ry), o)
}

/// `o2` is the answer opposite to `o1`.
pub open spec fn opposite(o1: Ordering, o2: Ordering) -> bool {
    &&& (o1 == Ordering::Less <==> o2 == Ordering::Greater)
    &&& (o1 == Ordering::Equal <==> o2 == Ordering::Equal)
    &&& (o1 == Ordering::Greater <==> o2 == Ordering::Less)
}

/// `cmp` behaves as a comparison: one answer for each pair of records, and the
/// opposite answer when the two are given the other way round.
pub open spec fn consistent_comparator<
    'a,
    A: 'a,
    B: 'a,
    C: 'a,
    F: Fn(RowRef<'a, A, B, C>, RowRef<'a, A, B, C>) -> Ordering,
>(cmp: F) -> bool {
    &&& forall|x: (A, B, C), y: (A, B, C), o1: Ordering, o2: Ordering|
        #[trigger] cmp_gives::<'a, A, B, C, F>(cmp, x, y, o1)
            && #[trigger] cmp_gives::<'a, A, B, C, F>(cmp, x, y, o2) ==> o1 == o2
    &&& forall|x: (A, B, C), y: (A, B, C), o1: Ordering, o2: Ordering|
        #[trigger] cmp_gives::<'a, A, B, C, F>(cmp, x, y, o1)
            && #[trigger] cmp_gives::<'a, A, B, C, F>(cmp, y, x, o2) ==> opposite(o1, o2)
}

/// Records `a` and `b` of `rows` may stand in this order after sorting by `cmp`:
/// every answer of `cmp` puts `a` first, or ties them with `a` first; and `cmp`
/// did give such an answer, or put `a` first when asked the other way round.
pub open spec fn cmp_in_order<
    'a,
    A: 'a,
    B: 'a,
    C: 'a,
    F: Fn(RowRef<'a, A, B, C>, RowRef<'a, A, B, C>) -> Ordering,
>(
    cmp: F,
    rows: Seq<(A, B, C)>,
    a: usize,
    b: usize,
) -> bool {
    &&& forall|o: Ordering|
        #[trigger] cmp_gives::<'a, A, B, C, F>(cmp, rows[a as int], rows[b as int], o) ==> o
            == Ordering::Less || (o == Ordering::Equal && a < b)
    &&& (exists|o: Ordering|
        #[trigger] cmp_gives::<'a, A, B, C, F>(cmp, rows[a as int], rows[b as int], o) && (o
            == Ordering::Less || (o == Ordering::Equal && a < b)))
        || cmp_gives::<'a, A, B, C, F>(cmp, rows[b as int], rows[a as int], Ordering::Greater)
}

impl<A, B, C> View for Soa3<A, B, C> {
    type V = Seq<(A, B, C)>;

    closed spec fn view(&self) -> Seq<(A, B, C)> {
        zip_rows(self.f0@, self.f1@, self.f2@)
    }
}

impl<A, B, C> Soa3<A, B, C> {
    /// The buffers are in lock-step: all three have the same length.
    pub closed spec fn wf(&self) -> bool {
        self.f0@.len() == self.f1@.len() && self.f1@.len() == self.f2@.len()
    }

    /// Creates an empty container.
    pub fn new() -> (r: Self)
        ensures
            r.wf(),
            r@ == Seq::<(A, B, C)>::empty(),
    {
        let r = Soa3 { f0: Vec::new(), f1: Vec::new(), f2: Vec::new() };
        assert(r@ =~= Seq::<(A, B, C)>::empty());
        r
    }

    /// Creates an empty container whose buffers each have room for `capacity` records.
    pub fn with_capacity(capacity: usize) -> (r: Self)
        ensures
            r.wf(),
            r@ == Seq::<(A, B, C)>::empty(),
    {
        let r = Soa3 {
            f0: Vec::with_capacity(capacity),
            f1: Vec::with_capacity(capacity),
            f2: Vec::with_capacity(capacity),
        };
        assert(r@ =~= Seq::<(A, B, C)>::empty());
        r
    }

    /// Number of records.
    pub fn len(&self) -> (r: usize)
        requires
            self.wf(),
        ensures
            r == self@.len(),
    {
        self.f0.len()
    }

    /// Whether the container holds no record.
    pub fn is_empty(&self) -> (r: bool)
        requires
            self.wf(),
        ensures
            r == (self@.len() == 0),
    {
        self.f0.is_empty()
    }

    /// Capacity of the first field's buffer: never below the number of records.
    pub fn capacity(&self) -> (r: usize)
        requires
            self.wf(),
        ensures
            r >= self@.len(),
    {
        capacity_of(&self.f0)
    }

    /// Appends a record at the end.
    pub fn push(&mut self, row: (A, B, C))
        requires
            old(self).wf(),
        ensures
            final(self).wf(),
            final(self)@.len() == old(self)@.len() + 1,
            final(self)@ == old(self)@.push(row),
    {
        let (x, y, z) = row;
        self.f0.push(x);
        self.f1.push(y);
        self.f2.push(z);
        assert(self@ =~= old(self)@.push(row));
    }

    /// Removes and returns the last record, or `None` when there is none.
    pub fn pop(&mut self) -> (r: Option<(A, B, C)>)
        requires
            old(self).wf(),
        ensures
            final(self).wf(),
            old(self)@.len() == 0 ==> r.is_none() && final(self)@ == old(self)@,
            old(self)@.len() > 0 ==> r == Some(old(self)@.last()) && final(self)@.len()
                == old(self)@.len() - 1 && final(self)@ == old(self)@.drop_last(),
    {
        if self.f0.is_empty() {
            return None;
        }
        let x = self.f0.pop().unwrap();
        let y = self.f1.pop().unwrap();
        let z = self.f2.pop().unwrap();
        assert(self@ =~= old(self)@.drop_last());
        Some((x, y, z))
    }

    /// Inserts `row` at `index`, shifting the records at `index..` one place right.
    pub fn insert(&mut self, index: usize, row: (A, B, C))
        requires
            old(self).wf(),
            index <= old(self)@.len(),
        ensures
            final(self).wf(),
            final(self)@.len() == old(self)@.len() + 1,
            final(self)@ == old(self)@.insert(index as int, row),
    {
        let (x, y, z) = row;
        self.f0.insert(index, x);
        self.f1.insert(index, y);
        self.f2.insert(index, z);
        assert(self@ =~= old(self)@.insert(index as int, row));
    }

    /// Removes and returns the record at `index`, shifting the rest one place left.
    pub fn remove(&mut self, index: usize) -> (r: (A, B, C))
        requires
            old(self).wf(),
            index < old(self)@.len(),
        ensures
            final(self).wf(),
            r == old(self)@[index as int],
            final(self)@.len() == old(self)@.len() - 1,
            final(self)@ == old(self)@.remove(index as int),
    {
        let x = self.f0.remove(index);
        let y = self.f1.remove(index);
        let z = self.f2.remove(index);
        assert(self@ =~= old(self)@.remove(index as int));
        (x, y, z)
    }

    /// Removes and returns the record at `index`; the last record takes its place.
    pub fn swap_remove(&mut self, index: usize) -> (r: (A, B, C))
        requires
            old(self).wf(),
            index < old(self)@.len(),
        ensures
            final(self).wf(),
            r == old(self)@[index as int],
            final(self)@.len() == old(self)@.len() - 1,
            final(self)@ == old(self)@.update(index as int, old(self)@.last()).drop_last(),
    {
        let x = self.f0.swap_remove(index);
        let y = self.f1.swap_remove(index);
        let z = self.f2.swap_remove(index);
        assert(self@ =~= old(self)@.update(index as int, old(self)@.last()).drop_last());
        (x, y, z)
    }

    /// Puts `row` at `index` and returns the record that was there.
    pub fn replace(&mut self, index: usize, row: (A, B, C)) -> (r: (A, B, C))
        requires
            old(self).wf(),
            index < old(self)@.len(),
        ensures
            final(self).wf(),
            r == old(self)@[index as int],
            final(self)@ == old(self)@.update(index as int, row),
    {
        let (mut x, mut y, mut z) = row;
        std::mem::swap(&mut self.f0[index], &mut x);
        std::mem::swap(&mut self.f1[index], &mut y);
        std::mem::swap(&mut self.f2[index], &mut z);
        assert(self@ =~= old(self)@.update(index as int, row));
        (x, y, z)
    }

    /// Exchanges the records at `i` and `j`.
    fn swap_rows(&mut self, i: usize, j: usize)
        requires
            old(self).wf(),
            i < old(self)@.len(),
            j < old(self)@.len(),
        ensures
            final(self).wf(),
            final(self)@ == old(self)@.update(i as int, old(self)@[j as int]).update(
                j as int,
                old(self)@[i as int],
            ),
    {
        swap_at(&mut self.f0, i, j);
        swap_at(&mut self.f1, i, j);
        swap_at(&mut self.f2, i, j);
        assert(self@ =~= old(self)@.update(i as int, old(self)@[j as int]).update(
            j as int,
            old(self)@[i as int],
        ));
    }

    /// Reorders the records so that position `i` receives the record that was at
    /// `indices[i]`.
    ///
    /// The work is done in place by following the cycles of the inverse mapping,
    /// moving all three buffers through the same swaps.
    pub fn apply_index(&mut self, indices: &[usize])
        requires
            old(self).wf(),
            is_permutation(indices@, old(self)@.len()),
        ensures
            final(self).wf(),
            final(self)@ == permute(old(self)@, indices@),
    {
        let n = self.len();
        let ghost target = permute(self@, indices@);
        let mut perm = inverse(indices);
        let mut i: usize = 0;
        while i < n
            invariant
                self.wf(),
                self@.len() == n,
                target.len() == n,
                is_permutation(perm@, n as nat),
                i <= n,
                forall|k: int| 0 <= k < n ==> target[#[trigger] perm@[k] as int] == self@[k],
                forall|k: int| 0 <= k < i ==> #[trigger] perm@[k] == k,
            decreases n - i,
        {
            while perm[i] != i
                invariant
                    self.wf(),
                    self@.len() == n,
                    target.len() == n,
                    is_permutation(perm@, n as nat),
                    i < n,
                    forall|k: int| 0 <= k < n ==> target[#[trigger] perm@[k] as int] == self@[k],
                    forall|k: int| 0 <= k < i ==> #[trigger] perm@[k] == k,
                decreases n - fixed_count(perm@, n as nat),
            {
                let j = perm[i];
                let ghost prev = perm@;
                let ghost rows_before = self@;
                assert(j > i) by {
                    if j < i {
                        assert(prev[j as int] == j);
                    }
                }
                self.swap_rows(i, j);
                swap_at(&mut perm, i, j);
                proof {
                    let next = perm@;
                    assert(next[j as int] == j);
                    assert forall|k: int| 0 <= k < n implies target[#[trigger] next[k] as int]
                        == self@[k] by {
                        if k == i {
                            assert(next[k] == prev[j as int]);
                        } else if k == j {
                            assert(self@[k] == rows_before[i as int]);
                        } else {
                            assert(next[k] == prev[k]);
                        }
                    }
                    lemma_swap_permutation(prev, n as nat, i as int, j as int);
                    assert forall|k: int| 0 <= k < n && prev[k] == k implies next[k] == k by {
                        if k == j {
                        } else if k == i {
                        } else {
                            assert(next[k] == prev[k]);
                        }
                    }
                    lemma_fixed_count_grows(prev, next, n as nat, j as int);
                    lemma_fixed_count_bound(next, n as nat);
                }
            }
            i += 1;
        }
        assert(self@ =~= target) by {
            assert forall|k: int| 0 <= k < n implies self@[k] == target[k] by {
                assert(perm@[k] == k);
            }
        }
    }
    /// Reserves room for at least `additional` more records in every buffer.
    pub fn reserve(&mut self, additional: usize)
        requires
            old(self).wf(),
        ensures
            final(self).wf(),
            final(self)@ == old(self)@,
    {
        self.f0.reserve(additional);
        self.f1.reserve(additional);
        self.f2.reserve(additional);
    }

    /// Reserves room for exactly `additional` more records in every buffer.
    pub fn reserve_exact(&mut self, additional: usize)
        requires
            old(self).wf(),
        ensures
            final(self).wf(),
            final(self)@ == old(self)@,
    {
        reserve_exact_in(&mut self.f0, additional);
        reserve_exact_in(&mut self.f1, additional);
        reserve_exact_in(&mut self.f2, additional);
    }

    /// Shrinks every buffer's allocation as far as it goes.
    pub fn shrink_to_fit(&mut self)
        requires
            old(self).wf(),
        ensures
            final(self).wf(),
            final(self)@ == old(self)@,
    {
        shrink_in(&mut self.f0);
        shrink_in(&mut self.f1);
        shrink_in(&mut self.f2);
    }

    /// Keeps the first `len` records and drops the rest; longer lengths change nothing.
    pub fn truncate(&mut self, len: usize)
        requires
            old(self).wf(),
        ensures
            final(self).wf(),
            len <= old(self)@.len() ==> final(self)@ == old(self)@.subrange(0, len as int),
            len > old(self)@.len() ==> final(self)@ == old(self)@,
    {
        let n = self.f0.len();
        self.f0.truncate(len);
        self.f1.truncate(len);
        self.f2.truncate(len);
        if len <= n {
            assert(self@ =~= old(self)@.subrange(0, len as int));
        } else {
            assert(self@ =~= old(self)@);
        }
    }

    /// Drops every record.
    pub fn clear(&mut self)
        requires
            old(self).wf(),
        ensures
            final(self).wf(),
            final(self)@ == Seq::<(A, B, C)>::empty(),
    {
        self.f0.clear();
        self.f1.clear();
        self.f2.clear();
        assert(self@ =~= Seq::<(A, B, C)>::empty());
    }

    /// Moves every record of `other` onto the end of `self`, leaving `other` empty.
    pub fn append(&mut self, other: &mut Self)
        requires
            old(self).wf(),
            old(other).wf(),
        ensures
            final(self).wf(),
            final(other).wf(),
            final(self)@ == old(self)@ + old(other)@,
            final(other)@ == Seq::<(A, B, C)>::empty(),
    {
        self.f0.append(&mut other.f0);
        self.f1.append(&mut other.f1);
        self.f2.append(&mut other.f2);
        assert(self@ =~= old(self)@ + old(other)@);
        assert(other@ =~= Seq::<(A, B, C)>::empty());
    }

    /// Splits off the records at `at..` into a new container; `self` keeps `..at`.
    pub fn split_off(&mut self, at: usize) -> (r: Self)
        requires
            old(self).wf(),
            at <= old(self)@.len(),
        ensures
            final(self).wf(),
            r.wf(),
            final(self)@ == old(self)@.subrange(0, at as int),
            r@ == old(self)@.subrange(at as int, old(self)@.len() as int),
    {
        let x = self.f0.split_off(at);
        let y = self.f1.split_off(at);
        let z = self.f2.split_off(at);
        let r = Soa3 { f0: x, f1: y, f2: z };
        assert(self@ =~= old(self)@.subrange(0, at as int));
        assert(r@ =~= old(self)@.subrange(at as int, old(self)@.len() as int));
        r
    }

    /// Borrows the record at `index`, or `None` when `index` is past the end.
    pub fn get(&self, index: usize) -> (r: Option<RowRef<'_, A, B, C>>)
        requires
            self.wf(),
        ensures
            index < self@.len() ==> r.is_some() && r.unwrap()@ == self@[index as int],
            index >= self@.len() ==> r.is_none(),
    {
        if index >= self.f0.len() {
            return None;
        }
        Some(self.index(index))
    }

    /// Borrows the record at `index`, which must be in range.
    pub fn index(&self, index: usize) -> (r: RowRef<'_, A, B, C>)
        requires
            self.wf(),
            index < self@.len(),
        ensures
            r@ == self@[index as int],
    {
        RowRef(&self.f0[index], &self.f1[index], &self.f2[index])
    }

    /// Borrows the first record, if any.
    pub fn first(&self) -> (r: Option<RowRef<'_, A, B, C>>)
        requires
            self.wf(),
        ensures
            self@.len() > 0 ==> r.is_some() && r.unwrap()@ == self@[0],
            self@.len() == 0 ==> r.is_none(),
    {
        self.get(0)
    }

    /// Borrows the last record, if any.
    pub fn last(&self) -> (r: Option<RowRef<'_, A, B, C>>)
        requires
            self.wf(),
        ensures
            self@.len() > 0 ==> r.is_some() && r.unwrap()@ == self@.last(),
            self@.len() == 0 ==> r.is_none(),
    {
        self.get(self.len().saturating_sub(1))
    }

    /// Borrows every buffer over the whole container.
    pub fn as_slice(&self) -> (r: FieldSlices<'_, A, B, C>)
        requires
            self.wf(),
        ensures
            r.aligned(),
            r.rows() == self@,
    {
        let r = FieldSlices(self.f0.as_slice(), self.f1.as_slice(), self.f2.as_slice());
        assert(r.rows() =~= self@);
        r
    }

    /// Borrows every buffer over the records `start..end`, with the endpoints given
    /// as bounds (see [`bounds_to_range`]).
    pub fn slice(&self, start: Bound, end: Bound) -> (r: FieldSlices<'_, A, B, C>)
        requires
            self.wf(),
            range_in_bounds(start, end, self@.len()),
        ensures
            r.aligned(),
            r.rows() == self@.subrange(
                start_of(start),
                end_of(end, self@.len()),
            ),
    {
        let (lo, hi) = bounds_to_range(start, end, self.len());
        let r = FieldSlices(
            slice_range(&self.f0, lo, hi),
            slice_range(&self.f1, lo, hi),
            slice_range(&self.f2, lo, hi),
        );
        assert(r.rows() =~= self@.subrange(lo as int, hi as int));
        r
    }
    /// Mutably borrows the record at `index`, which must be in range.
    pub fn index_mut(&mut self, index: usize) -> (r: RowRefMut<'_, A, B, C>)
        requires
            old(self).wf(),
            index < old(self)@.len(),
        ensures
            (*r.0, *r.1, *r.2) == old(self)@[index as int],
            final(self).wf(),
            final(self)@ == old(self)@.update(index as int, (*final(r.0), *final(r.1), *final(r.2))),
    {
        RowRefMut(&mut self.f0[index], &mut self.f1[index], &mut self.f2[index])
    }
    /// Mutably borrows the record at `index`, or `None` when `index` is past the end.
    pub fn get_mut(&mut self, index: usize) -> (r: Option<RowRefMut<'_, A, B, C>>)
        requires
            old(self).wf(),
        ensures
            final(self).wf(),
            index >= old(self)@.len() ==> r.is_none() && final(self)@ == old(self)@,
            index < old(self)@.len() ==> r.is_some() && (*r.unwrap().0, *r.unwrap().1, *r.unwrap().2)
                == old(self)@[index as int] && final(self)@ == old(self)@.update(
                index as int,
                (*final(r.unwrap().0), *final(r.unwrap().1), *final(r.unwrap().2)),
            ),
    {
        if index >= self.f0.len() {
            return None;
        }
        Some(self.index_mut(index))
    }
    /// Mutably borrows the first record, if any.
    pub fn first_mut(&mut self) -> (r: Option<RowRefMut<'_, A, B, C>>)
        requires
            old(self).wf(),
        ensures
            final(self).wf(),
            old(self)@.len() == 0 ==> r.is_none() && final(self)@ == old(self)@,
            old(self)@.len() > 0 ==> r.is_some() && (*r.unwrap().0, *r.unwrap().1, *r.unwrap().2)
                == old(self)@[0] && final(self)@ == old(self)@.update(
                0,
                (*final(r.unwrap().0), *final(r.unwrap().1), *final(r.unwrap().2)),
            ),
    {
        self.get_mut(0)
    }

    /// Mutably borrows the last record, if any.
    pub fn last_mut(&mut self) -> (r: Option<RowRefMut<'_, A, B, C>>)
        requires
            old(self).wf(),
        ensures
            final(self).wf(),
            old(self)@.len() == 0 ==> r.is_none() && final(self)@ == old(self)@,
            old(self)@.len() > 0 ==> r.is_some() && (*r.unwrap().0, *r.unwrap().1, *r.unwrap().2)
                == old(self)@.last() && final(self)@ == old(self)@.update(
                old(self)@.len() - 1,
                (*final(r.unwrap().0), *final(r.unwrap().1), *final(r.unwrap().2)),
            ),
    {
        let i = self.len().saturating_sub(1);
        self.get_mut(i)
    }

    /// Mutably borrows every buffer over the records `start..end`, with the
    /// endpoints given as bounds (see [`bounds_to_range`]).
    pub fn slice_mut(&mut self, start: Bound, end: Bound) -> (r: FieldSlicesMut<'_, A, B, C>)
        requires
            old(self).wf(),
            range_in_bounds(start, end, old(self)@.len()),
        ensures
            zip_rows(r.0@, r.1@, r.2@) == old(self)@.subrange(
                start_of(start),
                end_of(end, old(self)@.len()),
            ),
            r.0@.len() == r.1@.len() && r.1@.len() == r.2@.len(),
            final(self).wf(),
            final(self)@ == old(self)@.subrange(0, start_of(start)) + zip_rows(
                final(r.0)@,
                final(r.1)@,
                final(r.2)@,
            ) + old(self)@.subrange(end_of(end, old(self)@.len()), old(self)@.len() as int),
    {
        let (lo, hi) = bounds_to_range(start, end, self.len());
        let r = FieldSlicesMut(
            slice_range_mut(&mut self.f0, lo, hi),
            slice_range_mut(&mut self.f1, lo, hi),
            slice_range_mut(&mut self.f2, lo, hi),
        );
        assert(zip_rows(r.0@, r.1@, r.2@) =~= old(self)@.subrange(lo as int, hi as int));
        r
    }
    /// Mutably borrows every buffer over the whole container.
    pub fn as_mut_slice(&mut self) -> (r: FieldSlicesMut<'_, A, B, C>)
        requires
            old(self).wf(),
        ensures
            zip_rows(r.0@, r.1@, r.2@) == old(self)@,
            r.0@.len() == r.1@.len() && r.1@.len() == r.2@.len(),
            final(self).wf(),
            final(self)@ == zip_rows(final(r.0)@, final(r.1)@, final(r.2)@),
    {
        let n = self.len();
        let r = FieldSlicesMut(
            slice_range_mut(&mut self.f0, 0, n),
            slice_range_mut(&mut self.f1, 0, n),
            slice_range_mut(&mut self.f2, 0, n),
        );
        assert(zip_rows(r.0@, r.1@, r.2@) =~= old(self)@);
        proof {
            assert(old(self).f0@.subrange(0, 0) + final(r.0)@ + old(self).f0@.subrange(n as int, n as int) =~= final(r.0)@);
            assert(old(self).f1@.subrange(0, 0) + final(r.1)@ + old(self).f1@.subrange(n as int, n as int) =~= final(r.1)@);
            assert(old(self).f2@.subrange(0, 0) + final(r.2)@ + old(self).f2@.subrange(n as int, n as int) =~= final(r.2)@);
        }
        r
    }

    /// Borrows every record in index order.
    pub fn iter(&self) -> (r: Vec<RowRef<'_, A, B, C>>)
        requires
            self.wf(),
        ensures
            r@.len() == self@.len(),
            forall|i: int| 0 <= i < r@.len() ==> #[trigger] r@[i]@ == self@[i],
    {
        let n = self.len();
        let mut r: Vec<RowRef<'_, A, B, C>> = Vec::with_capacity(n);
        let mut i: usize = 0;
        while i < n
            invariant
                self.wf(),
                n == self@.len(),
                i <= n,
                r@.len() == i,
                forall|k: int| 0 <= k < i ==> #[trigger] r@[k]@ == self@[k],
            decreases n - i,
        {
            r.push(self.index(i));
            i += 1;
        }
        r
    }
    /// Reorders the records by `keys` (one key per record, in index order):
    /// ascending keys, records with equal keys in their earlier order.
    pub fn sort_by_keys(&mut self, keys: &[i128])
        requires
            old(self).wf(),
            keys@.len() == old(self)@.len(),
        ensures
            final(self).wf(),
            exists|p: Seq<usize>|
                sorts_stably(keys@, p) && final(self)@ == permute(old(self)@, p),
    {
        let p = stable_order(keys);
        self.apply_index(p.as_slice());
    }

    /// Computes the key of every record, in index order.
    fn keys_by<'s, F>(&'s self, key: &F) -> (r: Vec<i128>)
        where
            F: Fn(RowRef<'_, A, B, C>) -> i128,
        requires
            self.wf(),
            forall|x: RowRef<'s, A, B, C>| call_requires(*key, (x,)),
        ensures
            r@.len() == self@.len(),
            forall|i: int|
                0 <= i < self@.len() ==> key_gives::<'s, A, B, C, F>(*key, self@[i], #[trigger] r@[i]),
    {
        let n = self.len();
        let mut r: Vec<i128> = Vec::with_capacity(n);
        let mut i: usize = 0;
        while i < n
            invariant
                self.wf(),
                n == self@.len(),
                i <= n,
                r@.len() == i,
                forall|x: RowRef<'s, A, B, C>| call_requires(*key, (x,)),
                forall|k: int|
                    0 <= k < i ==> key_gives::<'s, A, B, C, F>(*key, self@[k], #[trigger] r@[k]),
            decreases n - i,
        {
            let x = self.index(i);
            let k = key(x);
            assert(key_gives::<'s, A, B, C, F>(*key, self@[i as int], k));
            r.push(k);
            i += 1;
        }
        r
    }
    /// Reorders the records by the key that `key` computes from each of them:
    /// ascending keys, records with equal keys in their earlier order. `key` is
    /// called once per record, on a view of it, before anything moves.
    pub fn sort_by_key<'s, F>(&'s mut self, key: F)
        where
            F: Fn(RowRef<'_, A, B, C>) -> i128,
        requires
            old(self).wf(),
            forall|x: RowRef<'s, A, B, C>| call_requires(key, (x,)),
        ensures
            final(self).wf(),
            exists|keys: Seq<i128>, p: Seq<usize>|
                {
                    &&& keys.len() == old(self)@.len()
                    &&& forall|i: int|
                        0 <= i < keys.len() ==> key_gives::<'s, A, B, C, F>(
                            key,
                            old(self)@[i],
                            #[trigger] keys[i],
                        )
                    &&& sorts_stably(keys, p)
                    &&& final(self)@ == permute(old(self)@, p)
                },
    {
        let keys = self.keys_by(&key);
        self.sort_by_keys(keys.as_slice());
    }
    /// Reorders the records by the comparison `cmp`, stably: records that `cmp`
    /// ties keep their earlier order. `cmp` is called on views of the records
    /// while they stay in place; they move once the order is settled.
    pub fn sort_by<'s, F>(&'s mut self, cmp: F)
        where
            F: Fn(RowRef<'_, A, B, C>, RowRef<'_, A, B, C>) -> Ordering,
        requires
            old(self).wf(),
            forall|x: RowRef<'s, A, B, C>, y: RowRef<'s, A, B, C>| call_requires(cmp, (x, y)),
            consistent_comparator::<'s, A, B, C, F>(cmp),
        ensures
            final(self).wf(),
            exists|p: Seq<usize>|
                {
                    &&& is_permutation(p, old(self)@.len())
                    &&& final(self)@ == permute(old(self)@, p)
                    &&& forall|j: int|
                        0 <= j < p.len() - 1 ==> cmp_in_order::<'s, A, B, C, F>(
                            cmp,
                            old(self)@,
                            #[trigger] p[j],
                            p[j + 1],
                        )
                },
    {
        let p = self.order_by(&cmp);
        self.apply_index(p.as_slice());
    }

    /// The order in which the records stand once sorted stably by `cmp`, as a
    /// new-to-old mapping.
    fn order_by<'s, F>(&'s self, cmp: &F) -> (p: Vec<usize>)
        where
            F: Fn(RowRef<'_, A, B, C>, RowRef<'_, A, B, C>) -> Ordering,
        requires
            self.wf(),
            forall|x: RowRef<'s, A, B, C>, y: RowRef<'s, A, B, C>| call_requires(*cmp, (x, y)),
            consistent_comparator::<'s, A, B, C, F>(*cmp),
        ensures
            is_permutation(p@, self@.len()),
            forall|j: int|
                0 <= j < p@.len() - 1 ==> cmp_in_order::<'s, A, B, C, F>(
                    *cmp,
                    self@,
                    #[trigger] p@[j],
                    p@[j + 1],
                ),
    {
        let n = self.len();
        let ghost rows = self@;
        let mut p: Vec<usize> = Vec::with_capacity(n);
        let mut m: usize = 0;
        while m < n
            invariant
                m <= n,
                p@.len() == m,
                forall|k: int| 0 <= k < m ==> #[trigger] p@[k] == k,
            decreases n - m,
        {
            p.push(m);
            m += 1;
        }
        let mut i: usize = 0;
        while i < n
            invariant
                self.wf(),
                rows == self@,
                n == rows.len(),
                i <= n,
                forall|x: RowRef<'s, A, B, C>, y: RowRef<'s, A, B, C>| call_requires(*cmp, (x, y)),
                consistent_comparator::<'s, A, B, C, F>(*cmp),
                is_permutation(p@, n as nat),
                forall|k: int| i <= k < n ==> #[trigger] p@[k] == k,
                forall|k: int| 0 <= k < i ==> #[trigger] p@[k] < i,
                forall|j: int|
                    0 <= j < i - 1 ==> cmp_in_order::<'s, A, B, C, F>(
                        *cmp,
                        rows,
                        #[trigger] p@[j],
                        p@[j + 1],
                    ),
            decreases n - i,
        {
            let mut k: usize = i;
            let mut settled = false;
            while k > 0 && !settled
                invariant
                    self.wf(),
                    rows == self@,
                    n == rows.len(),
                    i < n,
                    k <= i,
                    forall|x: RowRef<'s, A, B, C>, y: RowRef<'s, A, B, C>| call_requires(*cmp, (x, y)),
                    consistent_comparator::<'s, A, B, C, F>(*cmp),
                    is_permutation(p@, n as nat),
                    forall|m: int| i < m < n ==> #[trigger] p@[m] == m,
                    p@[k as int] == i,
                    forall|m: int| 0 <= m <= i && m != k ==> #[trigger] p@[m] < i,
                    forall|j: int|
                        0 <= j < k - 1 ==> cmp_in_order::<'s, A, B, C, F>(
                            *cmp,
                            rows,
                            #[trigger] p@[j],
                            p@[j + 1],
                        ),
                    forall|j: int|
                        k < j < i ==> cmp_in_order::<'s, A, B, C, F>(
                            *cmp,
                            rows,
                            #[trigger] p@[j],
                            p@[j + 1],
                        ),
                    k < i ==> cmp_in_order::<'s, A, B, C, F>(*cmp, rows, p@[k as int], p@[k + 1]),
                    0 < k < i ==> cmp_in_order::<'s, A, B, C, F>(
                        *cmp,
                        rows,
                        p@[k - 1],
                        p@[k + 1],
                    ),
                    settled ==> 0 < k && cmp_in_order::<'s, A, B, C, F>(
                        *cmp,
                        rows,
                        p@[k - 1],
                        p@[k as int],
                    ),
                decreases k + if settled { 0int } else { 1int },
            {
                let a = p[k - 1];
                let b = p[k];
                let o = cmp(self.index(a), self.index(b));
                assert(cmp_gives::<'s, A, B, C, F>(*cmp, rows[a as int], rows[b as int], o));
                if matches!(o, Ordering::Greater) {
                    let ghost prev = p@;
                    proof {
                        lemma_swap_permutation(prev, n as nat, k - 1, k as int);
                        assert forall|o2: Ordering|
                            #[trigger] cmp_gives::<'s, A, B, C, F>(
                                *cmp,
                                rows[b as int],
                                rows[a as int],
                                o2,
                            ) implies o2 == Ordering::Less || (o2 == Ordering::Equal && b < a) by {
                            assert(opposite(o2, o));
                        }
                    }
                    swap_at(&mut p, k - 1, k);
                    k -= 1;
                    assert forall|m: int| 0 <= m <= i && m != k implies #[trigger] p@[m] < i by {
                        if m == k + 1 {
                            assert(p@[m] == prev[k as int]);
                        } else {
                            assert(p@[m] == prev[m]);
                        }
                    }
                    assert forall|j: int| k < j < i implies cmp_in_order::<'s, A, B, C, F>(
                        *cmp,
                        rows,
                        #[trigger] p@[j],
                        p@[j + 1],
                    ) by {
                        if j == k + 1 {
                            assert(p@[j] == prev[k as int] && p@[j + 1] == prev[k + 2]);
                        } else {
                            assert(p@[j] == prev[j] && p@[j + 1] == prev[j + 1]);
                        }
                    }
                    assert forall|j: int| 0 <= j < k - 1 implies cmp_in_order::<'s, A, B, C, F>(
                        *cmp,
                        rows,
                        #[trigger] p@[j],
                        p@[j + 1],
                    ) by {
                        assert(p@[j] == prev[j] && p@[j + 1] == prev[j + 1]);
                    }
                    if k > 0 {
                        assert(p@[k - 1] == prev[k - 1] && p@[k + 1] == prev[k as int]);
                    }
                } else {
                    proof {
                        assert forall|o2: Ordering|
                            #[trigger] cmp_gives::<'s, A, B, C, F>(
                                *cmp,
                                rows[a as int],
                                rows[b as int],
                                o2,
                            ) implies o2 == Ordering::Less || (o2 == Ordering::Equal && a < b) by {
                            assert(o2 == o);
                        }
                    }
                    settled = true;
                }
            }
            assert forall|j: int| 0 <= j < i implies cmp_in_order::<'s, A, B, C, F>(
                *cmp,
                rows,
                #[trigger] p@[j],
                p@[j + 1],
            ) by {
                if j == k - 1 {
                } else if j == k {
                }
            }
            i += 1;
        }
        p
    }
}

} // verus!
