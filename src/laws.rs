//! Laws that relate the container's operations, stated over the record
//! sequences that the operations' contracts speak of.
use vstd::prelude::*;

use crate::permutation::{
    identity, is_inverse, is_permutation, lemma_permutation_onto, permute, reaches,
};
use crate::sorting::{key_before, keys_ascending, sorts_stably};

verus! {

/// One structural edit of a container, as its record sequence sees it.
pub enum Edit<T> {
    Push(T),
    Pop,
    Remove(nat),
}

/// The records after `e`, as the contracts of `push`, `pop` and `remove` give them.
pub open spec fn apply_edit<T>(rows: Seq<T>, e: Edit<T>) -> Seq<T> {
    match e {
        Edit::Push(row) => rows.push(row),
        Edit::Pop => if rows.len() > 0 {
            rows.drop_last()
        } else {
            rows
        },
        Edit::Remove(i) => rows.remove(i as int),
    }
}

/// The records after every edit of `edits`, in order.
pub open spec fn replay<T>(rows: Seq<T>, edits: Seq<Edit<T>>) -> Seq<T>
    decreases edits.len(),
{
    if edits.len() == 0 {
        rows
    } else {
        apply_edit(replay(rows, edits.drop_last()), edits.last())
    }
}

/// Every pop and remove of `edits` finds a record to take.
pub open spec fn edits_valid<T>(rows: Seq<T>, edits: Seq<Edit<T>>) -> bool
    decreases edits.len(),
{
    if edits.len() == 0 {
        true
    } else {
        &&& edits_valid(rows, edits.drop_last())
        &&& match edits.last() {
            Edit::Push(_) => true,
            Edit::Pop => replay(rows, edits.drop_last()).len() > 0,
            Edit::Remove(i) => i < replay(rows, edits.drop_last()).len(),
        }
    }
}

/// Number of pushes in `edits`.
pub open spec fn pushes<T>(edits: Seq<Edit<T>>) -> nat
    decreases edits.len(),
{
    if edits.len() == 0 {
        0
    } else {
        pushes(edits.drop_last()) + if edits.last() is Push {
            1nat
        } else {
            0nat
        }
    }
}

/// Number of pops and removes in `edits`.
pub open spec fn removals<T>(edits: Seq<Edit<T>>) -> nat
    decreases edits.len(),
{
    if edits.len() == 0 {
        0
    } else {
        removals(edits.drop_last()) + if edits.last() is Push {
            0nat
        } else {
            1nat
        }
    }
}

/// After any run of pushes, pops and removes that each find a record, the
/// number of records is the starting number plus the pushes minus the pops and
/// removes.
pub proof fn law_length_counts_edits<T>(rows: Seq<T>, edits: Seq<Edit<T>>)
    requires
        edits_valid(rows, edits),
    ensures
        replay(rows, edits).len() == rows.len() + pushes(edits) - removals(edits),
    decreases edits.len(),
{
    if edits.len() > 0 {
        law_length_counts_edits(rows, edits.drop_last());
    }
}

/// Pushing a record and popping at once gives back that record and the
/// records as they were.
pub proof fn law_push_then_pop<T>(rows: Seq<T>, row: T)
    ensures
        rows.push(row).len() == rows.len() + 1,
        rows.push(row).last() == row,
        rows.push(row).drop_last() == rows,
{
    assert(rows.push(row).drop_last() =~= rows);
}

/// Removing by swapping with the last record: one record fewer, the last record
/// now stands at `i` (unless `i` was the last position), and every other record
/// keeps its place and value.
pub proof fn law_swap_remove<T>(rows: Seq<T>, i: int)
    requires
        0 <= i < rows.len(),
    ensures
        rows.update(i, rows.last()).drop_last().len() == rows.len() - 1,
        i != rows.len() - 1 ==> rows.update(i, rows.last()).drop_last()[i] == rows.last(),
        forall|k: int|
            0 <= k < rows.len() - 1 && k != i ==> #[trigger] rows.update(
                i,
                rows.last(),
            ).drop_last()[k] == rows[k],
{
}

/// Inserting a record at `i` and removing at `i` gives back that record and the
/// records as they were.
pub proof fn law_insert_then_remove<T>(rows: Seq<T>, i: int, row: T)
    requires
        0 <= i <= rows.len(),
    ensures
        rows.insert(i, row)[i] == row,
        rows.insert(i, row).remove(i) == rows,
{
    assert(rows.insert(i, row).remove(i) =~= rows);
}

/// Reordering by the identity mapping changes nothing.
pub proof fn law_identity_reorder<T>(rows: Seq<T>)
    requires
        rows.len() <= usize::MAX,
    ensures
        is_permutation(identity(rows.len()), rows.len()),
        permute(rows, identity(rows.len())) == rows,
{
    assert(permute(rows, identity(rows.len())) =~= rows);
}

/// Reordering by a permutation `p` and then by its inverse `q` restores the
/// records.
pub proof fn law_reorder_then_inverse<T>(rows: Seq<T>, p: Seq<usize>, q: Seq<usize>)
    requires
        is_permutation(p, rows.len()),
        is_inverse(p, q),
    ensures
        is_permutation(q, rows.len()),
        permute(permute(rows, p), q) == rows,
{
    let n = rows.len();
    lemma_permutation_onto(p, n);
    assert forall|k: int| 0 <= k < n implies #[trigger] q[k] < n && p[q[k] as int] == k by {
        assert(reaches(p, n, k));
        let t = choose|t: int| 0 <= t < n && p[t] == k;
        assert(q[p[t] as int] == t);
    }
    assert forall|a: int, b: int| 0 <= a < n && 0 <= b < n && a != b implies q[a] != q[b] by {
        assert(p[q[a] as int] == a);
        assert(p[q[b] as int] == b);
    }
    assert(permute(permute(rows, p), q) =~= rows);
}

/// A permutation that lists ascending keys stably, where the keys already
/// ascend, lists every position in place.
pub proof fn lemma_sorted_order_is_identity(keys: Seq<i128>, q: Seq<usize>)
    requires
        keys_ascending(keys),
        sorts_stably(keys, q),
    ensures
        q == identity(keys.len()),
{
    let n = keys.len();
    assert forall|a: int, b: int| 0 <= a < b < n implies q[a] < q[b] by {
        assert(key_before(keys, q[a], q[b]));
        if q[a] > q[b] {
            assert(keys[q[b] as int] <= keys[q[a] as int]);
        }
    }
    lemma_increasing_from_below(q, n, n as int);
    lemma_increasing_from_above(q, n, 0);
    assert(q =~= identity(n));
}

proof fn lemma_increasing_from_below(q: Seq<usize>, n: nat, j: int)
    requires
        q.len() == n,
        forall|a: int, b: int| 0 <= a < b < n ==> q[a] < q[b],
        0 <= j <= n,
    ensures
        forall|k: int| 0 <= k < j ==> q[k] >= k,
    decreases j,
{
    if j > 0 {
        lemma_increasing_from_below(q, n, j - 1);
        if j >= 2 {
            assert(q[j - 2] < q[j - 1]);
        }
    }
}

proof fn lemma_increasing_from_above(q: Seq<usize>, n: nat, j: int)
    requires
        is_permutation(q, n),
        forall|a: int, b: int| 0 <= a < b < n ==> q[a] < q[b],
        0 <= j <= n,
    ensures
        forall|k: int| j <= k < n ==> q[k] <= k,
    decreases n - j,
{
    if j < n {
        lemma_increasing_from_above(q, n, j + 1);
        if j + 1 < n {
            assert(q[j] < q[j + 1]);
        } else {
            assert(q[j] < n);
        }
    }
}

/// Sorting stably by keys is idempotent: once the records stand in the order
/// `p` gives, sorting them again by their (reordered) keys leaves them as they are.
pub proof fn law_sort_idempotent<T>(rows: Seq<T>, keys: Seq<i128>, p: Seq<usize>, q: Seq<usize>)
    requires
        rows.len() <= usize::MAX,
        keys.len() == rows.len(),
        sorts_stably(keys, p),
        sorts_stably(permute(keys, p), q),
    ensures
        permute(permute(rows, p), q) == permute(rows, p),
{
    let sorted = permute(keys, p);
    assert forall|a: int, b: int| 0 <= a <= b < sorted.len() implies sorted[a] <= sorted[b] by {
        if a < b {
            assert(key_before(keys, p[a], p[b]));
        }
    }
    lemma_sorted_order_is_identity(sorted, q);
    assert forall|k: int| 0 <= k < q.len() implies #[trigger] q[k] == k by {
        assert(q[k] == identity(sorted.len())[k]);
    }
    assert(permute(permute(rows, p), q) =~= permute(rows, p));
}

} // verus!
