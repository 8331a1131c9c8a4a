//! Index permutations: what they are, how to check one, and how to invert one.
use vstd::prelude::*;
use vstd::set_lib::{lemma_int_range, lemma_subset_equality, set_int_range};

verus! {

/// `p` maps each position of `0..n` to a distinct position of `0..n`.
pub open spec fn is_permutation(p: Seq<usize>, n: nat) -> bool {
    &&& p.len() == n
    &&& forall|i: int| 0 <= i < n ==> #[trigger] p[i] < n
    &&& forall|i: int, j: int| 0 <= i < n && 0 <= j < n && i != j ==> p[i] != p[j]
}

/// The sequence whose position `i` holds `s[p[i]]` (a new-to-old mapping).
pub open spec fn permute<T>(s: Seq<T>, p: Seq<usize>) -> Seq<T> {
    Seq::new(p.len(), |i: int| s[p[i] as int])
}

/// `q` undoes `p`: `q[p[i]] == i` for every position `i`.
pub open spec fn is_inverse(p: Seq<usize>, q: Seq<usize>) -> bool {
    &&& q.len() == p.len()
    &&& forall|i: int| 0 <= i < p.len() ==> #[trigger] q[p[i] as int] == i
}

/// The identity permutation of `0..n`.
pub open spec fn identity(n: nat) -> Seq<usize> {
    Seq::new(n, |i: int| i as usize)
}

/// Number of positions `k < n` that `p` leaves in place.
pub open spec fn fixed_count(p: Seq<usize>, n: nat) -> nat
    decreases n,
{
    if n == 0 {
        0
    } else {
        fixed_count(p, (n - 1) as nat) + if p[n - 1] == n - 1 {
            1nat
        } else {
            0nat
        }
    }
}

/// Some position of `0..n` is mapped by `p` to `k`.
pub open spec fn reaches(p: Seq<usize>, n: nat, k: int) -> bool {
    exists|t: int| 0 <= t < n && p[t] == k
}

/// A permutation of `0..n` reaches every position of `0..n`.
pub proof fn lemma_permutation_onto(p: Seq<usize>, n: nat)
    requires
        is_permutation(p, n),
    ensures
        forall|k: int| 0 <= k < n ==> #[trigger] reaches(p, n, k),
{
    let s = Seq::new(n, |t: int| p[t] as int);
    assert(s.no_duplicates()) by {
        assert forall|i: int, j: int| 0 <= i < s.len() && 0 <= j < s.len() && i != j implies s[i]
            != s[j] by {
            assert(p[i] != p[j]);
        }
    }
    s.unique_seq_to_set();
    lemma_int_range(0, n as int);
    assert(s.to_set().subset_of(set_int_range(0, n as int))) by {
        assert forall|k: int| s.to_set().contains(k) implies set_int_range(0, n as int).contains(
            k,
        ) by {
            let t = choose|t: int| 0 <= t < s.len() && s[t] == k;
            assert(p[t] < n);
        }
    }
    lemma_subset_equality(s.to_set(), set_int_range(0, n as int));
    assert forall|k: int| 0 <= k < n implies #[trigger] reaches(p, n, k) by {
        assert(set_int_range(0, n as int).contains(k));
        assert(s.to_set().contains(k));
        let t = choose|t: int| 0 <= t < s.len() && s[t] == k;
        assert(p[t] == k);
    }
}

/// `fixed_count` never exceeds the number of positions counted.
pub proof fn lemma_fixed_count_bound(p: Seq<usize>, n: nat)
    ensures
        fixed_count(p, n) <= n,
    decreases n,
{
    if n > 0 {
        lemma_fixed_count_bound(p, (n - 1) as nat);
    }
}

/// Keeping every fixed position and fixing one more position below `n` raises the count.
pub proof fn lemma_fixed_count_grows(p: Seq<usize>, q: Seq<usize>, n: nat, m: int)
    requires
        forall|k: int| 0 <= k < n && p[k] == k ==> q[k] == k,
        0 <= m < n,
        p[m] != m,
        q[m] == m,
    ensures
        fixed_count(q, n) > fixed_count(p, n),
    decreases n,
{
    lemma_fixed_count_mono(p, q, (n - 1) as nat);
    if m < n - 1 {
        lemma_fixed_count_grows(p, q, (n - 1) as nat, m);
    }
}

/// Keeping every fixed position does not lower the count.
pub proof fn lemma_fixed_count_mono(p: Seq<usize>, q: Seq<usize>, n: nat)
    requires
        forall|k: int| 0 <= k < n && p[k] == k ==> q[k] == k,
    ensures
        fixed_count(q, n) >= fixed_count(p, n),
    decreases n,
{
    if n > 0 {
        lemma_fixed_count_mono(p, q, (n - 1) as nat);
    }
}

/// Swapping two entries of a permutation gives a permutation.
pub proof fn lemma_swap_permutation(p: Seq<usize>, n: nat, i: int, j: int)
    requires
        is_permutation(p, n),
        0 <= i < n,
        0 <= j < n,
    ensures
        is_permutation(p.update(i, p[j]).update(j, p[i]), n),
{
    let q = p.update(i, p[j]).update(j, p[i]);
    assert forall|k: int| 0 <= k < n implies #[trigger] q[k] < n by {
        if k != i && k != j {
            assert(q[k] == p[k]);
        }
    }
    assert forall|a: int, b: int| 0 <= a < n && 0 <= b < n && a != b implies q[a] != q[b] by {
        if i == j {
            assert(q[a] == p[a] && q[b] == p[b]);
        } else if a != i && a != j && b != i && b != j {
            assert(p[a] != p[b]);
        } else if a == i && b != j {
            assert(p[j] != p[b]);
        } else if a == j && b != i {
            assert(p[i] != p[b]);
        } else if b == i && a != j {
            assert(p[j] != p[a]);
        } else if b == j && a != i {
            assert(p[i] != p[a]);
        } else {
            assert(p[i] != p[j]);
        }
    }
}

/// Whether `indices` is a permutation of `0..n`.
pub fn check_permutation(indices: &[usize], n: usize) -> (r: bool)
    ensures
        r == is_permutation(indices@, n as nat),
{
    if indices.len() != n {
        return false;
    }
    let mut seen: Vec<bool> = vec![false; n];
    let mut t: usize = 0;
    while t < n
        invariant
            indices@.len() == n,
            seen@.len() == n,
            t <= n,
            forall|u: int| 0 <= u < t ==> #[trigger] indices@[u] < n,
            forall|u: int, v: int| 0 <= u < t && 0 <= v < t && u != v ==> indices@[u] != indices@[v],
            forall|k: int|
                0 <= k < n ==> (#[trigger] seen@[k] <==> exists|u: int|
                    0 <= u < t && indices@[u] == k),
        decreases n - t,
    {
        let idx = indices[t];
        if idx >= n {
            return false;
        }
        if seen[idx] {
            proof {
                let u = choose|u: int| 0 <= u < t && indices@[u] == idx;
                assert(indices@[u] == indices@[t as int]);
            }
            return false;
        }
        seen.set(idx, true);
        proof {
            assert forall|k: int| 0 <= k < n implies (#[trigger] seen@[k] <==> exists|u: int|
                0 <= u < t + 1 && indices@[u] == k) by {
                if k == idx {
                    assert(indices@[t as int] == k);
                } else if seen@[k] {
                    let u = choose|u: int| 0 <= u < t && indices@[u] == k;
                    assert(0 <= u < t + 1 && indices@[u] == k);
                }
            }
        }
        t += 1;
    }
    true
}

/// The inverse of a permutation: position `indices[i]` of the result holds `i`.
pub fn inverse(indices: &[usize]) -> (q: Vec<usize>)
    requires
        is_permutation(indices@, indices@.len()),
    ensures
        is_inverse(indices@, q@),
        is_inverse(q@, indices@),
        is_permutation(q@, indices@.len()),
{
    let n = indices.len();
    let mut q: Vec<usize> = vec![0usize; n];
    let mut t: usize = 0;
    while t < n
        invariant
            n == indices@.len(),
            is_permutation(indices@, n as nat),
            q@.len() == n,
            t <= n,
            forall|u: int| 0 <= u < t ==> q@[#[trigger] indices@[u] as int] == u,
        decreases n - t,
    {
        let k = indices[t];
        q.set(k, t);
        proof {
            assert forall|u: int| 0 <= u < t + 1 implies q@[#[trigger] indices@[u] as int] == u by {
                if u < t {
                    assert(indices@[u] != indices@[t as int]);
                }
            }
        }
        t += 1;
    }
    proof {
        lemma_permutation_onto(indices@, n as nat);
        assert forall|k: int| 0 <= k < n implies #[trigger] q@[k] < n && indices@[q@[k] as int]
            == k by {
            assert(reaches(indices@, n as nat, k));
            let u = choose|u: int| 0 <= u < n && indices@[u] == k;
            assert(q@[indices@[u] as int] == u);
        }
        assert forall|i: int, j: int| 0 <= i < n && 0 <= j < n && i != j implies q@[i] != q@[j] by {
            assert(q@[i] < n && indices@[q@[i] as int] == i);
            assert(q@[j] < n && indices@[q@[j] as int] == j);
        }
    }
    q
}

/// Swaps the elements at `i` and `j` of `v`.
pub fn swap_at<T>(v: &mut Vec<T>, i: usize, j: usize)
    requires
        i < old(v).len(),
        j < old(v).len(),
    ensures
        final(v)@ == old(v)@.update(i as int, old(v)@[j as int]).update(j as int, old(v)@[i as int]),
{
    if i == j {
        assert(old(v)@.update(i as int, old(v)@[j as int]).update(j as int, old(v)@[i as int])
            =~= old(v)@);
        return;
    }
    let lo = if i < j { i } else { j };
    let hi = if i < j { j } else { i };
    let s = v.as_mut_slice();
    let (left, right) = s.split_at_mut(hi);
    let (_, mid) = left.split_at_mut(lo);
    let a = mid.first_mut().unwrap();
    let b = right.first_mut().unwrap();
    std::mem::swap(a, b);
}

} // verus!
