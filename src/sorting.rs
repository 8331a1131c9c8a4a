//! Stable ordering of positions by integer keys.
use vstd::prelude::*;

use crate::permutation::{is_permutation, lemma_swap_permutation, swap_at};

verus! {

/// Position `a` goes before position `b`: its key is smaller, or the keys tie
/// and `a` comes first.
pub open spec fn key_before(keys: Seq<i128>, a: usize, b: usize) -> bool {
    keys[a as int] < keys[b as int] || (keys[a as int] == keys[b as int] && a < b)
}

/// `p` lists the positions of `keys` in ascending key order, ties in their
/// original order.
pub open spec fn sorts_stably(keys: Seq<i128>, p: Seq<usize>) -> bool {
    &&& is_permutation(p, keys.len())
    &&& forall|a: int, b: int|
        0 <= a < b < p.len() ==> key_before(keys, #[trigger] p[a], #[trigger] p[b])
}

/// The keys never decrease along the sequence.
pub open spec fn keys_ascending(keys: Seq<i128>) -> bool {
    forall|a: int, b: int| 0 <= a <= b < keys.len() ==> keys[a] <= keys[b]
}

/// The stable sorting order of `keys`: position `i` of the result is the
/// position of the `i`-th smallest key, ties in their original order.
pub fn stable_order(keys: &[i128]) -> (p: Vec<usize>)
    ensures
        sorts_stably(keys@, p@),
{
    let n = keys.len();
    let mut p: Vec<usize> = Vec::with_capacity(n);
    let mut m: usize = 0;
    while m < n
        invariant
            m <= n,
            p@.len() == m,
            forall|k: int| 0 <= k < m ==> #[trigger] p@[k] == k,
        decreases n - m,
    {
        p.push(m);
        m += 1;
    }
    let mut i: usize = 0;
    while i < n
        invariant
            n == keys@.len(),
            i <= n,
            is_permutation(p@, n as nat),
            forall|k: int| i <= k < n ==> #[trigger] p@[k] == k,
            forall|k: int| 0 <= k < i ==> #[trigger] p@[k] < i,
            forall|a: int, b: int|
                0 <= a < b < i ==> key_before(keys@, #[trigger] p@[a], #[trigger] p@[b]),
        decreases n - i,
    {
        let mut k: usize = i;
        while k > 0 && keys[p[k - 1]] > keys[p[k]]
            invariant
                n == keys@.len(),
                i < n,
                k <= i,
                is_permutation(p@, n as nat),
                forall|m: int| i < m < n ==> #[trigger] p@[m] == m,
                p@[k as int] == i,
                forall|m: int| 0 <= m <= i && m != k ==> #[trigger] p@[m] < i,
                forall|a: int, b: int|
                    0 <= a < b <= i && a != k && b != k ==> key_before(
                        keys@,
                        #[trigger] p@[a],
                        #[trigger] p@[b],
                    ),
                forall|b: int| k < b <= i ==> keys@[#[trigger] p@[b] as int] > keys@[i as int],
            decreases k,
        {
            let ghost prev = p@;
            proof {
                lemma_swap_permutation(prev, n as nat, k - 1, k as int);
            }
            swap_at(&mut p, k - 1, k);
            k -= 1;
            assert forall|a: int, b: int|
                0 <= a < b <= i && a != k && b != k implies key_before(
                keys@,
                #[trigger] p@[a],
                #[trigger] p@[b],
            ) by {
                let a0 = if a == k + 1 { k as int } else { a };
                let b0 = if b == k + 1 { k as int } else { b };
                assert(p@[a] == prev[a0] && p@[b] == prev[b0]);
            }
            assert forall|m: int| 0 <= m <= i && m != k implies #[trigger] p@[m] < i by {
                if m == k + 1 {
                    assert(p@[m] == prev[k as int]);
                } else {
                    assert(p@[m] == prev[m]);
                }
            }
            assert forall|b: int| k < b <= i implies keys@[#[trigger] p@[b] as int] > keys@[i as int] by {
                if b == k + 1 {
                    assert(p@[b] == prev[k as int]);
                } else {
                    assert(p@[b] == prev[b]);
                }
            }
        }
        proof {
            assert forall|a: int, b: int|
                0 <= a < b < i + 1 implies key_before(keys@, #[trigger] p@[a], #[trigger] p@[b]) by {
                if b == k {
                    assert(key_before(keys@, p@[a], p@[k - 1]) || a == k - 1);
                } else if a == k {
                    assert(keys@[p@[b] as int] > keys@[i as int]);
                }
            }
        }
        i += 1;
    }
    p
}

} // verus!
