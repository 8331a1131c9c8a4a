use dods::permutation::{check_permutation, inverse};
use dods::range::{bounds_to_range, Bound};
use dods::soa::Soa3;
use dods::sorting::stable_order;

type Rows = Soa3<u64, u8, i32>;

fn filled(rows: &[(u64, u8, i32)]) -> Rows {
    let mut s = Rows::new();
    for r in rows {
        s.push(*r);
    }
    s
}

fn contents(s: &Rows) -> Vec<(u64, u8, i32)> {
    s.iter().into_iter().map(|r| (*r.0, *r.1, *r.2)).collect()
}

#[test]
fn length_follows_pushes_and_removals() {
    let mut s = Rows::new();
    assert_eq!(s.len(), 0);
    s.push((1, 1, 1));
    s.push((2, 2, 2));
    s.push((3, 3, 3));
    assert_eq!(s.len(), 3);
    s.pop();
    assert_eq!(s.len(), 2);
    s.remove(0);
    assert_eq!(s.len(), 1);
    s.swap_remove(0);
    assert_eq!(s.len(), 0);
    let fields = s.as_slice();
    assert_eq!((fields.0.len(), fields.1.len(), fields.2.len()), (0, 0, 0));
}

#[test]
fn push_then_pop_returns_the_row() {
    let mut s = filled(&[(1, 2, 3), (4, 5, 6)]);
    s.push((7, 8, -9));
    assert_eq!(s.pop(), Some((7, 8, -9)));
    assert_eq!(contents(&s), vec![(1, 2, 3), (4, 5, 6)]);
}

#[test]
fn swap_remove_moves_last_into_place() {
    let mut s = filled(&[(10, 0, 0), (11, 1, 1), (12, 2, 2), (13, 3, 3)]);
    assert_eq!(s.swap_remove(1), (11, 1, 1));
    assert_eq!(contents(&s), vec![(10, 0, 0), (13, 3, 3), (12, 2, 2)]);
    assert_eq!(s.swap_remove(2), (12, 2, 2));
    assert_eq!(contents(&s), vec![(10, 0, 0), (13, 3, 3)]);
}

#[test]
fn insert_then_remove_round_trips() {
    let mut s = filled(&[(1, 1, 1), (2, 2, 2)]);
    s.insert(1, (9, 9, 9));
    assert_eq!(contents(&s), vec![(1, 1, 1), (9, 9, 9), (2, 2, 2)]);
    assert_eq!(s.remove(1), (9, 9, 9));
    assert_eq!(contents(&s), vec![(1, 1, 1), (2, 2, 2)]);
    s.insert(2, (5, 5, 5));
    assert_eq!(s.remove(2), (5, 5, 5));
    assert_eq!(contents(&s), vec![(1, 1, 1), (2, 2, 2)]);
}

#[test]
fn identity_reorder_changes_nothing() {
    let mut s = filled(&[(3, 0, 0), (1, 1, 1), (2, 2, 2)]);
    s.apply_index(&[0, 1, 2]);
    assert_eq!(contents(&s), vec![(3, 0, 0), (1, 1, 1), (2, 2, 2)]);
}

#[test]
fn reorder_then_inverse_restores() {
    let original = vec![(1, 0, 0), (2, 1, 1), (3, 2, 2), (4, 3, 3), (5, 4, 4)];
    let mut s = filled(&original);
    let p = vec![3usize, 0, 4, 1, 2];
    s.apply_index(&p);
    assert_eq!(contents(&s), vec![(4, 3, 3), (1, 0, 0), (5, 4, 4), (2, 1, 1), (3, 2, 2)]);
    let q = inverse(&p);
    assert_eq!(q, vec![1, 3, 4, 0, 2]);
    s.apply_index(&q);
    assert_eq!(contents(&s), original);
}

#[test]
fn apply_index_takes_from_old_positions() {
    let mut s = filled(&[(1, 0, 0), (2, 0, 0), (3, 0, 0)]);
    s.apply_index(&[2, 0, 1]);
    assert_eq!(contents(&s).iter().map(|r| r.0).collect::<Vec<_>>(), vec![3, 1, 2]);
}

#[test]
fn sort_by_timestamp_scenario() {
    let mut s = filled(&[(3, 0, 0), (1, 0, 0), (2, 0, 0)]);
    s.sort_by(|a, b| a.0.cmp(b.0));
    assert_eq!(contents(&s).iter().map(|r| r.0).collect::<Vec<_>>(), vec![1, 2, 3]);
}

#[test]
fn sort_by_is_stable() {
    let mut s = filled(&[(2, 0, 0), (1, 1, 0), (2, 2, 0), (1, 3, 0)]);
    s.sort_by(|a, b| a.0.cmp(b.0));
    assert_eq!(contents(&s), vec![(1, 1, 0), (1, 3, 0), (2, 0, 0), (2, 2, 0)]);
}

#[test]
fn sort_by_key_is_stable_and_idempotent() {
    let mut s = filled(&[(5, 0, 7), (6, 1, -2), (7, 2, 7), (8, 3, 0)]);
    s.sort_by_key(|r| *r.2 as i128);
    let once = contents(&s);
    assert_eq!(once, vec![(6, 1, -2), (8, 3, 0), (5, 0, 7), (7, 2, 7)]);
    s.sort_by_key(|r| *r.2 as i128);
    assert_eq!(contents(&s), once);
}

#[test]
fn sort_by_keys_uses_given_keys() {
    let mut s = filled(&[(1, 0, 0), (2, 0, 0), (3, 0, 0)]);
    s.sort_by_keys(&[30, -10, 20]);
    assert_eq!(contents(&s).iter().map(|r| r.0).collect::<Vec<_>>(), vec![2, 3, 1]);
}

#[test]
fn stable_order_exact() {
    assert_eq!(stable_order(&[5, 3, 5, 1, 3]), vec![3, 1, 4, 0, 2]);
    assert_eq!(stable_order(&[]), Vec::<usize>::new());
    assert_eq!(stable_order(&[i128::MAX, i128::MIN]), vec![1, 0]);
}

#[test]
fn slice_scenarios() {
    let s = filled(&[(0, 0, 0), (1, 1, 1), (2, 2, 2)]);
    let one = s.slice(Bound::Included(1), Bound::Included(1));
    assert_eq!(one.0, [1]);
    let head = s.slice(Bound::Unbounded, Bound::Excluded(2));
    assert_eq!(head.0, [0, 1]);
    let tail = s.slice(Bound::Included(1), Bound::Unbounded);
    assert_eq!(tail.0, [1, 2]);
    let after_first = s.slice(Bound::Excluded(0), Bound::Unbounded);
    assert_eq!(after_first.1, [1, 2]);
    let empty = s.slice(Bound::Included(3), Bound::Unbounded);
    assert_eq!(empty.2.len(), 0);
}

#[test]
fn bounds_normalise() {
    assert_eq!(bounds_to_range(Bound::Included(1), Bound::Included(1), 3), (1, 2));
    assert_eq!(bounds_to_range(Bound::Excluded(0), Bound::Excluded(2), 3), (1, 2));
    assert_eq!(bounds_to_range(Bound::Unbounded, Bound::Unbounded, 7), (0, 7));
}

#[test]
fn get_past_end_is_absent() {
    let mut s = filled(&[(1, 1, 1), (2, 2, 2)]);
    let n = s.len();
    assert!(s.get(n).is_none());
    assert!(s.get(n + 5).is_none());
    assert!(s.get_mut(n).is_none());
    assert!(s.first().is_some());
    let mut e = Rows::new();
    assert_eq!(e.pop(), None);
    assert!(e.first().is_none());
    assert!(e.last().is_none());
    assert!(e.first_mut().is_none());
    assert!(e.last_mut().is_none());
}

#[test]
fn permutation_checks() {
    assert!(check_permutation(&[2, 0, 1], 3));
    assert!(check_permutation(&[], 0));
    assert!(!check_permutation(&[0, 1], 3));
    assert!(!check_permutation(&[0, 0, 1], 3));
    assert!(!check_permutation(&[0, 3, 1], 3));
}

#[test]
fn truncate_clear_append_split() {
    let mut s = filled(&[(1, 1, 1), (2, 2, 2), (3, 3, 3)]);
    s.truncate(5);
    assert_eq!(s.len(), 3);
    s.truncate(2);
    assert_eq!(contents(&s), vec![(1, 1, 1), (2, 2, 2)]);
    let mut other = filled(&[(7, 7, 7)]);
    s.append(&mut other);
    assert!(other.is_empty());
    assert_eq!(contents(&s), vec![(1, 1, 1), (2, 2, 2), (7, 7, 7)]);
    let tail = s.split_off(1);
    assert_eq!(contents(&s), vec![(1, 1, 1)]);
    assert_eq!(contents(&tail), vec![(2, 2, 2), (7, 7, 7)]);
    let rest = s.split_off(1);
    assert!(rest.is_empty());
    s.clear();
    assert!(s.is_empty());
}

#[test]
fn capacity_operations_keep_rows() {
    let mut s = filled(&[(1, 1, 1), (2, 2, 2)]);
    s.reserve_exact(10);
    assert!(s.capacity() >= 12);
    assert_eq!(contents(&s), vec![(1, 1, 1), (2, 2, 2)]);
    s.shrink_to_fit();
    assert_eq!(contents(&s), vec![(1, 1, 1), (2, 2, 2)]);
}

#[test]
fn mutable_views_write_through() {
    let mut s = filled(&[(1, 1, 1), (2, 2, 2), (3, 3, 3)]);
    {
        let r = s.index_mut(1);
        *r.0 = 20;
        *r.2 = -2;
    }
    let m = s.slice_mut(Bound::Included(2), Bound::Unbounded);
    m.1[0] = 30;
    assert_eq!(contents(&s), vec![(1, 1, 1), (20, 2, -2), (3, 30, 3)]);
    assert_eq!(s.replace(0, (0, 0, 0)), (1, 1, 1));
    assert_eq!(contents(&s)[0], (0, 0, 0));
}
