use algorithmik3::intersection::{binary_search, galloping_search, naive};

fn all_three(a: &[u64], b: &[u64]) -> (Vec<u64>, Vec<u64>, Vec<u64>) {
    (naive(a, b), binary_search(a, b), galloping_search(a, b))
}

#[test]
fn agree_on_overlapping_sequences() {
    let a: Vec<u64> = vec![1, 3, 5, 7, 9, 11, 20, 35];
    let b: Vec<u64> = vec![2, 3, 4, 7, 11, 12, 35, 40];
    let (n, s, g) = all_three(&a, &b);
    assert_eq!(n, vec![3, 7, 11, 35]);
    assert_eq!(s, vec![3, 7, 11, 35]);
    assert_eq!(g, vec![3, 7, 11, 35]);
}

#[test]
fn agree_on_disjoint_sequences() {
    let a: Vec<u64> = vec![0, 2, 4, 6];
    let b: Vec<u64> = vec![1, 3, 5, 7];
    let (n, s, g) = all_three(&a, &b);
    assert_eq!(n, Vec::<u64>::new());
    assert_eq!(s, Vec::<u64>::new());
    assert_eq!(g, Vec::<u64>::new());
}

#[test]
fn agree_when_b_is_dense_prefix() {
    let a: Vec<u64> = (0..100).collect();
    let b: Vec<u64> = (0..100).collect();
    let (n, s, g) = all_three(&a, &b);
    assert_eq!(n, a);
    assert_eq!(s, a);
    assert_eq!(g, a);
}

#[test]
fn agree_on_sparse_matches() {
    let a: Vec<u64> = (0..1000).map(|x| 2 * x).collect();
    let b: Vec<u64> = vec![0, 998, 999, 1000, 1998, 1999];
    let (n, s, g) = all_three(&a, &b);
    assert_eq!(n, vec![0, 998, 1000, 1998]);
    assert_eq!(s, vec![0, 998, 1000, 1998]);
    assert_eq!(g, vec![0, 998, 1000, 1998]);
}

#[test]
fn idempotent_on_self() {
    let a: Vec<u64> = vec![2, 4, 8, 16, 32, 64];
    let (n, s, g) = all_three(&a, &a);
    assert_eq!(n, a);
    assert_eq!(s, a);
    assert_eq!(g, a);
}

#[test]
fn empty_left_side() {
    let a: Vec<u64> = Vec::new();
    let b: Vec<u64> = vec![1, 2, 3];
    let (n, s, g) = all_three(&a, &b);
    assert!(n.is_empty());
    assert!(s.is_empty());
    assert!(g.is_empty());
}

#[test]
fn empty_right_side() {
    let a: Vec<u64> = vec![1, 2, 3];
    let b: Vec<u64> = Vec::new();
    let (n, s, g) = all_three(&a, &b);
    assert!(n.is_empty());
    assert!(s.is_empty());
    assert!(g.is_empty());
}

#[test]
fn both_sides_empty() {
    let a: Vec<u64> = Vec::new();
    let (n, s, g) = all_three(&a, &a);
    assert!(n.is_empty());
    assert!(s.is_empty());
    assert!(g.is_empty());
}

#[test]
fn galloping_single_element_match() {
    // The queried value sits alone in `a`: exactly one hit, whatever
    // step-doubling bound the probe reaches first.
    let a: Vec<u64> = vec![42];
    let b: Vec<u64> = vec![42];
    assert_eq!(galloping_search(&a, &b), vec![42]);
}

#[test]
fn galloping_single_match_at_far_end() {
    // The match lies at the end of a long run, so the probe step doubles
    // several times before the window closes around it.
    let a: Vec<u64> = (0..129).collect();
    let b: Vec<u64> = vec![128];
    assert_eq!(galloping_search(&a, &b), vec![128]);
}

#[test]
fn galloping_cursor_stays_usable_after_miss() {
    // A miss must leave the cursor at the window start, not past it, so the
    // next (larger) value is still found.
    let a: Vec<u64> = vec![10, 20, 30, 40, 50];
    let b: Vec<u64> = vec![25, 30, 45, 50];
    assert_eq!(galloping_search(&a, &b), vec![30, 50]);
}

#[test]
fn largest_values_intersect() {
    let a: Vec<u64> = vec![u64::MAX - 1, u64::MAX];
    let b: Vec<u64> = vec![u64::MAX];
    let (n, s, g) = all_three(&a, &b);
    assert_eq!(n, vec![u64::MAX]);
    assert_eq!(s, vec![u64::MAX]);
    assert_eq!(g, vec![u64::MAX]);
}
