use circle_period::circle::{Circle, KEY_CELLS, MAX_SIZE, MIN_SIZE};
use circle_period::order::compare_arrays;
use std::cmp::Ordering;

fn circle(cells: &[u8]) -> Circle {
    Circle::from_slice(cells).unwrap()
}

#[test]
fn next_of_three_cells() {
    let mut c = circle(&[1, 2, 3]);
    let n = c.next();
    assert_eq!(n.get_array(), &[1, 2, 1]);
    assert_eq!(n.size(), 3);
}

#[test]
fn next_wraps_around_both_ends() {
    let mut c = circle(&[5, 0, 0]);
    assert_eq!(c.next().get_array(), &[0, 5, 5]);
    let mut d = circle(&[0, 0, 1]);
    assert_eq!(d.next().get_array(), &[1, 1, 0]);
}

#[test]
fn next_uses_absolute_difference() {
    let mut c = circle(&[255, 0, 10, 3]);
    // cell i becomes |c[i-1] - c[i+1]|
    assert_eq!(c.next().get_array(), &[3, 245, 3, 245]);
}

#[test]
fn next_matches_neighbour_rule_on_larger_circle() {
    let cells: Vec<u8> = (0..37u32).map(|i| ((i * 73 + 11) % 256) as u8).collect();
    let mut c = circle(&cells);
    let n = c.next();
    let out = n.get_array();
    assert_eq!(out.len(), cells.len());
    let len = cells.len();
    for i in 0..len {
        let l = cells[(i + len - 1) % len] as i32;
        let r = cells[(i + 1) % len] as i32;
        assert_eq!(out[i] as i32, (l - r).abs());
    }
}

#[test]
fn next_leaves_input_unchanged() {
    let mut c = circle(&[9, 4, 200, 17, 0]);
    let before = c;
    let _ = c.next();
    assert_eq!(c.get_array(), before.get_array());
    assert!(c == before);
}

#[test]
fn next_keeps_size_at_maximum() {
    let cells = vec![1u8; MAX_SIZE];
    let mut c = circle(&cells);
    let n = c.next();
    assert_eq!(n.size(), MAX_SIZE);
    assert!(n.get_array().iter().all(|v| *v == 0));
}

#[test]
fn from_slice_rejects_bad_sizes() {
    assert!(Circle::from_slice(&[1, 2]).is_none());
    assert!(Circle::from_slice(&[]).is_none());
    assert!(Circle::from_slice(&vec![0u8; MAX_SIZE + 1]).is_none());
    assert!(Circle::from_slice(&vec![0u8; MIN_SIZE]).is_some());
    assert!(Circle::from_slice(&vec![0u8; MAX_SIZE]).is_some());
}

#[test]
fn new_has_requested_size() {
    for n in MIN_SIZE..=MAX_SIZE {
        let c = Circle::new(n);
        assert_eq!(c.size(), n);
        assert_eq!(c.get_array().len(), n);
    }
}

#[test]
fn sum_of_short_circle() {
    assert_eq!(circle(&[1, 2, 3]).sum(), 6);
    assert_eq!(circle(&[255, 255, 255, 255]).sum(), 1020);
}

#[test]
fn sum_reads_only_key_cells() {
    let cells: Vec<u8> = (1..=20u8).collect();
    assert_eq!(KEY_CELLS, 16);
    assert_eq!(circle(&cells).sum(), (1..=16u128).sum::<u128>());
    assert_eq!(circle(&vec![255u8; MAX_SIZE]).sum(), 255 * 16);
}

#[test]
fn equality_ignores_nothing_meaningful() {
    assert!(circle(&[1, 2, 3]) == circle(&[1, 2, 3]));
    assert!(circle(&[1, 2, 3]) != circle(&[1, 2, 4]));
    assert!(circle(&[0, 0, 0]) != circle(&[0, 0, 0, 0]));
}

#[test]
fn compare_arrays_orders_lexicographically() {
    assert_eq!(compare_arrays(&[1, 2, 3], &[1, 2, 3]), Ordering::Equal);
    assert_eq!(compare_arrays(&[1, 2, 3], &[1, 3, 0]), Ordering::Less);
    assert_eq!(compare_arrays(&[2], &[1, 9, 9]), Ordering::Greater);
    assert_eq!(compare_arrays(&[1, 2], &[1, 2, 0]), Ordering::Less);
    assert_eq!(compare_arrays(&[1, 2, 0], &[1, 2]), Ordering::Greater);
    assert_eq!(compare_arrays(&[], &[]), Ordering::Equal);
}

#[test]
fn same_cells_compares_meaningful_cells() {
    assert!(circle(&[4, 5, 6]).same_cells(&circle(&[4, 5, 6])));
    assert!(!circle(&[4, 5, 6]).same_cells(&circle(&[4, 5, 7])));
    assert!(!circle(&[4, 5, 6]).same_cells(&circle(&[4, 5, 6, 0])));
}
