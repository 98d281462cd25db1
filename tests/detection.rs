use circle_period::circle::Circle;
use circle_period::detect::{multi_stack, run_detection};

fn circle(cells: &[u8]) -> Circle {
    Circle::from_slice(cells).unwrap()
}

#[test]
fn zero_circle_is_a_fixed_point() {
    assert_eq!(multi_stack(circle(&[0, 0, 0])), Some(1));
}

#[test]
fn known_periods_of_small_circles() {
    assert_eq!(multi_stack(circle(&[1, 1, 0])), Some(1));
    assert_eq!(multi_stack(circle(&[1, 0, 0, 0])), Some(1));
    assert_eq!(multi_stack(circle(&[1, 0, 0, 0, 0])), Some(3));
    assert_eq!(multi_stack(circle(&[1, 0, 0, 0, 0, 0])), Some(2));
}

#[test]
fn periods_of_sizes_three_to_six_sum_to_six() {
    let mut periods = std::collections::BTreeSet::new();
    for cells in [&[0u8, 0, 0][..], &[1, 0, 0, 0], &[1, 0, 0, 0, 0], &[1, 0, 0, 0, 0, 0]] {
        periods.insert(multi_stack(circle(cells)).unwrap());
    }
    assert_eq!(periods.iter().copied().collect::<Vec<usize>>(), vec![1, 2, 3]);
    assert_eq!(periods.iter().sum::<usize>(), 6);
}

#[test]
fn periods_of_larger_circles() {
    let c10 = [16, 219, 247, 7, 105, 236, 251, 142, 82, 17];
    assert_eq!(multi_stack(circle(&c10)), Some(6));
    let c17 = [212, 155, 187, 148, 89, 142, 56, 13, 127, 196, 214, 129, 162, 205, 70, 31, 71];
    assert_eq!(multi_stack(circle(&c17)), Some(15));
}

#[test]
fn random_small_circles_have_periods_one_to_three() {
    let mut seen = std::collections::BTreeSet::new();
    for n in 3..=6 {
        for _ in 0..20 {
            let p = multi_stack(Circle::new(n)).unwrap();
            assert!(p >= 1 && p <= 3, "size {} gave period {}", n, p);
            seen.insert(p);
        }
    }
    assert!(seen.contains(&1));
    assert!(seen.contains(&3));
}

#[test]
fn result_does_not_depend_on_bucket_layout() {
    let c30 = [
        148, 15, 107, 131, 24, 203, 192, 68, 41, 236, 3, 124, 13, 37, 81, 205, 178, 34, 205, 12,
        127, 143, 219, 48, 142, 57, 253, 158, 66, 158,
    ];
    for (buckets, capacity) in [(1, 1000), (3, 200), (10, 1000), (64, 50)] {
        assert_eq!(run_detection(circle(&c30), buckets, capacity), Some(30));
    }
    for (buckets, capacity) in [(1, 100), (2, 10), (7, 5)] {
        assert_eq!(run_detection(circle(&[1, 0, 0, 0, 0]), buckets, capacity), Some(3));
    }
}

#[test]
fn tiny_capacity_is_exhausted() {
    // [5,0,0] steps to the smaller [0,5,5], which needs a second slot
    assert_eq!(run_detection(circle(&[5, 0, 0]), 1, 1), None);
    assert_eq!(run_detection(circle(&[5, 0, 0]), 1, 2), Some(1));
    assert_eq!(run_detection(circle(&[1, 2, 3]), 1, 2), None);
    assert_eq!(run_detection(circle(&[1, 0, 0, 0, 0, 0]), 1, 1), None);
}

#[test]
fn zero_capacity_is_exhausted_at_once() {
    assert_eq!(run_detection(circle(&[0, 0, 0]), 4, 0), None);
}

#[test]
fn ample_capacity_finds_the_period() {
    // pre-period and period small against the capacity: the period is owed
    for cells in [&[0u8, 0, 0][..], &[9, 9, 9, 9], &[1, 0, 0, 0, 0], &[200, 3, 77, 5, 0, 1]] {
        let expected = multi_stack(circle(cells));
        assert!(expected.is_some());
        for buckets in [1, 2, 5, 13] {
            assert_eq!(run_detection(circle(cells), buckets, 64), expected);
        }
    }
}

#[test]
fn detected_value_is_a_return_time() {
    let c10 = [16u8, 219, 247, 7, 105, 236, 251, 142, 82, 17];
    let d = multi_stack(circle(&c10)).unwrap();
    // walk to a state on the cycle, then check it comes back after exactly d steps
    let mut x = circle(&c10);
    for _ in 0..200 {
        x = x.next();
    }
    let start = x;
    let mut y = start;
    for step in 1..=d {
        y = y.next();
        if step < d {
            assert!(y != start);
        }
    }
    assert!(y == start);
}
