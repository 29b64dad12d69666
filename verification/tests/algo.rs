use contest_lib::algo::partition_point;
use contest_lib::perm;

#[test]
#[allow(clippy::unreadable_literal)]
fn test_partition_point() {
    assert_eq!(partition_point(0..1, |x| x < 0), 0);
    assert_eq!(partition_point(0..1, |x| x < 1), 1);
    assert_eq!(partition_point(0..0, |x| x < 0), 0);
    assert_eq!(partition_point(0..0, |_x| true), 0);
    assert_eq!(partition_point(0..0, |_x| false), 0);
    assert_eq!(partition_point(1..1, |_x| true), 1);
    assert_eq!(partition_point(1..1, |_x| false), 1);
    assert_eq!(partition_point(-5..5, |x| x < 0), 0);
    assert_eq!(partition_point(-30..25, |x| x <= 0), 1);
    assert_eq!(partition_point(-10..166, |x| x <= 24), 25);
    assert_eq!(partition_point(-10..166, |x| x < -1000), -10);
    assert_eq!(partition_point(-10..166, |x| x < 1000), 166);
    assert_eq!(partition_point(-5..5, |x| x < 0), 0);
    assert_eq!(
        partition_point(-1_000_000_000_000_000..1_000_000_000_000_000, |x| x < 4234987234),
        4234987234
    );
    assert_eq!(
        partition_point(-1_000_000_000_000_000..1_000_000_000_000_000, |x| x < 234239487),
        234239487
    );
    assert_eq!(
        partition_point(-1_000_000_000_000_000..1_000_000_000_000_000, |x| x
            < -230498234293847),
        -230498234293847
    );
}

#[test]
fn reduced_perm() {
    assert_eq!(perm::reduced_perm(&[1, 2, 4]), [0, 1, 2]);
    assert_eq!(perm::reduced_perm(&[1, 2, 3]), [0, 1, 2]);
    assert_eq!(perm::reduced_perm(&[5, 10000, 1]), [1, 2, 0]);
    assert_eq!(perm::reduced_perm(&[5, 6, 7, 8, 9, 1]), [1, 2, 3, 4, 5, 0]);
    assert_eq!(perm::reduced_perm(&[100]), [0]);
    assert_eq!(perm::reduced_perm(&[19, 18]), [1, 0]);
    assert_eq!(perm::reduced_perm(&[18, 3, 14, 17, 0]), [4, 1, 2, 3, 0]);
}

#[test]
fn inv_perm() {
    assert_eq!(perm::inv_perm(&[0, 1, 2]), [0, 1, 2]);
    assert_eq!(perm::inv_perm(&[1, 0]), [1, 0]);
    assert_eq!(perm::inv_perm(&[2, 1, 0]), [2, 1, 0]);
    assert_eq!(perm::inv_perm(&[2, 0, 1]), [1, 2, 0]);
}

#[test]
fn partition_point_of_a_reversed_range_is_its_start() {
    #[allow(clippy::reversed_empty_ranges)]
    let reversed = 5..-5;
    assert_eq!(partition_point(reversed, |_x| true), 5);
    assert_eq!(partition_point(i64::MIN / 2..i64::MAX / 2, |x| x < 17), 17);
    assert_eq!(partition_point(0..i64::MAX, |_x| true), i64::MAX);
}

#[test]
fn reduced_perm_ranks_repeated_elements_by_their_last_place() {
    assert_eq!(perm::reduced_perm(&[]), Vec::<usize>::new());
    assert_eq!(perm::reduced_perm(&[7, 7, 3, 7]), [3, 3, 0, 3]);
    assert_eq!(perm::reduced_perm(&[2, 1, 2, 1]), [3, 1, 3, 1]);
}

#[test]
fn inv_perm_keeps_the_last_index_of_a_repeated_value() {
    assert_eq!(perm::inv_perm(&[]), Vec::<usize>::new());
    assert_eq!(perm::inv_perm(&[1, 1, 1]), [0, 2, 0]);
    assert_eq!(perm::inv_perm(&[3, 0, 2, 1]), [1, 3, 2, 0]);
}

#[test]
fn inversions_odd_sorts_and_tells_the_parity() {
    let mut identity = [0, 1, 2, 3];
    assert!(!perm::inversions_odd(&mut identity));
    assert_eq!(identity, [0, 1, 2, 3]);
    let mut one_swap = [1, 0, 2];
    assert!(perm::inversions_odd(&mut one_swap));
    assert_eq!(one_swap, [0, 1, 2]);
    let mut cycle = [1, 2, 0];
    assert!(!perm::inversions_odd(&mut cycle));
    assert_eq!(cycle, [0, 1, 2]);
    let mut empty: [usize; 0] = [];
    assert!(!perm::inversions_odd(&mut empty));
}

/// Visits all orders of the first `k` elements of `v`, by Heap's algorithm.
fn visit(k: usize, v: &mut Vec<usize>, seen: &mut usize) {
    if k <= 1 {
        let mut inversions = 0;
        for i in 0..v.len() {
            for j in i + 1..v.len() {
                if v[i] > v[j] {
                    inversions += 1;
                }
            }
        }
        let mut sorted = v.clone();
        assert_eq!(perm::inversions_odd(&mut sorted), inversions % 2 == 1);
        assert_eq!(sorted, [0, 1, 2, 3, 4]);
        *seen += 1;
        return;
    }
    for i in 0..k {
        visit(k - 1, v, seen);
        if k % 2 == 0 {
            v.swap(i, k - 1);
        } else {
            v.swap(0, k - 1);
        }
    }
}

#[test]
fn inversions_odd_agrees_with_counting_inversions() {
    let mut v = vec![0, 1, 2, 3, 4];
    let mut seen = 0;
    visit(5, &mut v, &mut seen);
    assert_eq!(seen, 120);
}
