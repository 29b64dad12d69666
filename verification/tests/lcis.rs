use contest_lib::misc::lcis::lcis;

#[test]
fn both_empty() {
    let a: [i32; 0] = [];
    let b: [i32; 0] = [];
    assert_eq!(lcis(&a, &b), 0);
}

#[test]
fn one_empty() {
    let a = [1, 2, 3];
    let b: [i32; 0] = [];
    assert_eq!(lcis(&a, &b), 0);

    let a: [i32; 0] = [];
    let b = [1, 2, 3];
    assert_eq!(lcis(&a, &b), 0);
}

#[test]
fn no_common_elements() {
    let a = [1, 2, 3];
    let b = [4, 5, 6];
    assert_eq!(lcis(&a, &b), 0);
}

#[test]
fn single_common_element() {
    let a = [1, 2, 3];
    let b = [3, 4, 5];
    assert_eq!(lcis(&a, &b), 1);
}

#[test]
fn identical_sequences_strictly_increasing() {
    let a = [1, 2, 3, 4, 5];
    let b = [1, 2, 3, 4, 5];
    assert_eq!(lcis(&a, &b), 5);
}

#[test]
fn identical_sequences_not_strictly_increasing() {
    let a = [1, 2, 2, 3];
    let b = [1, 2, 2, 3];
    // LCIS must be strictly increasing
    assert_eq!(lcis(&a, &b), 3); // e.g., [1, 2, 3]
}

#[test]
fn common_but_not_increasing() {
    let a = [3, 2, 1];
    let b = [3, 2, 1];
    assert_eq!(lcis(&a, &b), 1);
}

#[test]
fn typical_case() {
    let a = [3, 4, 9, 1];
    let b = [5, 3, 8, 9, 10, 2, 1];
    assert_eq!(lcis(&a, &b), 2); // [3, 9]
}

#[test]
fn duplicates_in_inputs() {
    let a = [1, 3, 3, 5];
    let b = [1, 3, 5, 5];
    assert_eq!(lcis(&a, &b), 3); // [1, 3, 5]
}

#[test]
fn negative_numbers() {
    let a = [-3, -2, -1, 0];
    let b = [-4, -3, -2, 0];
    assert_eq!(lcis(&a, &b), 3); // [-3, -2, 0]
}

#[test]
fn interleaved_choices() {
    let a = [1, 4, 2, 3];
    let b = [1, 2, 3, 4];
    assert_eq!(lcis(&a, &b), 3); // [1, 2, 3]
}

#[test]
fn single_element_repeated() {
    let a = [2, 2, 2, 2];
    let b = [2, 2];
    assert_eq!(lcis(&a, &b), 1);
}

#[test]
fn stress_ordering_constraints() {
    let a = [1, 3, 2, 4, 3, 5];
    let b = [1, 2, 3, 4, 5];
    assert_eq!(lcis(&a, &b), 4); // [1, 2, 3, 5] or similar
}

fn lcis_oracle_cubic(a: &[i32], b: &[i32]) -> usize {
    let n = a.len();
    let m = b.len();
    // dp[i][j] = LCIS length using a[..=i], ending exactly at a[i] == b[j]
    let mut dp = vec![vec![0usize; m]; n];
    for i in 0..n {
        for j in 0..m {
            if a[i] == b[j] {
                let mut best = 0;
                for ii in 0..i {
                    for jj in 0..j {
                        if a[ii] < a[i] && b[jj] < b[j] {
                            best = best.max(dp[ii][jj]);
                        }
                    }
                }
                dp[i][j] = best + 1;
            }
        }
    }
    dp.into_iter().flat_map(|row| row.into_iter()).max().unwrap_or(0)
}

#[test]
fn lcis_matches_a_cubic_oracle() {
    let mut state: u32 = 12_345;
    let mut next = |limit: u32| {
        state = state.wrapping_mul(1_664_525).wrapping_add(1_013_904_223);
        (state >> 16) % limit
    };
    for _ in 0..200 {
        let len_a = next(25) as usize;
        let len_b = next(25) as usize;
        let a: Vec<i32> = (0..len_a).map(|_| next(12) as i32 - 4).collect();
        let b: Vec<i32> = (0..len_b).map(|_| next(12) as i32 - 4).collect();
        assert_eq!(lcis(&a, &b), lcis_oracle_cubic(&a, &b), "a = {a:?}, b = {b:?}");
    }
}

#[test]
fn lcis_at_the_ends_of_the_value_range() {
    let a = [i32::MIN, 0, i32::MAX, i32::MIN];
    let b = [i32::MAX, i32::MIN, i32::MAX];
    assert_eq!(lcis(&a, &b), 2);
}
