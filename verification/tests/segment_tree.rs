use contest_lib::ds::segment_tree::SegmentTree;

fn update_and_check(arr: &mut [i64], st: &mut SegmentTree, idx: usize, value: i64) {
    arr[idx] = value;
    st.update(idx, value);
    check_st(arr, st);
}

#[allow(clippy::reversed_empty_ranges)]
fn check_st(arr: &[i64], st: &SegmentTree) {
    for i in 0..arr.len() {
        for j in i..arr.len() {
            assert_eq!(st.compute(i..j), arr[i..j].iter().sum(), "i = {}, j = {}", i, j);
        }
    }
    assert_eq!(st.compute(1..0), 0);
}

#[test]
fn segment_tree_test() {
    let mut arr = [0, 2, -5, 17, -100, 44];
    let mut st = SegmentTree::from_slice(&arr);
    check_st(&arr, &st);
    update_and_check(&mut arr, &mut st, 0, 15);
    update_and_check(&mut arr, &mut st, 2, -123);
    update_and_check(&mut arr, &mut st, 1, 38);
    update_and_check(&mut arr, &mut st, 5, -11);
    update_and_check(&mut arr, &mut st, 2, 11111);
    update_and_check(&mut arr, &mut st, 3, 8);
    update_and_check(&mut arr, &mut st, 4, -5);
}

#[test]
fn segment_tree_test_trivial() {
    const ST_LEN: usize = 5;
    let arr = [0; ST_LEN];
    let st = SegmentTree::new(ST_LEN);
    check_st(&arr, &st);
    let st = SegmentTree::new(1);
    check_st(&arr[..1], &st);
}

#[test]
fn segment_tree_sums_up_to_the_end_and_over_everything() {
    for len in 0..20usize {
        let arr: Vec<i64> = (0..len as i64).map(|i| i * i - 7 * i + 3).collect();
        let mut st = SegmentTree::from_slice(&arr);
        for i in 0..=len {
            for j in i..=len {
                assert_eq!(st.compute(i..j), arr[i..j].iter().sum::<i64>());
            }
        }
        if len > 0 {
            st.update(len - 1, i64::MAX / 2);
            st.update(0, i64::MAX / 2);
            let mut changed = arr.clone();
            changed[len - 1] = i64::MAX / 2;
            changed[0] = i64::MAX / 2;
            assert_eq!(st.compute(0..len), changed.iter().sum::<i64>());
        }
    }
    let empty = SegmentTree::new(0);
    assert_eq!(empty.compute(0..0), 0);
}
