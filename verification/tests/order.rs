use rpc_monitor::order::rank_positions;

#[test]
fn smaller_keys_rank_first_and_equals_keep_their_order() {
    assert_eq!(rank_positions(&vec![3, 1, 2, 1, 3]), vec![1, 3, 2, 0, 4]);
    assert_eq!(rank_positions(&vec![]), Vec::<usize>::new());
    assert_eq!(rank_positions(&vec![-1, -1, -1]), vec![0, 1, 2]);
}

#[test]
fn rankings_match_a_stable_sort() {
    let mut state: u64 = 1;
    let mut keys: Vec<i128> = Vec::new();
    for _ in 0..200 {
        state = state.wrapping_mul(6364136223846793005).wrapping_add(1442695040888963407);
        keys.push((state >> 60) as i128 - 8);
    }
    let mut expected: Vec<usize> = (0..keys.len()).collect();
    expected.sort_by_key(|i| keys[*i]);
    assert_eq!(rank_positions(&keys), expected);
}
