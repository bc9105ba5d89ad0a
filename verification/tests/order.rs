use iomon::order::sort_order;

fn check(keys: Vec<Vec<u64>>) {
    let mut want: Vec<usize> = (0..keys.len()).collect();
    want.sort_by(|&a, &b| keys[a].cmp(&keys[b]));
    assert_eq!(sort_order(&keys), want);
}

#[test]
fn order_matches_a_stable_sort() {
    check(vec![]);
    check(vec![vec![3]]);
    check(vec![vec![2, 1], vec![2], vec![2, 0, 9], vec![], vec![1, 9], vec![2]]);
    let mut state: u64 = 1;
    let mut keys = Vec::new();
    for _ in 0..2000 {
        state = state.wrapping_mul(6364136223846793005).wrapping_add(1442695040888963407);
        let mut k = vec![(state >> 60) % 5, (state >> 50) % 3];
        if state & 1 == 0 {
            k.push((state >> 40) % 2);
        }
        keys.push(k);
    }
    check(keys);
}

#[test]
fn equal_keys_keep_their_order() {
    assert_eq!(sort_order(&vec![vec![1], vec![0], vec![1], vec![0]]), vec![1, 3, 0, 2]);
}
