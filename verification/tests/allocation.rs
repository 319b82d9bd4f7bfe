use betting::utils::lrm;

#[test]
fn nothing_is_lost_in_rounding() {
    assert_eq!(lrm(100, &vec![1, 1, 1]), vec![33, 33, 34]);
    assert_eq!(lrm(12, &vec![5]), vec![12]);
    assert_eq!(lrm(19, &vec![7, 2]), vec![15, 4]);
    assert_eq!(lrm(10, &vec![3, 3, 4]), vec![3, 3, 4]);
    assert_eq!(lrm(7, &vec![1, 2, 3]), vec![1, 2, 4]);
    assert_eq!(lrm(100, &vec![5, 0, 7]), vec![42, 0, 58]);
    for total in [0u32, 1, 2, 3, 99, 100, 101, 4_294_967_295] {
        for parts in [vec![1u32], vec![1, 1], vec![3, 1, 4, 1, 5, 9, 2, 6], vec![0, 0, 1], vec![4_294_967_295, 4_294_967_295, 1]] {
            let gains = lrm(total, &parts);
            assert_eq!(gains.len(), parts.len());
            assert_eq!(gains.iter().map(|g| *g as u64).sum::<u64>(), total as u64);
        }
    }
}

#[test]
fn each_share_is_the_ideal_share_rounded_down_or_up() {
    let parts = vec![3u32, 1, 4, 1, 5, 9, 2, 6];
    let norm: u64 = parts.iter().map(|p| *p as u64).sum();
    for total in [0u32, 1, 7, 30, 31, 1000, 4_294_967_295] {
        let gains = lrm(total, &parts);
        for (gain, part) in gains.iter().zip(parts.iter()) {
            let ideal = total as u64 * *part as u64;
            assert!(*gain as u64 * norm + norm > ideal);
            assert!((*gain as u64) * norm < ideal + norm);
        }
    }
}

#[test]
fn the_largest_remainders_are_served_first() {
    // ideal shares 1.6, 1.2, 1.2 : one unit is left and goes to the first
    assert_eq!(lrm(4, &vec![4, 3, 3]), vec![2, 1, 1]);
    // ideal shares 2.5, 2.5 : the later of two equal remainders is served first
    assert_eq!(lrm(5, &vec![1, 1]), vec![2, 3]);
    // ideal shares 0.75, 0.75, 0.75, 0.75 : three units are left
    assert_eq!(lrm(3, &vec![1, 1, 1, 1]), vec![0, 1, 1, 1]);
}

#[test]
fn zero_weights_receive_nothing() {
    assert_eq!(lrm(100, &vec![0, 0, 0]), vec![0, 0, 0]);
    assert_eq!(lrm(100, &vec![]), Vec::<u32>::new());
    assert_eq!(lrm(0, &vec![1, 2]), vec![0, 0]);
}
