use routeviz::algo::path::reconstruct_with_pools;

#[test]
fn reconstruct_linear_path() {
    // src=0 → 1 → 2 → dst=3 via pools 10, 11, 12
    let prev = vec![None, Some((0, 10)), Some((1, 11)), Some((2, 12))];
    let (path, pools) = reconstruct_with_pools(&prev, 0, 3);
    assert_eq!(path, vec![0, 1, 2, 3]);
    assert_eq!(pools, vec![10, 11, 12]);
}

#[test]
fn reconstruct_src_equals_dst() {
    let prev = vec![None, None, None];
    let (path, pools) = reconstruct_with_pools(&prev, 1, 1);
    assert_eq!(path, vec![1]);
    assert!(pools.is_empty());
}

#[test]
fn reconstruct_single_hop() {
    let prev = vec![None, Some((0, 99))];
    let (path, pools) = reconstruct_with_pools(&prev, 0, 1);
    assert_eq!(path, vec![0, 1]);
    assert_eq!(pools, vec![99]);
}
