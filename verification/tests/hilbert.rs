use ros_madair::hilbert::hilbert_index_nd;

#[test]
fn test_nd_trivial() {
    assert_eq!(hilbert_index_nd(&[0], 4), 0);
    assert_eq!(hilbert_index_nd(&[15], 4), 15);
}

#[test]
fn nd_two_dimensions_first_order_curve() {
    // The first-order 2D curve visits (0,0), (0,1), (1,1), (1,0).
    assert_eq!(hilbert_index_nd(&[0, 0], 1), 0);
    assert_eq!(hilbert_index_nd(&[0, 1], 1), 1);
    assert_eq!(hilbert_index_nd(&[1, 1], 1), 2);
    assert_eq!(hilbert_index_nd(&[1, 0], 1), 3);
    assert_eq!(hilbert_index_nd(&[1, 0], 2), 1);
    assert_eq!(hilbert_index_nd(&[2, 2], 2), 8);
    assert_eq!(hilbert_index_nd(&[3, 0], 2), 15);
}

#[test]
fn nd_indices_are_a_bijection_on_small_grid() {
    let mut seen = vec![false; 64];
    for x in 0..4u64 {
        for y in 0..4u64 {
            for z in 0..4u64 {
                let h = hilbert_index_nd(&[x, y, z], 2) as usize;
                assert!(h < 64);
                assert!(!seen[h]);
                seen[h] = true;
            }
        }
    }
}
