use rest_libcint::layout::{
    copy_3d_s2ij_diag, copy_3d_s2ij_offdiag, copy_4d_s2ij_diag, copy_4d_s2ij_offdiag, copy_5d_s2ij_diag,
    copy_5d_s2ij_offdiag, get_f_index_3d, get_f_index_3d_s2ij, get_f_index_4d, get_f_index_4d_s2ij,
    get_f_index_5d, get_f_index_5d_s2ij,
};

#[test]
fn f_index_dense_values() {
    assert_eq!(get_f_index_3d(&[1, 2, 3], &[4, 5, 6]), 1 + 4 * (2 + 5 * 3));
    assert_eq!(get_f_index_3d(&[0, 0, 0], &[4, 5, 6]), 0);
    assert_eq!(get_f_index_3d(&[3, 4, 5], &[4, 5, 6]), 4 * 5 * 6 - 1);
    assert_eq!(get_f_index_4d(&[1, 2, 3, 4], &[2, 3, 4, 5]), 1 + 2 * (2 + 3 * (3 + 4 * 4)));
    assert_eq!(get_f_index_5d(&[1, 1, 1, 1, 1], &[2, 2, 2, 2, 2]), 31);
}

#[test]
fn f_index_packed_values() {
    // pair (1, 2) packs to 1 + 2*3/2 = 4
    assert_eq!(get_f_index_3d_s2ij(&[1, 2, 0], &[6, 1]), 4);
    assert_eq!(get_f_index_3d_s2ij(&[1, 2, 3], &[6, 4]), 4 + 6 * 3);
    assert_eq!(get_f_index_4d_s2ij(&[0, 0, 2, 1], &[3, 5, 2]), 3 * (2 + 5 * 1));
    assert_eq!(get_f_index_5d_s2ij(&[2, 3, 1, 1, 1], &[10, 2, 3, 2]), 2 + 6 + 10 * (1 + 2 * (1 + 3 * 1)));
}

#[test]
fn packed_pairs_fill_the_triangle_once() {
    // every pair p <= q < 4 gets its own slot in 0..10
    let mut seen = vec![0u32; 10];
    for q in 0..4usize {
        for p in 0..=q {
            seen[get_f_index_3d_s2ij(&[p, q, 0], &[10, 1])] += 1;
        }
    }
    assert!(seen.iter().all(|&n| n == 1));
}

#[test]
fn copy_3d_offdiag_places_block() {
    // output: 3 basis functions on the pair axis (6 pairs), 2 components
    let mut out = vec![-1i64; 12];
    // block rows 0..1 (one function), columns 1..3 (two functions), 2 components
    let buf: Vec<i64> = (0..4).collect();
    copy_3d_s2ij_offdiag(&mut out, &[0, 1, 0], &[6, 2], &buf, &[1, 2, 2]);
    // (0,1) -> 1, (0,2) -> 3, second component 6 further
    assert_eq!(out, vec![-1, 0, -1, 1, -1, -1, -1, 2, -1, 3, -1, -1]);
}

#[test]
fn copy_3d_diag_keeps_upper_pairs_only() {
    let mut out = vec![-1i64; 3];
    // a 2x2 diagonal block, one component: element (1, 0) is not kept
    let buf = vec![10i64, 20, 30, 40];
    copy_3d_s2ij_diag(&mut out, &[0, 0, 0], &[3, 1], &buf, &[2, 2, 1]);
    assert_eq!(out, vec![10, 30, 40]);
}

#[test]
fn copy_4d_offdiag_and_diag() {
    // 2 functions on the pair axis (3 pairs), third axis of 2, one component
    let mut out = vec![0i64; 6];
    let buf = vec![7i64, 8];
    // block (row 0, column 1, third axis 0..2)
    copy_4d_s2ij_offdiag(&mut out, &[0, 1, 0, 0], &[3, 2, 1], &buf, &[1, 1, 2, 1]);
    assert_eq!(out, vec![0, 7, 0, 0, 8, 0]);
    let buf = vec![1i64, 2, 3, 4];
    // diagonal block of the first function, third axis 0..2: element (0, 0) only
    copy_4d_s2ij_diag(&mut out, &[0, 0, 0, 0], &[3, 2, 1], &buf, &[1, 1, 2, 1]);
    assert_eq!(out, vec![1, 7, 0, 2, 8, 0]);
}

#[test]
fn copy_5d_offdiag_and_diag() {
    let mut out = vec![0i64; 3 * 2 * 2];
    let buf: Vec<i64> = (1..=4).collect();
    copy_5d_s2ij_offdiag(&mut out, &[0, 1, 0, 0, 0], &[3, 2, 2, 1], &buf, &[1, 1, 2, 2, 1]);
    assert_eq!(out[1], 1);
    assert_eq!(out[1 + 3], 2);
    assert_eq!(out[1 + 6], 3);
    assert_eq!(out[1 + 9], 4);
    let buf = vec![5i64, 6, 7, 8];
    copy_5d_s2ij_diag(&mut out, &[1, 1, 0, 0, 0], &[3, 2, 2, 1], &buf, &[1, 1, 2, 2, 1]);
    assert_eq!(out[2], 5);
    assert_eq!(out[2 + 9], 8);
    assert_eq!(out[0], 0);
}
