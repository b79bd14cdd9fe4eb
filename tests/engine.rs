use rest_libcint::basis::{CINTR2CDATA, CintType, ECPData, ElementError, TableError};
use rest_libcint::dense::DensePlan;
use rest_libcint::packed::PackedPlan;
use rest_libcint::shape::{IntegralKind, SliceError};

fn shell(atom: i32, l: i32, nctr: i32, kappa: i32) -> Vec<i32> {
    vec![atom, l, 1, nctr, kappa, 20, 21, 0]
}

fn catalog(shells: Vec<Vec<i32>>) -> CINTR2CDATA {
    let atm = vec![vec![1, 20, 1, 23, 0, 0], vec![1, 24, 1, 27, 0, 0]];
    let mut cat = CINTR2CDATA::new();
    let n = shells.len() as i32;
    cat.initial_r2c(&atm, 2, &shells, n).unwrap();
    cat
}

/// Three shells with angular momenta 0, 0 and 1.
fn small() -> CINTR2CDATA {
    catalog(vec![shell(0, 0, 1, 0), shell(1, 0, 1, 0), shell(1, 1, 1, 0)])
}

/// A mix of angular momenta and contractions.
fn mixed() -> CINTR2CDATA {
    catalog(vec![
        shell(0, 0, 2, 0),
        shell(0, 1, 1, 0),
        shell(0, 2, 1, 0),
        shell(1, 0, 1, 0),
        shell(1, 1, 2, 0),
    ])
}

const TWO: IntegralKind = IntegralKind { n_center: 2, n_comp: 1 };

/// Stands in for the kernel: the value of component `c` at the basis functions `p`.
fn value(p: &[usize], c: usize) -> i64 {
    let mut v = c as i64;
    for &x in p {
        v = v * 1000 + x as i64;
    }
    v
}

/// Runs a dense call the way a driver does: one kernel write per block, at
/// the block's offset, with the full extents as strides.
fn run_dense(cat: &CINTR2CDATA, plan: &DensePlan, kind: &IntegralKind) -> (Vec<i64>, Vec<u32>) {
    let loc = cat.cgto_loc();
    let dims: Vec<usize> = plan.dims().iter().map(|&d| d as usize).collect();
    let total: usize = dims.iter().product();
    let mut out = vec![i64::MIN; plan.out_len()];
    let mut writes = vec![0u32; plan.out_len()];
    for b in 0..plan.n_blocks() {
        let (shls, offset) = plan.block(b);
        let sizes: Vec<usize> = shls.iter().map(|&s| cat.cgto_size(s)).collect();
        let offset = match offset {
            Some(o) => o,
            None => {
                assert!(sizes.iter().any(|&s| s == 0));
                continue;
            },
        };
        let n: usize = sizes.iter().product();
        for c in 0..kind.n_comp {
            for flat in 0..n {
                let mut rem = flat;
                let mut local = vec![0usize; sizes.len()];
                for a in 0..sizes.len() {
                    local[a] = rem % sizes[a];
                    rem /= sizes[a];
                }
                let mut pos = 0usize;
                let mut stride = 1usize;
                let mut p = vec![];
                for a in 0..sizes.len() {
                    pos += stride * local[a];
                    stride *= dims[a];
                    p.push(loc[shls[a] as usize] + local[a]);
                }
                let at = offset + pos + total * c;
                out[at] = value(&p, c);
                writes[at] += 1;
            }
        }
    }
    (out, writes)
}

/// The dense output computed directly from the basis functions it addresses.
fn expected_dense(cat: &CINTR2CDATA, kind: &IntegralKind, slices: &[[i32; 2]]) -> Vec<i64> {
    let loc = cat.cgto_loc();
    let starts: Vec<usize> = slices.iter().map(|s| loc[s[0] as usize]).collect();
    let dims: Vec<usize> = slices.iter().map(|s| loc[s[1] as usize] - loc[s[0] as usize]).collect();
    let total: usize = dims.iter().product();
    let mut out = vec![0i64; total * kind.n_comp];
    for c in 0..kind.n_comp {
        for flat in 0..total {
            let mut rem = flat;
            let mut p = vec![];
            for a in 0..dims.len() {
                p.push(starts[a] + rem % dims[a]);
                rem /= dims[a];
            }
            out[flat + total * c] = value(&p, c);
        }
    }
    out
}

#[test]
fn test_trait_intorbase() {
    // mol = O; H; H with 6-31G: 9 shells
    let c_atm = vec![vec![8, 20, 1, 23, 0, 0], vec![1, 24, 1, 27, 0, 0], vec![1, 28, 1, 31, 0, 0]];
    let c_bas = vec![
        vec![0, 0, 6, 1, 0, 32, 38, 0],
        vec![0, 0, 3, 1, 0, 44, 47, 0],
        vec![0, 0, 1, 1, 0, 50, 51, 0],
        vec![0, 1, 3, 1, 0, 52, 55, 0],
        vec![0, 1, 1, 1, 0, 58, 59, 0],
        vec![1, 0, 3, 1, 0, 60, 63, 0],
        vec![1, 0, 1, 1, 0, 66, 67, 0],
        vec![2, 0, 3, 1, 0, 60, 63, 0],
        vec![2, 0, 1, 1, 0, 66, 67, 0],
    ];
    let mut cint_data = CINTR2CDATA::new();
    cint_data.initial_r2c(&c_atm, c_atm.len() as i32, &c_bas, c_bas.len() as i32).unwrap();
    let shls_slice = vec![[0, 2], [0, 1], [1, 3], [0, 2]];
    // The scratch sizes themselves (445 for these slices, 1341 for the whole
    // molecule) are the kernel's probe answers and need the C library; what the
    // library decides is the range of shells that gets probed.
    assert_eq!(cint_data.cache_probe_range(&shls_slice), (0, 3));
    assert_eq!(cint_data.cache_probe_range(&vec![]), (0, 9));
    assert_eq!(cint_data.cgto_size_sph(1), 1);
    assert_eq!(cint_data.cgto_size_sph(3), 3);
}

#[test]
fn counts_and_offsets_of_three_shells() {
    let cat = small();
    assert_eq!((0..3).map(|s| cat.cgto_size(s)).collect::<Vec<_>>(), vec![1, 1, 3]);
    assert_eq!(cat.cgto_loc(), vec![0, 1, 2, 5]);
    assert_eq!(cat.cgto_loc_slice(&[1, 3]), vec![1, 2, 5]);
    assert_eq!(cat.cgto_loc_slice_relative(&[1, 3]), vec![0, 1, 4]);
    assert_eq!(cat.cgto_loc_slices_relative(&[[0, 2], [2, 3]]), vec![vec![0, 1, 2], vec![0, 3]]);
}

#[test]
fn full_and_sliced_two_center_shapes() {
    let cat = small();
    assert_eq!(cat.cgto_shape_s1(&TWO, &[[0, 3], [0, 3]]), Ok(vec![5, 5]));
    assert_eq!(cat.cgto_shape_s1(&TWO, &[[1, 3], [1, 3]]), Ok(vec![4, 4]));
    let full = cat.plan_s1(&TWO, &[[0, 3], [0, 3]]).unwrap();
    assert_eq!(full.out_len(), 25);
    let part = cat.plan_s1(&TWO, &[[1, 3], [1, 3]]).unwrap();
    assert_eq!(part.out_len(), 16);
    let (full_out, _) = run_dense(&cat, &full, &TWO);
    let (part_out, _) = run_dense(&cat, &part, &TWO);
    // the slice is the interior block out[1:5, 1:5] of the full tensor
    for j in 0..4 {
        for i in 0..4 {
            assert_eq!(part_out[i + 4 * j], full_out[(i + 1) + 5 * (j + 1)]);
        }
    }
}

#[test]
fn shell_sizes_per_representation() {
    let mut cat = catalog(vec![shell(0, 2, 2, 0), shell(0, 1, 1, -1), shell(0, 1, 3, 1)]);
    assert_eq!(cat.cgto_size_sph(0), 10);
    assert_eq!(cat.cgto_size_cart(0), 12);
    assert_eq!(cat.cgto_size_spinor(0), 20);
    assert_eq!(cat.cgto_size_spinor(1), 4);
    assert_eq!(cat.cgto_size_spinor(2), 6);
    cat.set_cint_type(&CintType::Cartesian);
    assert_eq!(cat.cint_type(), CintType::Cartesian);
    assert_eq!(cat.cgto_loc(), vec![0, 12, 15, 24]);
    cat.set_cint_type(&CintType::Spinor);
    assert_eq!(cat.cgto_loc(), vec![0, 20, 24, 30]);
}

#[test]
fn table_errors() {
    let atm = vec![vec![1, 20, 1, 23, 0, 0]];
    let mut cat = CINTR2CDATA::new();
    assert_eq!(
        cat.initial_r2c(&atm, 2, &vec![shell(0, 0, 1, 0)], 1),
        Err(TableError::CountMismatch { stated: 2, rows: 1 })
    );
    assert_eq!(
        cat.initial_r2c(&vec![vec![1, 20, 1]], 1, &vec![shell(0, 0, 1, 0)], 1),
        Err(TableError::RowLength { row: 0 })
    );
    assert_eq!(
        cat.initial_r2c(&atm, 1, &vec![shell(0, 0, 1, 0), vec![0, 1]], 2),
        Err(TableError::RowLength { row: 1 })
    );
    assert_eq!(
        cat.initial_r2c(&atm, 1, &vec![shell(0, 0, 1, 0), shell(0, -1, 1, 0)], 2),
        Err(TableError::NegativeShell { shell: 1 })
    );
    assert_eq!(
        cat.initial_r2c(&atm, 1, &vec![shell(0, 100000, 1, 0)], 1),
        Err(TableError::TooManyFunctions { shell: 0 })
    );
    assert_eq!(
        cat.initial_r2c(&atm, 1, &vec![shell(0, 0, 1, 0), shell(0, 1, 0x4000_0000, 0)], 2),
        Err(TableError::TooManyFunctions { shell: 1 })
    );
    // a refused table leaves the catalog as it was
    assert_eq!(cat.n_shells(), 0);
    assert_eq!(cat.initial_r2c(&atm, 1, &vec![shell(0, 0, 1, 0)], 1), Ok(()));
    assert_eq!(cat.n_shells(), 1);
    assert_eq!(cat.n_atoms(), 1);
}

#[test]
fn slice_errors() {
    let cat = small();
    let three = IntegralKind { n_center: 3, n_comp: 1 };
    assert_eq!(
        cat.check_shl_slices(&three, &[[0, 1], [0, 1]]),
        Err(SliceError::InvalidSliceCount { expected: 3, found: 2 })
    );
    assert_eq!(cat.check_shl_slices(&TWO, &[[0, 1], [2, 1]]), Err(SliceError::DescendingRange { start: 2, stop: 1 }));
    assert_eq!(
        cat.check_shl_slices(&TWO, &[[0, 4], [0, 1]]),
        Err(SliceError::OutOfBounds { start: 0, stop: 4, nbas: 3 })
    );
    assert_eq!(cat.check_shl_slices(&TWO, &[[-1, 1], [0, 1]]), Err(SliceError::NegativeIndex { start: -1, stop: 1 }));
    assert_eq!(cat.check_shl_slices(&TWO, &[[0, 3], [3, 3]]), Ok(()));
    assert!(matches!(cat.plan_s1(&TWO, &[[0, 3]]), Err(SliceError::InvalidSliceCount { expected: 2, found: 1 })));
}

#[test]
fn packed_request_with_different_pair_slices_is_refused() {
    let cat = small();
    let three = IntegralKind { n_center: 3, n_comp: 1 };
    let expected = SliceError::AsymmetricSlice { first_start: 0, first_stop: 2, second_start: 0, second_stop: 3 };
    assert_eq!(cat.cgto_shape_s2ij(&three, &[[0, 2], [0, 3], [0, 2]]), Err(expected));
    assert!(matches!(cat.plan_s2ij(&three, &[[0, 2], [0, 3], [0, 2]]), Err(e) if e == expected));
    assert_eq!(cat.cgto_shape_s2ij(&three, &[[0, 3], [0, 3], [0, 2]]), Ok(vec![15, 2]));
    let comp = IntegralKind { n_center: 3, n_comp: 3 };
    assert_eq!(cat.cgto_shape_s2ij(&comp, &[[1, 3], [1, 3], [2, 3]]), Ok(vec![10, 3]));
    assert_eq!(cat.cgto_shape_s1(&comp, &[[1, 3], [1, 3], [2, 3]]), Ok(vec![4, 4, 3, 3]));
}

#[test]
fn scratch_sizes() {
    let cat = mixed();
    // sizes 2, 3, 5, 1, 6
    assert_eq!(cat.size_of_buffer(&TWO, &[[0, 3], [3, 5]]), Some(5 * 6));
    let comp = IntegralKind { n_center: 2, n_comp: 3 };
    assert_eq!(cat.size_of_buffer(&comp, &[[0, 2], [3, 4]]), Some(3 * 3 * 1));
    assert_eq!(cat.size_of_buffer(&TWO, &[[0, 2], [1, 1]]), Some(0));
    let probe = [4usize, 9, 2, 7, 1];
    assert_eq!(cat.size_of_cache(&[[2, 2]], &probe), 0);
    assert_eq!(cat.size_of_cache(&[[2, 5]], &probe), 7);
    assert_eq!(cat.size_of_cache(&[], &probe), 9);
    assert_eq!(cat.cache_probe_range(&[[2, 4], [1, 3]]), (1, 4));
    assert_eq!(cat.cache_probe_range(&[]), (0, 5));
}

#[test]
fn cache_size_grows_with_the_slices() {
    let cat = mixed();
    let probe = [3usize, 8, 1, 12, 5];
    let need = |slices: &[[i32; 2]]| cat.size_of_cache(slices, &probe);
    assert_eq!(need(&[[1, 3]]), 8);
    assert_eq!(need(&[[1, 3], [2, 3]]), 8);
    assert_eq!(need(&[[1, 3], [2, 4]]), 12);
    assert!(need(&[[2, 3]]) <= need(&[[2, 3], [0, 1]]));
}

#[test]
fn dense_blocks_cover_the_output_once() {
    let cat = mixed();
    let cases: Vec<(IntegralKind, Vec<[i32; 2]>)> = vec![
        (IntegralKind { n_center: 2, n_comp: 1 }, vec![[0, 5], [1, 4]]),
        (IntegralKind { n_center: 2, n_comp: 3 }, vec![[0, 5], [0, 5]]),
        (IntegralKind { n_center: 3, n_comp: 1 }, vec![[1, 3], [0, 5], [2, 5]]),
        (IntegralKind { n_center: 3, n_comp: 2 }, vec![[0, 2], [3, 5], [0, 1]]),
        (IntegralKind { n_center: 4, n_comp: 1 }, vec![[0, 2], [1, 3], [2, 4], [3, 5]]),
        (IntegralKind { n_center: 4, n_comp: 3 }, vec![[0, 5], [4, 5], [0, 1], [1, 3]]),
    ];
    for (kind, slices) in cases {
        let plan = cat.plan_s1(&kind, &slices).unwrap();
        let (out, writes) = run_dense(&cat, &plan, &kind);
        assert!(writes.iter().all(|&n| n == 1));
        assert_eq!(out, expected_dense(&cat, &kind, &slices));
    }
}

#[test]
fn empty_shells_have_no_offset() {
    let cat = catalog(vec![shell(0, 0, 1, 0), shell(0, 1, 0, 0), shell(1, 0, 1, 0)]);
    let plan = cat.plan_s1(&TWO, &[[0, 3], [0, 3]]).unwrap();
    assert_eq!(plan.n_blocks(), 9);
    assert_eq!(plan.block(0), (vec![0, 0], Some(0)));
    assert_eq!(plan.block(1), (vec![1, 0], None));
    assert_eq!(plan.block(2), (vec![2, 0], Some(1)));
    assert_eq!(plan.block(8), (vec![2, 2], Some(3)));
}

/// Runs a packed call: scratch block from the stand-in kernel, then the copy.
fn run_packed(cat: &CINTR2CDATA, plan: &PackedPlan, kind: &IntegralKind) -> Vec<i64> {
    let loc = cat.cgto_loc();
    let mut out = vec![i64::MIN; plan.out_len()];
    for b in 0..plan.n_blocks() {
        let shls = match plan.block(b) {
            Some(s) => s,
            None => continue,
        };
        let sizes: Vec<usize> = shls.iter().map(|&s| cat.cgto_size(s)).collect();
        let n: usize = sizes.iter().product();
        let mut buf = vec![0i64; plan.block_len(b)];
        for c in 0..kind.n_comp {
            for flat in 0..n {
                let mut rem = flat;
                let mut p = vec![];
                for a in 0..sizes.len() {
                    p.push(loc[shls[a] as usize] + rem % sizes[a]);
                    rem /= sizes[a];
                }
                buf[flat + n * c] = value(&p, c);
            }
        }
        plan.write_block(&mut out, b, &buf);
    }
    out
}

#[test]
fn packed_output_is_the_dense_lower_triangle() {
    let cat = mixed();
    let cases: Vec<(IntegralKind, Vec<[i32; 2]>)> = vec![
        (IntegralKind { n_center: 2, n_comp: 1 }, vec![[0, 5], [0, 5]]),
        (IntegralKind { n_center: 2, n_comp: 2 }, vec![[1, 4], [1, 4]]),
        (IntegralKind { n_center: 3, n_comp: 1 }, vec![[0, 5], [0, 5], [2, 4]]),
        (IntegralKind { n_center: 3, n_comp: 3 }, vec![[1, 3], [1, 3], [0, 5]]),
        (IntegralKind { n_center: 4, n_comp: 1 }, vec![[0, 3], [0, 3], [1, 2], [3, 5]]),
        (IntegralKind { n_center: 4, n_comp: 2 }, vec![[2, 5], [2, 5], [0, 2], [4, 5]]),
    ];
    for (kind, slices) in cases {
        let dense = expected_dense(&cat, &kind, &slices);
        let plan = cat.plan_s2ij(&kind, &slices).unwrap();
        let out = run_packed(&cat, &plan, &kind);
        let loc = cat.cgto_loc();
        let dims: Vec<usize> = slices.iter().map(|s| loc[s[1] as usize] - loc[s[0] as usize]).collect();
        let pairs = dims[0] * (dims[0] + 1) / 2;
        let rest: usize = dims[2..].iter().product();
        assert_eq!(out.len(), pairs * rest * kind.n_comp);
        let total: usize = dims.iter().product();
        for c in 0..kind.n_comp {
            for r in 0..rest {
                for q in 0..dims[0] {
                    for p in 0..=q {
                        let packed = p + q * (q + 1) / 2 + pairs * (r + rest * c);
                        let full = p + dims[0] * (q + dims[1] * r) + total * c;
                        assert_eq!(out[packed], dense[full]);
                    }
                }
            }
        }
    }
}

#[test]
fn repeated_calls_give_identical_output() {
    let cat = mixed();
    let kind = IntegralKind { n_center: 3, n_comp: 2 };
    let slices = [[0, 4], [0, 4], [1, 5]];
    let first = run_packed(&cat, &cat.plan_s2ij(&kind, &slices).unwrap(), &kind);
    let second = run_packed(&cat, &cat.plan_s2ij(&kind, &slices).unwrap(), &kind);
    assert_eq!(first, second);
    let dense = cat.plan_s1(&kind, &slices).unwrap();
    let again = cat.plan_s1(&kind, &slices).unwrap();
    for b in 0..dense.n_blocks() {
        assert_eq!(dense.block(b), again.block(b));
    }
}

#[test]
fn auxiliary_shells_follow_the_ordinary_ones() {
    let atm = vec![vec![1, 20, 1, 23, 0, 0]];
    let bas = vec![shell(0, 0, 1, 0), shell(0, 1, 1, 0)];
    let ecp = vec![vec![0, -1, 2, 2, 0, 30, 32, 0]];
    let mut cat = CINTR2CDATA::new();
    assert_eq!(cat.initial_r2c_with_ecp(&atm, 1, &bas, 2, &ecp, 2), Err(TableError::CountMismatch { stated: 2, rows: 1 }));
    assert_eq!(cat.initial_r2c_with_ecp(&atm, 1, &bas, 2, &vec![vec![0, 1]], 1), Err(TableError::RowLength { row: 0 }));
    assert_eq!(cat.initial_r2c_with_ecp(&atm, 1, &bas, 2, &ecp, 1), Ok(()));
    assert_eq!(cat.n_shells(), 2);
    assert_eq!(cat.n_ecp_shells(), 1);
    let data = ECPData::from_cint_data(&cat);
    assert_eq!(data.ecp_slots(), (2, 1));
    assert_eq!(data.n_kernel_shells(), 3);
    let mut all: Vec<i32> = bas.concat();
    all.extend(ecp[0].iter());
    assert_eq!(data.kernel_shells(), &all);
    assert_eq!(data.kernel_atoms(), &atm.concat());
    let empty = ECPData::new();
    assert_eq!(empty.ecp_slots(), (0, 0));
}

#[test]
fn element_sizes_follow_the_representation() {
    let mut cat = small();
    assert_eq!(cat.check_float_type(8), Ok(()));
    assert_eq!(
        cat.check_float_type(16),
        Err(ElementError { cint_type: CintType::Spheric, expected: 8, given: 16 })
    );
    cat.set_cint_type(&CintType::Spinor);
    assert_eq!(cat.check_float_type(16), Ok(()));
    assert_eq!(cat.check_float_type(8), Err(ElementError { cint_type: CintType::Spinor, expected: 16, given: 8 }));
}

#[test]
fn packed_slice_is_part_of_the_full_packed_tensor() {
    let cat = mixed();
    let kind = IntegralKind { n_center: 3, n_comp: 2 };
    let loc = cat.cgto_loc();
    let full_slices = [[0, 5], [0, 5], [0, 5]];
    let part_slices = [[1, 3], [1, 3], [2, 4]];
    let full = run_packed(&cat, &cat.plan_s2ij(&kind, &full_slices).unwrap(), &kind);
    let part = run_packed(&cat, &cat.plan_s2ij(&kind, &part_slices).unwrap(), &kind);
    let n_full = loc[5];
    let (l0, n0) = (loc[1], loc[3] - loc[1]);
    let (l2, n2) = (loc[2], loc[4] - loc[2]);
    let pairs_full = n_full * (n_full + 1) / 2;
    let pairs_part = n0 * (n0 + 1) / 2;
    for c in 0..2 {
        for r in 0..n2 {
            for q in 0..n0 {
                for p in 0..=q {
                    let at_part = p + q * (q + 1) / 2 + pairs_part * (r + n2 * c);
                    let (pf, qf, rf) = (p + l0, q + l0, r + l2);
                    let at_full = pf + qf * (qf + 1) / 2 + pairs_full * (rf + n_full * c);
                    assert_eq!(part[at_part], full[at_full]);
                }
            }
        }
    }
}

#[test]
fn block_lengths_over_given_shells() {
    let cat = mixed();
    // sizes 2, 3, 5, 1, 6
    let three = IntegralKind { n_center: 3, n_comp: 3 };
    assert_eq!(cat.block_len_of(&three, &[0, 2, 4]), Ok(3 * 2 * 5 * 6));
    assert_eq!(cat.block_len_of(&TWO, &[1, 1]), Ok(9));
    assert_eq!(cat.block_len_of(&TWO, &[1]), Err(SliceError::InvalidSliceCount { expected: 2, found: 1 }));
    assert_eq!(cat.block_len_of(&TWO, &[1, 5]), Err(SliceError::ShellOutOfRange { shell: 5, nbas: 5 }));
    assert_eq!(cat.block_len_of(&TWO, &[-1, 7]), Err(SliceError::ShellOutOfRange { shell: -1, nbas: 5 }));
}

#[test]
fn packed_blocks_write_each_position_once_in_any_order() {
    let cat = mixed();
    let kind = IntegralKind { n_center: 3, n_comp: 2 };
    let slices = [[0, 5], [0, 5], [1, 3]];
    let plan = cat.plan_s2ij(&kind, &slices).unwrap();
    let loc = cat.cgto_loc();
    let stored: Vec<usize> = (0..plan.n_blocks()).filter(|&b| plan.block(b).is_some()).collect();
    let mut forward = vec![i64::MIN; plan.out_len()];
    let mut backward = vec![i64::MIN; plan.out_len()];
    let mut count = vec![0u32; plan.out_len()];
    for (round, order) in [stored.clone(), stored.iter().rev().cloned().collect()].iter().enumerate() {
        for &b in order {
            let shls = plan.block(b).unwrap();
            let sizes: Vec<usize> = shls.iter().map(|&s| cat.cgto_size(s)).collect();
            let n: usize = sizes.iter().product();
            let mut buf = vec![0i64; plan.block_len(b)];
            for c in 0..kind.n_comp {
                for flat in 0..n {
                    let mut rem = flat;
                    let mut p = vec![];
                    for a in 0..sizes.len() {
                        p.push(loc[shls[a] as usize] + rem % sizes[a]);
                        rem /= sizes[a];
                    }
                    buf[flat + n * c] = value(&p, c);
                }
            }
            if round == 0 {
                let before = forward.clone();
                plan.write_block(&mut forward, b, &buf);
                for k in 0..before.len() {
                    if before[k] != forward[k] {
                        count[k] += 1;
                    }
                }
            } else {
                plan.write_block(&mut backward, b, &buf);
            }
        }
    }
    assert!(count.iter().all(|&n| n == 1));
    assert_eq!(forward, backward);
}

#[test]
fn in_place_blocks_land_in_the_sub_region() {
    let cat = mixed();
    let kind = IntegralKind { n_center: 3, n_comp: 2 };
    let slices = [[1, 3], [0, 2], [3, 5]];
    let plan = cat.plan_s1(&kind, &slices).unwrap();
    let loc = cat.cgto_loc();
    let ext: Vec<usize> = slices.iter().map(|s| loc[s[1] as usize] - loc[s[0] as usize]).collect();
    let outer = [ext[0] + 3, ext[1] + 1, ext[2] + 2];
    let origin = [2usize, 1, 0];
    let total: usize = outer.iter().product();
    let mut out = vec![-1i64; total * kind.n_comp];
    for b in 0..plan.n_blocks() {
        let (shls, offset) = plan.block_in(b, &outer, &origin);
        let offset = match offset {
            Some(o) => o,
            None => continue,
        };
        let sizes: Vec<usize> = shls.iter().map(|&s| cat.cgto_size(s)).collect();
        let n: usize = sizes.iter().product();
        for c in 0..kind.n_comp {
            for flat in 0..n {
                let mut rem = flat;
                let mut pos = 0usize;
                let mut stride = 1usize;
                let mut p = vec![];
                for a in 0..3 {
                    let i = rem % sizes[a];
                    rem /= sizes[a];
                    pos += stride * i;
                    stride *= outer[a];
                    p.push(loc[shls[a] as usize] + i);
                }
                let at = offset + pos + total * c;
                assert_eq!(out[at], -1);
                out[at] = value(&p, c);
            }
        }
    }
    let dense = expected_dense(&cat, &kind, &slices);
    let inner: usize = ext.iter().product();
    for c in 0..kind.n_comp {
        for z in 0..outer[2] {
            for y in 0..outer[1] {
                for x in 0..outer[0] {
                    let at = x + outer[0] * (y + outer[1] * z) + total * c;
                    let inside = x >= origin[0] && x < origin[0] + ext[0] && y >= origin[1] && y < origin[1] + ext[1] && z >= origin[2] && z < origin[2] + ext[2];
                    if inside {
                        let (i, j, k) = (x - origin[0], y - origin[1], z - origin[2]);
                        assert_eq!(out[at], dense[i + ext[0] * (j + ext[1] * k) + inner * c]);
                    } else {
                        assert_eq!(out[at], -1);
                    }
                }
            }
        }
    }
}
