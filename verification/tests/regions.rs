use ndcopy::ndshape::{ConstShape2u32, ConstShape3u32, ConstShape4u32};
use ndcopy::{
    copy2, copy3, copy4, fill2, fill3, fill4, RuntimeShape2, RuntimeShape3, RuntimeShape4,
};

const UNTOUCHED: u32 = u32::MAX;

fn counting(len: usize) -> Vec<u32> {
    (0..len as u32).collect()
}

#[test]
fn copy2_moves_each_cell_and_nothing_else() {
    let src = counting(10 * 11);
    let mut dst = vec![UNTOUCHED; 11 * 12];
    copy2(
        [2, 3],
        &src,
        &ConstShape2u32::<10, 11>,
        [3, 4],
        &mut dst,
        &ConstShape2u32::<11, 12>,
        [4, 5],
    );
    let mut expected = vec![UNTOUCHED; 11 * 12];
    for j in 0..3 {
        for i in 0..2 {
            expected[(4 + i) + 11 * (5 + j)] = ((3 + i) + 10 * (4 + j)) as u32;
        }
    }
    assert_eq!(dst, expected);
    assert_eq!(dst[4 + 11 * 5], 43);
    assert_eq!(dst[5 + 11 * 7], 64);
    assert_eq!(src, counting(10 * 11));
}

#[test]
fn copy3_moves_each_cell_and_nothing_else() {
    let src = counting(10 * 11 * 12);
    let mut dst = vec![UNTOUCHED; 11 * 12 * 13];
    copy3(
        [2, 3, 4],
        &src,
        &ConstShape3u32::<10, 11, 12>,
        [3, 4, 5],
        &mut dst,
        &ConstShape3u32::<11, 12, 13>,
        [4, 5, 6],
    );
    let mut expected = vec![UNTOUCHED; 11 * 12 * 13];
    for k in 0..4 {
        for j in 0..3 {
            for i in 0..2 {
                expected[(4 + i) + 11 * (5 + j) + 11 * 12 * (6 + k)] =
                    ((3 + i) + 10 * (4 + j) + 10 * 11 * (5 + k)) as u32;
            }
        }
    }
    assert_eq!(dst, expected);
    assert_eq!(dst[4 + 11 * 5 + 132 * 6], 3 + 40 + 550);
    assert_eq!(dst[5 + 11 * 7 + 132 * 9], 4 + 60 + 880);
}

#[test]
fn copy4_moves_each_cell_and_nothing_else() {
    let src = counting(10 * 11 * 12 * 13);
    let mut dst = vec![UNTOUCHED; 11 * 12 * 13 * 14];
    copy4(
        [2, 3, 4, 5],
        &src,
        &ConstShape4u32::<10, 11, 12, 13>,
        [3, 4, 5, 6],
        &mut dst,
        &ConstShape4u32::<11, 12, 13, 14>,
        [4, 5, 6, 7],
    );
    let mut expected = vec![UNTOUCHED; 11 * 12 * 13 * 14];
    for l in 0..5 {
        for k in 0..4 {
            for j in 0..3 {
                for i in 0..2 {
                    expected[(4 + i) + 11 * (5 + j) + 11 * 12 * (6 + k) + 11 * 12 * 13 * (7 + l)] =
                        ((3 + i) + 10 * (4 + j) + 10 * 11 * (5 + k) + 10 * 11 * 12 * (6 + l)) as u32;
                }
            }
        }
    }
    assert_eq!(dst, expected);
    assert_eq!(dst[4 + 55 + 792 + 12012], 3 + 40 + 550 + 7920);
    assert_eq!(dst[5 + 77 + 1188 + 18876], 4 + 60 + 880 + 13200);
}

#[test]
fn fill2_writes_each_cell_and_nothing_else() {
    let mut dst = vec![UNTOUCHED; 11 * 12];
    fill2([2, 3], 7u32, &mut dst, &ConstShape2u32::<11, 12>, [4, 5]);
    let mut expected = vec![UNTOUCHED; 11 * 12];
    for j in 0..3 {
        for i in 0..2 {
            expected[(4 + i) + 11 * (5 + j)] = 7;
        }
    }
    assert_eq!(dst, expected);
    assert_eq!(dst.iter().filter(|&&v| v == 7).count(), 6);
}

#[test]
fn fill3_writes_each_cell_and_nothing_else() {
    let mut dst = vec![UNTOUCHED; 11 * 12 * 13];
    fill3([2, 3, 4], 7u32, &mut dst, &ConstShape3u32::<11, 12, 13>, [4, 5, 6]);
    let mut expected = vec![UNTOUCHED; 11 * 12 * 13];
    for k in 0..4 {
        for j in 0..3 {
            for i in 0..2 {
                expected[(4 + i) + 11 * (5 + j) + 132 * (6 + k)] = 7;
            }
        }
    }
    assert_eq!(dst, expected);
    assert_eq!(dst.iter().filter(|&&v| v == 7).count(), 24);
}

#[test]
fn fill4_writes_each_cell_and_nothing_else() {
    let mut dst = vec![UNTOUCHED; 11 * 12 * 13 * 14];
    fill4(
        [2, 3, 4, 5],
        7u32,
        &mut dst,
        &ConstShape4u32::<11, 12, 13, 14>,
        [4, 5, 6, 7],
    );
    let mut expected = vec![UNTOUCHED; 11 * 12 * 13 * 14];
    for l in 0..5 {
        for k in 0..4 {
            for j in 0..3 {
                for i in 0..2 {
                    expected[(4 + i) + 11 * (5 + j) + 132 * (6 + k) + 1716 * (7 + l)] = 7;
                }
            }
        }
    }
    assert_eq!(dst, expected);
    assert_eq!(dst.iter().filter(|&&v| v == 7).count(), 120);
}

#[test]
fn copy2_with_an_empty_axis_changes_nothing() {
    let src = counting(10 * 11);
    let before = counting(11 * 12);
    for extent in [[0, 3], [2, 0], [0, 0]] {
        let mut dst = before.clone();
        copy2(
            extent,
            &src,
            &ConstShape2u32::<10, 11>,
            [3, 4],
            &mut dst,
            &ConstShape2u32::<11, 12>,
            [4, 5],
        );
        assert_eq!(dst, before);
    }
}

#[test]
fn copy2_with_an_empty_axis_accepts_any_start() {
    let src = counting(10 * 11);
    let before = counting(11 * 12);
    for extent in [[0, 3], [2, 0]] {
        let mut dst = before.clone();
        copy2(
            extent,
            &src,
            &ConstShape2u32::<10, 11>,
            [4_000_000_000, 4_000_000_000],
            &mut dst,
            &ConstShape2u32::<11, 12>,
            [u32::MAX, u32::MAX],
        );
        assert_eq!(dst, before);
    }
}

#[test]
fn copy3_with_an_empty_axis_changes_nothing() {
    let src = counting(10 * 11 * 12);
    let before = counting(11 * 12 * 13);
    for extent in [[0, 3, 4], [2, 0, 4], [2, 3, 0]] {
        let mut dst = before.clone();
        copy3(
            extent,
            &src,
            &ConstShape3u32::<10, 11, 12>,
            [3, 4, 5],
            &mut dst,
            &ConstShape3u32::<11, 12, 13>,
            [4, 5, 6],
        );
        assert_eq!(dst, before);
    }
}

#[test]
fn copy4_with_an_empty_axis_changes_nothing() {
    let src = counting(4 * 5 * 6 * 7);
    let before = counting(5 * 6 * 7 * 8);
    for extent in [[0, 2, 2, 2], [2, 0, 2, 2], [2, 2, 0, 2], [2, 2, 2, 0]] {
        let mut dst = before.clone();
        copy4(
            extent,
            &src,
            &ConstShape4u32::<4, 5, 6, 7>,
            [1, 1, 1, 1],
            &mut dst,
            &ConstShape4u32::<5, 6, 7, 8>,
            [2, 2, 2, 2],
        );
        assert_eq!(dst, before);
    }
}

#[test]
fn fill_with_an_empty_axis_changes_nothing() {
    let before2 = counting(11 * 12);
    for extent in [[0, 3], [2, 0]] {
        let mut dst = before2.clone();
        fill2(extent, 7, &mut dst, &ConstShape2u32::<11, 12>, [4, 5]);
        assert_eq!(dst, before2);
        fill2(extent, 7, &mut dst, &ConstShape2u32::<11, 12>, [u32::MAX, u32::MAX]);
        assert_eq!(dst, before2);
    }
    let before3 = counting(11 * 12 * 13);
    for extent in [[0, 3, 4], [2, 0, 4], [2, 3, 0]] {
        let mut dst = before3.clone();
        fill3(extent, 7, &mut dst, &ConstShape3u32::<11, 12, 13>, [4, 5, 6]);
        assert_eq!(dst, before3);
    }
    let before4 = counting(5 * 6 * 7 * 8);
    for extent in [[0, 2, 2, 2], [2, 0, 2, 2], [2, 2, 0, 2], [2, 2, 2, 0]] {
        let mut dst = before4.clone();
        fill4(extent, 7, &mut dst, &ConstShape4u32::<5, 6, 7, 8>, [2, 2, 2, 2]);
        assert_eq!(dst, before4);
    }
}

#[test]
fn copy2_of_the_whole_array() {
    let src = counting(4 * 3);
    let mut dst = vec![UNTOUCHED; 4 * 3];
    copy2(
        [4, 3],
        &src,
        &ConstShape2u32::<4, 3>,
        [0, 0],
        &mut dst,
        &ConstShape2u32::<4, 3>,
        [0, 0],
    );
    assert_eq!(dst, src);
}

#[test]
fn copy2_into_the_last_corner() {
    let src = counting(4 * 3);
    let mut dst = vec![UNTOUCHED; 5 * 6];
    copy2(
        [2, 2],
        &src,
        &ConstShape2u32::<4, 3>,
        [2, 1],
        &mut dst,
        &ConstShape2u32::<5, 6>,
        [3, 4],
    );
    let mut expected = vec![UNTOUCHED; 5 * 6];
    expected[3 + 5 * 4] = 2 + 4 * 1;
    expected[4 + 5 * 4] = 3 + 4 * 1;
    expected[3 + 5 * 5] = 2 + 4 * 2;
    expected[4 + 5 * 5] = 3 + 4 * 2;
    assert_eq!(dst, expected);
}

#[test]
fn copy2_does_not_depend_on_the_shapes() {
    let src_a = counting(10 * 11);
    let mut dst_a = vec![UNTOUCHED; 11 * 12];
    copy2(
        [2, 3],
        &src_a,
        &ConstShape2u32::<10, 11>,
        [3, 4],
        &mut dst_a,
        &ConstShape2u32::<11, 12>,
        [4, 5],
    );
    // the same values at the same coordinates of the region, in a buffer of another shape
    let mut src_b = vec![0u32; 7 * 5];
    for j in 0..3 {
        for i in 0..2 {
            src_b[(1 + i) + 7 * (2 + j)] = src_a[(3 + i) + 10 * (4 + j)];
        }
    }
    let mut dst_b = vec![UNTOUCHED; 3 * 20];
    copy2(
        [2, 3],
        &src_b,
        &ConstShape2u32::<7, 5>,
        [1, 2],
        &mut dst_b,
        &ConstShape2u32::<3, 20>,
        [0, 17],
    );
    for j in 0..3 {
        for i in 0..2 {
            assert_eq!(dst_a[(4 + i) + 11 * (5 + j)], dst_b[i + 3 * (17 + j)]);
        }
    }
    assert_eq!(dst_b[1 + 3 * 19], 4 + 10 * 6);
}

#[test]
fn copy3_does_not_depend_on_the_shapes() {
    let src = counting(10 * 11 * 12);
    let mut dst_a = vec![UNTOUCHED; 11 * 12 * 13];
    let mut dst_b = vec![UNTOUCHED; 2 * 3 * 4];
    copy3(
        [2, 3, 4],
        &src,
        &ConstShape3u32::<10, 11, 12>,
        [3, 4, 5],
        &mut dst_a,
        &ConstShape3u32::<11, 12, 13>,
        [4, 5, 6],
    );
    copy3(
        [2, 3, 4],
        &src,
        &ConstShape3u32::<10, 11, 12>,
        [3, 4, 5],
        &mut dst_b,
        &ConstShape3u32::<2, 3, 4>,
        [0, 0, 0],
    );
    for k in 0..4 {
        for j in 0..3 {
            for i in 0..2 {
                assert_eq!(
                    dst_a[(4 + i) + 11 * (5 + j) + 132 * (6 + k)],
                    dst_b[i + 2 * j + 6 * k]
                );
            }
        }
    }
}

#[test]
fn copy4_does_not_depend_on_the_shapes() {
    let src = counting(4 * 5 * 6 * 7);
    let mut dst_a = vec![UNTOUCHED; 5 * 6 * 7 * 8];
    let mut dst_b = vec![UNTOUCHED; 2 * 2 * 2 * 2];
    copy4(
        [2, 2, 2, 2],
        &src,
        &ConstShape4u32::<4, 5, 6, 7>,
        [1, 2, 3, 4],
        &mut dst_a,
        &ConstShape4u32::<5, 6, 7, 8>,
        [2, 3, 4, 5],
    );
    copy4(
        [2, 2, 2, 2],
        &src,
        &ConstShape4u32::<4, 5, 6, 7>,
        [1, 2, 3, 4],
        &mut dst_b,
        &ConstShape4u32::<2, 2, 2, 2>,
        [0, 0, 0, 0],
    );
    for l in 0..2 {
        for k in 0..2 {
            for j in 0..2 {
                for i in 0..2 {
                    assert_eq!(
                        dst_a[(2 + i) + 5 * (3 + j) + 30 * (4 + k) + 210 * (5 + l)],
                        dst_b[i + 2 * j + 4 * k + 8 * l]
                    );
                }
            }
        }
    }
    assert_eq!(dst_b[0], 1 + 4 * 2 + 20 * 3 + 120 * 4);
    assert_eq!(dst_b[15], 2 + 4 * 3 + 20 * 4 + 120 * 5);
}

#[test]
fn copy2_clones_elements_that_are_not_copy() {
    let src: Vec<String> = (0..12).map(|n| format!("cell {}", n)).collect();
    let mut dst: Vec<String> = vec![String::new(); 20];
    copy2(
        [2, 2],
        &src,
        &ConstShape2u32::<4, 3>,
        [1, 1],
        &mut dst,
        &ConstShape2u32::<5, 4>,
        [3, 2],
    );
    assert_eq!(dst[3 + 5 * 2], "cell 5");
    assert_eq!(dst[4 + 5 * 2], "cell 6");
    assert_eq!(dst[3 + 5 * 3], "cell 9");
    assert_eq!(dst[4 + 5 * 3], "cell 10");
    assert_eq!(dst.iter().filter(|s| s.is_empty()).count(), 16);
    assert_eq!(src[5], "cell 5");
}

#[test]
fn fill3_clones_elements_that_are_not_copy() {
    let mut dst: Vec<Vec<u8>> = vec![Vec::new(); 2 * 3 * 4];
    fill3(
        [1, 2, 2],
        vec![1u8, 2, 3],
        &mut dst,
        &ConstShape3u32::<2, 3, 4>,
        [1, 1, 2],
    );
    for (k, j) in [(2, 1), (2, 2), (3, 1), (3, 2)] {
        assert_eq!(dst[1 + 2 * j + 6 * k], vec![1u8, 2, 3]);
    }
    assert_eq!(dst.iter().filter(|v| v.is_empty()).count(), 20);
}

#[test]
fn runtime_shapes_copy_as_const_shapes_do() {
    let src = counting(10 * 11);
    let mut by_const = vec![UNTOUCHED; 11 * 12];
    let mut by_runtime = vec![UNTOUCHED; 11 * 12];
    copy2(
        [2, 3],
        &src,
        &ConstShape2u32::<10, 11>,
        [3, 4],
        &mut by_const,
        &ConstShape2u32::<11, 12>,
        [4, 5],
    );
    copy2(
        [2, 3],
        &src,
        &RuntimeShape2::new([10, 11]).unwrap(),
        [3, 4],
        &mut by_runtime,
        &RuntimeShape2::new([11, 12]).unwrap(),
        [4, 5],
    );
    assert_eq!(by_const, by_runtime);
    assert_eq!(by_runtime[5 + 11 * 7], 64);
}

#[test]
fn runtime_shapes_of_three_and_four_axes() {
    let src = counting(10 * 11 * 12);
    let mut dst = vec![UNTOUCHED; 11 * 12 * 13];
    copy3(
        [2, 3, 4],
        &src,
        &RuntimeShape3::new([10, 11, 12]).unwrap(),
        [3, 4, 5],
        &mut dst,
        &RuntimeShape3::new([11, 12, 13]).unwrap(),
        [4, 5, 6],
    );
    assert_eq!(dst[5 + 11 * 7 + 132 * 9], 4 + 60 + 880);
    assert_eq!(dst.iter().filter(|&&v| v != UNTOUCHED).count(), 24);

    let mut dst = vec![UNTOUCHED; 5 * 6 * 7 * 8];
    fill4(
        [2, 2, 2, 2],
        9u32,
        &mut dst,
        &RuntimeShape4::new([5, 6, 7, 8]).unwrap(),
        [2, 3, 4, 5],
    );
    assert_eq!(dst[3 + 5 * 4 + 30 * 5 + 210 * 6], 9);
    assert_eq!(dst[2 + 5 * 3 + 30 * 4 + 210 * 5], 9);
    assert_eq!(dst.iter().filter(|&&v| v == 9).count(), 16);
}
