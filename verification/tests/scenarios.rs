use ndcopy::ndshape::{ConstShape2u32, ConstShape3u32, ConstShape4u32, Shape};
use ndcopy::{copy2, copy3, copy4, fill2, fill3, fill4};

#[test]
fn test_copy2() {
    let src_shape = ConstShape2u32::<10, 11>;
    const SRC_SIZE: usize = 10 * 11;
    let src = [1; SRC_SIZE];
    let dst_shape = ConstShape2u32::<11, 12>;
    const DST_SIZE: usize = 11 * 12;
    let mut dst = [0; DST_SIZE];

    copy2(
        [2, 3],
        &src,
        &src_shape,
        [3, 4],
        &mut dst,
        &dst_shape,
        [4, 5],
    );

    for y in 5..5 + 3 {
        for x in 4..4 + 2 {
            let i = dst_shape.linearize([x, y]) as usize;
            assert_eq!(1, dst[i]);
            dst[i] = 0;
        }
    }
    for i in 0..DST_SIZE {
        assert_eq!(dst[i], 0);
    }
}

#[test]
fn test_fill2() {
    let dst_shape = ConstShape2u32::<11, 12>;
    const DST_SIZE: usize = 11 * 12;
    let mut dst = [0; DST_SIZE];

    fill2([2, 3], 1, &mut dst, &dst_shape, [4, 5]);

    for y in 5..5 + 3 {
        for x in 4..4 + 2 {
            let i = dst_shape.linearize([x, y]) as usize;
            assert_eq!(1, dst[i]);
            dst[i] = 0;
        }
    }
    for i in 0..DST_SIZE {
        assert_eq!(dst[i], 0);
    }
}

#[test]
fn test_copy3() {
    let src_shape = ConstShape3u32::<10, 11, 12>;
    const SRC_SIZE: usize = 10 * 11 * 12;
    let src = [1; SRC_SIZE];

    let dst_shape = ConstShape3u32::<11, 12, 13>;
    const DST_SIZE: usize = 11 * 12 * 13;
    let mut dst = [0; DST_SIZE];

    copy3(
        [2, 3, 4],
        &src,
        &src_shape,
        [3, 4, 5],
        &mut dst,
        &dst_shape,
        [4, 5, 6],
    );

    for z in 6..6 + 4 {
        for y in 5..5 + 3 {
            for x in 4..4 + 2 {
                let i = dst_shape.linearize([x, y, z]) as usize;
                assert_eq!(1, dst[i]);
                dst[i] = 0;
            }
        }
    }
    for i in 0..DST_SIZE {
        assert_eq!(dst[i], 0);
    }
}

#[test]
fn test_fill3() {
    let dst_shape = ConstShape3u32::<11, 12, 13>;
    const DST_SIZE: usize = 11 * 12 * 13;
    let mut dst = [0; DST_SIZE];

    fill3([2, 3, 4], 1, &mut dst, &dst_shape, [4, 5, 6]);

    for z in 6..6 + 4 {
        for y in 5..5 + 3 {
            for x in 4..4 + 2 {
                let i = dst_shape.linearize([x, y, z]) as usize;
                assert_eq!(1, dst[i]);
                dst[i] = 0;
            }
        }
    }
    for i in 0..DST_SIZE {
        assert_eq!(dst[i], 0);
    }
}

#[test]
fn test_copy4() {
    let src_shape = ConstShape4u32::<10, 11, 12, 13>;
    const SRC_SIZE: usize = 10 * 11 * 12 * 13;
    let src = [1; SRC_SIZE];

    let dst_shape = ConstShape4u32::<11, 12, 13, 14>;
    const DST_SIZE: usize = 11 * 12 * 13 * 14;
    let mut dst = [0; DST_SIZE];

    copy4(
        [2, 3, 4, 5],
        &src,
        &src_shape,
        [3, 4, 5, 6],
        &mut dst,
        &dst_shape,
        [4, 5, 6, 7],
    );

    for w in 7..7 + 5 {
        for z in 6..6 + 4 {
            for y in 5..5 + 3 {
                for x in 4..4 + 2 {
                    let i = dst_shape.linearize([x, y, z, w]) as usize;
                    assert_eq!(1, dst[i]);
                    dst[i] = 0;
                }
            }
        }
    }
    for i in 0..DST_SIZE {
        assert_eq!(dst[i], 0);
    }
}

#[test]
fn test_fill4() {
    let dst_shape = ConstShape4u32::<11, 12, 13, 14>;
    const DST_SIZE: usize = 11 * 12 * 13 * 14;
    let mut dst = [0; DST_SIZE];

    fill4([2, 3, 4, 5], 1, &mut dst, &dst_shape, [4, 5, 6, 7]);

    for w in 7..7 + 5 {
        for z in 6..6 + 4 {
            for y in 5..5 + 3 {
                for x in 4..4 + 2 {
                    let i = dst_shape.linearize([x, y, z, w]) as usize;
                    assert_eq!(1, dst[i]);
                    dst[i] = 0;
                }
            }
        }
    }
    for i in 0..DST_SIZE {
        assert_eq!(dst[i], 0);
    }
}
