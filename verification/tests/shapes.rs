use ndcopy::ndshape::{ConstShape2u32, ConstShape3u32, ConstShape4u32};
use ndcopy::{
    checked_copy2, checked_copy3, checked_copy4, checked_fill2, checked_fill3, checked_fill4,
    Bounded2, Bounded3, Bounded4, OutOfBounds, RuntimeShape2, RuntimeShape3, RuntimeShape4, Shape2,
    Shape3, Shape4,
};

#[test]
fn const_shapes_linearize_row_major() {
    assert_eq!(Shape2::linearize(&ConstShape2u32::<10, 11>, [4, 3]), 34);
    assert_eq!(Shape3::linearize(&ConstShape3u32::<5, 6, 7>, [1, 2, 3]), 101);
    assert_eq!(Shape4::linearize(&ConstShape4u32::<5, 6, 7, 8>, [1, 2, 3, 4]), 941);
    assert_eq!(Shape2::linearize(&ConstShape2u32::<10, 11>, [0, 0]), 0);
    assert_eq!(Shape4::linearize(&ConstShape4u32::<5, 6, 7, 8>, [4, 5, 6, 7]), 1679);
}

#[test]
fn runtime_shapes_linearize_row_major() {
    assert_eq!(RuntimeShape2::new([10, 11]).unwrap().linearize([4, 3]), 34);
    assert_eq!(RuntimeShape3::new([5, 6, 7]).unwrap().linearize([1, 2, 3]), 101);
    assert_eq!(RuntimeShape4::new([5, 6, 7, 8]).unwrap().linearize([1, 2, 3, 4]), 941);
    assert_eq!(RuntimeShape3::new([5, 6, 7]).unwrap().linearize([0, 0, 0]), 0);
    assert_eq!(RuntimeShape3::new([5, 6, 7]).unwrap().linearize([4, 5, 6]), 209);
}

#[test]
fn runtime_shapes_must_be_countable() {
    assert!(RuntimeShape2::new([65535, 65537]).is_some());
    assert!(RuntimeShape2::new([65536, 65536]).is_none());
    assert!(RuntimeShape2::new([0, u32::MAX]).is_some());
    assert!(RuntimeShape3::new([1 << 16, 1 << 15, 1]).is_some());
    assert!(RuntimeShape3::new([1 << 16, 1 << 15, 2]).is_none());
    assert!(RuntimeShape3::new([1 << 16, 1 << 16, 0]).is_none());
    assert!(RuntimeShape4::new([256, 256, 256, 255]).is_some());
    assert!(RuntimeShape4::new([256, 256, 256, 256]).is_none());
    assert!(RuntimeShape4::new([1 << 16, 1 << 16, 0, 0]).is_none());
    assert_eq!(RuntimeShape4::new([5, 6, 7, 8]).unwrap().as_array(), [5, 6, 7, 8]);
    assert_eq!(RuntimeShape3::new([5, 6, 7]).unwrap().as_array(), [5, 6, 7]);
    assert_eq!(RuntimeShape2::new([5, 6]).unwrap().as_array(), [5, 6]);
}

#[test]
fn fits_tells_regions_within_from_regions_beyond() {
    let shape = ConstShape2u32::<10, 11>;
    assert!(shape.fits([3, 4], [2, 3], 110));
    assert!(shape.fits([0, 0], [10, 11], 110));
    assert!(!shape.fits([0, 0], [11, 11], 1000));
    assert!(!shape.fits([0, 0], [10, 12], 1000));
    assert!(!shape.fits([9, 4], [2, 3], 110));
    assert!(!shape.fits([3, 9], [2, 3], 110));
    // the last cell of the region is at offset 4 + 10 * 6
    assert!(shape.fits([3, 4], [2, 3], 65));
    assert!(!shape.fits([3, 4], [2, 3], 64));
    // an empty region fits anywhere
    assert!(shape.fits([100, 100], [0, 3], 0));
    assert!(shape.fits([u32::MAX, u32::MAX], [2, 0], 0));
    // coordinates past u32::MAX
    assert!(!shape.fits([u32::MAX, 0], [2, 1], 110));
    assert!(!shape.fits([0, u32::MAX], [1, u32::MAX], 110));
}

#[test]
fn fits_in_three_and_four_dimensions() {
    let shape = ConstShape3u32::<5, 6, 7>;
    assert!(shape.fits([0, 0, 0], [5, 6, 7], 210));
    assert!(!shape.fits([0, 0, 0], [5, 6, 7], 209));
    assert!(!shape.fits([0, 0, 0], [5, 6, 8], 1000));
    assert!(!shape.fits([1, 0, 0], [5, 1, 1], 1000));
    assert!(shape.fits([1, 2, 3], [1, 1, 1], 102));
    assert!(!shape.fits([1, 2, 3], [1, 1, 1], 101));
    assert!(shape.fits([9, 9, 9], [1, 0, 1], 0));
    let shape = ConstShape4u32::<5, 6, 7, 8>;
    assert!(shape.fits([0, 0, 0, 0], [5, 6, 7, 8], 1680));
    assert!(!shape.fits([0, 0, 0, 0], [5, 6, 7, 8], 1679));
    assert!(!shape.fits([0, 0, 0, 1], [5, 6, 7, 8], 5000));
    assert!(shape.fits([1, 2, 3, 4], [1, 1, 1, 1], 942));
    assert!(!shape.fits([1, 2, 3, 4], [1, 1, 1, 1], 941));
    assert!(shape.fits([9, 9, 9, 9], [1, 1, 1, 0], 0));
    assert!(RuntimeShape3::new([5, 6, 7]).unwrap().fits([0, 0, 0], [5, 6, 7], 210));
    assert!(!RuntimeShape3::new([5, 6, 7]).unwrap().fits([0, 1, 0], [5, 6, 7], 210));
    assert!(RuntimeShape4::new([5, 6, 7, 8]).unwrap().fits([4, 5, 6, 7], [1, 1, 1, 1], 1680));
    assert!(!RuntimeShape4::new([5, 6, 7, 8]).unwrap().fits([4, 5, 6, 7], [1, 1, 1, 2], 1680));
}

#[test]
fn fits_up_to_the_last_offset_of_u32() {
    // 65535 * 65537 is u32::MAX: the last cell is at offset u32::MAX - 1
    let shape = RuntimeShape2::new([65535, 65537]).unwrap();
    assert!(shape.fits([0, 0], [65535, 65537], u32::MAX as usize));
    assert!(!shape.fits([0, 0], [65535, 65537], u32::MAX as usize - 1));
    assert!(!shape.fits([0, 0], [65535, 65538], usize::MAX));
    assert_eq!(shape.linearize([65534, 65536]), u32::MAX - 1);
}

#[test]
fn checked_copy_names_the_buffer_that_is_too_small() {
    let src: Vec<u32> = (0..110).collect();
    let mut dst = vec![0u32; 132];
    let src_shape = ConstShape2u32::<10, 11>;
    let dst_shape = ConstShape2u32::<11, 12>;
    assert_eq!(
        checked_copy2([2, 3], &src, &src_shape, [3, 4], &mut dst, &dst_shape, [4, 5]),
        Ok(())
    );
    assert_eq!(dst[5 + 11 * 7], 64);
    let after = dst.clone();
    assert_eq!(
        checked_copy2([2, 3], &src, &src_shape, [9, 4], &mut dst, &dst_shape, [4, 5]),
        Err(OutOfBounds::Source)
    );
    assert_eq!(
        checked_copy2([2, 3], &src, &src_shape, [3, 4], &mut dst, &dst_shape, [4, 10]),
        Err(OutOfBounds::Destination)
    );
    assert_eq!(
        checked_copy2([2, 3], &src, &src_shape, [9, 4], &mut dst, &dst_shape, [4, 10]),
        Err(OutOfBounds::Source)
    );
    // the shapes agree with the region, the buffers do not
    assert_eq!(
        checked_copy2([2, 3], &src[..64], &src_shape, [3, 4], &mut dst, &dst_shape, [4, 5]),
        Err(OutOfBounds::Source)
    );
    assert_eq!(
        checked_copy2([2, 3], &src, &src_shape, [3, 4], &mut dst[..82], &dst_shape, [4, 5]),
        Err(OutOfBounds::Destination)
    );
    assert_eq!(dst, after);
}

#[test]
fn checked_copy_in_three_and_four_dimensions() {
    let src: Vec<u32> = (0..210).collect();
    let mut dst = vec![0u32; 210];
    let shape = ConstShape3u32::<5, 6, 7>;
    assert_eq!(
        checked_copy3([2, 2, 2], &src, &shape, [0, 0, 0], &mut dst, &shape, [3, 4, 5]),
        Ok(())
    );
    assert_eq!(dst[4 + 5 * 5 + 30 * 6], 1 + 5 + 30);
    assert_eq!(
        checked_copy3([2, 2, 2], &src, &shape, [4, 0, 0], &mut dst, &shape, [3, 4, 5]),
        Err(OutOfBounds::Source)
    );
    assert_eq!(
        checked_copy3([2, 2, 2], &src, &shape, [0, 0, 0], &mut dst, &shape, [3, 4, 6]),
        Err(OutOfBounds::Destination)
    );
    let src: Vec<u32> = (0..1680).collect();
    let mut dst = vec![0u32; 1680];
    let shape = RuntimeShape4::new([5, 6, 7, 8]).unwrap();
    assert_eq!(
        checked_copy4([2, 2, 2, 2], &src, &shape, [0, 0, 0, 0], &mut dst, &shape, [3, 4, 5, 6]),
        Ok(())
    );
    assert_eq!(dst[4 + 5 * 5 + 30 * 6 + 210 * 7], 1 + 5 + 30 + 210);
    assert_eq!(
        checked_copy4([2, 2, 2, 2], &src, &shape, [0, 5, 0, 0], &mut dst, &shape, [3, 4, 5, 6]),
        Err(OutOfBounds::Source)
    );
    assert_eq!(
        checked_copy4([2, 2, 2, 2], &src, &shape, [0, 0, 0, 0], &mut dst, &shape, [3, 4, 5, 7]),
        Err(OutOfBounds::Destination)
    );
}

#[test]
fn checked_fill_refuses_a_region_beyond_the_buffer() {
    let mut dst = vec![0u32; 132];
    let shape = ConstShape2u32::<11, 12>;
    assert_eq!(checked_fill2([2, 3], 1, &mut dst, &shape, [4, 5]), Ok(()));
    assert_eq!(dst.iter().sum::<u32>(), 6);
    assert_eq!(dst[5 + 11 * 7], 1);
    assert_eq!(
        checked_fill2([2, 3], 2, &mut dst, &shape, [10, 5]),
        Err(OutOfBounds::Destination)
    );
    assert_eq!(
        checked_fill2([2, 3], 2, &mut dst[..82], &shape, [4, 5]),
        Err(OutOfBounds::Destination)
    );
    assert_eq!(dst.iter().sum::<u32>(), 6);
    assert_eq!(checked_fill2([0, 3], 2, &mut dst, &shape, [100, 100]), Ok(()));
    assert_eq!(dst.iter().sum::<u32>(), 6);

    let mut dst = vec![0u32; 210];
    let shape = RuntimeShape3::new([5, 6, 7]).unwrap();
    assert_eq!(checked_fill3([5, 6, 7], 1, &mut dst, &shape, [0, 0, 0]), Ok(()));
    assert_eq!(dst, vec![1u32; 210]);
    assert_eq!(
        checked_fill3([5, 6, 7], 2, &mut dst, &shape, [0, 0, 1]),
        Err(OutOfBounds::Destination)
    );
    assert_eq!(dst, vec![1u32; 210]);

    let mut dst = vec![0u32; 1680];
    let shape = ConstShape4u32::<5, 6, 7, 8>;
    assert_eq!(checked_fill4([1, 1, 1, 8], 1, &mut dst, &shape, [4, 5, 6, 0]), Ok(()));
    assert_eq!(dst.iter().sum::<u32>(), 8);
    assert_eq!(dst[1679], 1);
    assert_eq!(
        checked_fill4([1, 1, 1, 8], 2, &mut dst, &shape, [4, 5, 6, 1]),
        Err(OutOfBounds::Destination)
    );
    assert_eq!(dst.iter().sum::<u32>(), 8);
}
