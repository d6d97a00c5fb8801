use bit_ops::{BitmapIter, BitsIter, SimdBitmapIter};

#[test]
fn test_bits_iter() {
    let iter = BitsIter::<u8>::new(0);
    assert_eq!(&iter.collect(), &[]);

    let iter = BitsIter::<u8>::new(1);
    assert_eq!(&iter.collect(), &[0]);

    let iter = BitsIter::<u8>::new(0b1010_1010);
    assert_eq!(&iter.collect(), &[1, 3, 5, 7]);

    let iter = BitsIter::<u8>::new(0b1111_1111);
    assert_eq!(&iter.collect(), &[0, 1, 2, 3, 4, 5, 6, 7]);

    let iter = BitsIter::<u128>::new(0b1111_1111);
    assert_eq!(&iter.collect(), &[0, 1, 2, 3, 4, 5, 6, 7]);
}

#[test]
fn test_bitmap_iter() {
    let iter = BitmapIter::<u8>::new(vec![0_u8]);
    assert_eq!(&iter.collect(), &[]);

    let iter = BitmapIter::<u8>::new(vec![0b1111_0010, 0b1000, 1]);
    assert_eq!(&iter.collect(), &[1, 4, 5, 6, 7, 11, 16]);

    let iter = BitmapIter::<u128>::new(vec![0b10, 0b10, 0b11]);
    assert_eq!(&iter.collect(), &[1, 129, 256, 257]);
}

#[test]
fn test_simd_bitmap_iter() {
    let data = [0, 0, 0, 0, 0, 0, 0, 0];
    let iter = SimdBitmapIter::new(data.to_vec());
    assert_eq!(&iter.collect(), &[]);

    let data = [1, 0, 0, 0, 0, 0, 0, 0];
    let iter = SimdBitmapIter::new(data.to_vec());
    assert_eq!(&iter.collect(), &[0]);

    let data = [1, 1, 0, 0, 0, 0, 0, 0];
    let iter = SimdBitmapIter::new(data.to_vec());
    assert_eq!(&iter.collect(), &[0, 64]);

    let data = [
        0, 0, 0, 0, 0, 0, 0, 0, //
        0, 0, 0, 0, 0, 0, 0, 0, //
        1, 0, 0, 0, 1, 0, 0, 0, //
        0, 0, 0, 0, 0, 0, 0, 0, //
        0, 0, 0, 0, 0, 0, 0, 0, //
        1, 1, 1, 1, 1, 1, 1, 1,
    ];
    let iter = SimdBitmapIter::new(data.to_vec());
    assert_eq!(
        &iter.collect(),
        &[1024, 1280, 2560, 2624, 2688, 2752, 2816, 2880, 2944, 3008]
    );
}
