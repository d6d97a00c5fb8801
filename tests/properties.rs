use bit_ops::{BitmapIter, BitsIter, SimdBitmapIter};

/// The positions of the one bits of `v`, found by testing each bit.
fn set_bits_u64(v: u64) -> Vec<u64> {
    (0..64).filter(|i| (v >> i) & 1 == 1).collect()
}

/// A fixed pseudo-random sequence of words, mostly zero.
fn sparse_words(n: usize, seed: u64) -> Vec<u64> {
    let mut x = seed;
    let mut out = Vec::new();
    for _ in 0..n {
        x ^= x << 13;
        x ^= x >> 7;
        x ^= x << 17;
        out.push(if x % 5 == 0 { x & (x >> 11) } else { 0 });
    }
    out
}

#[test]
fn bits_iter_matches_bit_tests() {
    for v in [0u64, 1, 2, 3, 0x8000_0000_0000_0000, u64::MAX, 0xdead_beef_0102_0408] {
        assert_eq!(BitsIter::<u64>::new(v).collect(), set_bits_u64(v));
    }
}

#[test]
fn bits_iter_every_width() {
    assert_eq!(BitsIter::<u16>::new(0b1000_0000_0000_0001).collect(), vec![0, 15]);
    assert_eq!(BitsIter::<u32>::new(0x8000_0100).collect(), vec![8, 31]);
    assert_eq!(BitsIter::<u64>::new(0x8000_0000_0001_0000).collect(), vec![16, 63]);
    assert_eq!(BitsIter::<u128>::new(1 << 100 | 1 << 64).collect(), vec![64, 100]);
    assert_eq!(BitsIter::<usize>::new(0b110).collect(), vec![1, 2]);
}

#[test]
fn bits_iter_step_by_step() {
    let mut it = BitsIter::<u128>::new(0b1001 << 70);
    assert_eq!(it.next(), Some(70));
    assert_eq!(it.next(), Some(73));
    assert_eq!(it.next(), None);
    assert_eq!(it.next(), None);
}

#[test]
fn boundary_words() {
    assert_eq!(BitsIter::<u8>::new(0).collect(), Vec::<u8>::new());
    assert_eq!(BitsIter::<u8>::new(0x80).collect(), vec![7]);
    assert_eq!(BitsIter::<u16>::new(0x8000).collect(), vec![15]);
    assert_eq!(BitsIter::<u32>::new(1 << 31).collect(), vec![31]);
    assert_eq!(BitsIter::<u64>::new(1 << 63).collect(), vec![63]);
    assert_eq!(BitsIter::<u128>::new(1 << 127).collect(), vec![127]);
    assert_eq!(
        BitsIter::<usize>::new(1 << (usize::BITS - 1)).collect(),
        vec![usize::BITS as usize - 1]
    );
    assert_eq!(BitsIter::<u8>::new(u8::MAX).collect(), (0..8).collect::<Vec<u8>>());
    assert_eq!(BitsIter::<u128>::new(u128::MAX).collect(), (0..128).collect::<Vec<u128>>());
}

#[test]
fn empty_sources() {
    assert_eq!(BitmapIter::<u32>::new(Vec::new()).collect(), Vec::<usize>::new());
    assert_eq!(SimdBitmapIter::new(Vec::new()).collect(), Vec::<u64>::new());
    let mut it = BitmapIter::<u8>::new(Vec::new());
    assert_eq!(it.next(), None);
    assert_eq!(it.next(), None);
}

#[test]
fn bitmap_offsets_per_word() {
    let words = sparse_words(40, 7);
    let mut expected = Vec::new();
    for (i, w) in words.iter().enumerate() {
        for p in set_bits_u64(*w) {
            expected.push(i * 64 + p as usize);
        }
    }
    assert!(!expected.is_empty());
    assert_eq!(BitmapIter::<u64>::new(words).collect(), expected);
}

#[test]
fn bitmap_zero_words_advance_offset() {
    let iter = BitmapIter::<u16>::new(vec![0, 0, 0x8000, 0, 1]);
    assert_eq!(iter.collect(), vec![47, 64]);
}

#[test]
fn simd_matches_bitmap_iter() {
    for seed in 1..20u64 {
        let words = sparse_words(64, seed);
        let simd: Vec<usize> = SimdBitmapIter::new(words.clone())
            .collect()
            .into_iter()
            .map(|p| p as usize)
            .collect();
        assert_eq!(simd, BitmapIter::<u64>::new(words).collect());
    }
}

#[test]
fn simd_all_nonzero_groups() {
    let words: Vec<u64> = (1..=16).collect();
    let simd: Vec<usize> = SimdBitmapIter::new(words.clone())
        .collect()
        .into_iter()
        .map(|p| p as usize)
        .collect();
    assert_eq!(simd, BitmapIter::<u64>::new(words).collect());
}

#[test]
fn simd_zero_group_advances_offset() {
    let mut words = vec![0u64; 8];
    words.extend([0b101, 0, 0, 0, 0, 0, 0, 1 << 63]);
    assert_eq!(SimdBitmapIter::new(words).collect(), vec![512, 514, 1023]);
}

#[test]
fn simd_several_bits_in_last_word_of_group() {
    let mut words = vec![0u64; 7];
    words.push(0b11);
    words.extend([1u64, 0, 0, 0, 0, 0, 0, 0]);
    assert_eq!(SimdBitmapIter::new(words).collect(), vec![448, 449, 512]);
}

#[test]
fn simd_short_last_group() {
    let mut words = vec![0u64; 8];
    words.extend([0, 0, 4]);
    assert_eq!(SimdBitmapIter::new(words.clone()).collect(), vec![642]);
    let words = vec![1u64, 0, 1 << 63];
    assert_eq!(SimdBitmapIter::new(words).collect(), vec![0, 191]);
    assert_eq!(SimdBitmapIter::new(vec![0u64; 3]).collect(), Vec::<u64>::new());
}

#[test]
fn positions_strictly_increase() {
    let words = sparse_words(200, 99);
    let positions = BitmapIter::<u64>::new(words.clone()).collect();
    assert!(positions.windows(2).all(|w| w[0] < w[1]));
    let positions = SimdBitmapIter::new(words).collect();
    assert!(positions.windows(2).all(|w| w[0] < w[1]));
}

#[test]
fn step_by_step_matches_collect() {
    let words = vec![0b1001u8, 0, 0b1000_0000];
    let mut it = BitmapIter::<u8>::new(words);
    assert_eq!(it.next(), Some(0));
    assert_eq!(it.next(), Some(3));
    assert_eq!(it.next(), Some(23));
    assert_eq!(it.next(), None);
    let mut it = SimdBitmapIter::new(vec![0, 2, 0, 0, 0, 0, 0, 0, 1]);
    assert_eq!(it.next(), Some(65));
    assert_eq!(it.next(), Some(512));
    assert_eq!(it.next(), None);
}
