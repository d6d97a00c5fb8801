//! Iteration over the set bits of unsigned integers and of bitmaps made of
//! them.
//!
//! [`BitsIter`] walks the one bits of a single word, [`BitmapIter`] walks a
//! sequence of words as one long bitmap, and [`SimdBitmapIter`] does the same
//! for 64-bit words while skipping whole groups of zero words at once.
//!
//! Each iterator's view is the sequence of positions it has still to yield;
//! the module [`positions`] defines those sequences and proves their
//! properties, and [`uint`] the word types they are read from.

mod bitpos_iter;
pub mod positions;
pub mod uint;

pub use bitpos_iter::{
    lemma_bitmap_iter_increasing, lemma_bits_iter_yields_set_bits,
    lemma_simd_matches_bitmap_iter, BitmapIter, BitsIter, SimdBitmapIter,
};
pub use uint::Uint;
