//! Iterators over the positions of the set bits of a word and of a bitmap.

use crate::positions::{
    all_within, bit_set, lemma_batched_matches_bitmap, lemma_bit_positions_exact,
    lemma_bitmap_positions_increasing, strictly_increasing,
    all_zero, batched_positions, GROUP_LEN,
    bit_positions, bitmap_positions, lemma_bit_positions_clear_lowest, lemma_lowest_set_bit,
    lemma_lowest_set_bit_fits, shift_positions,
};
use crate::uint::{position_values, word_values, Uint};
use vstd::arithmetic::power2::pow2;
use vstd::prelude::*;
use wide::u64x8;

verus! {

/// Iterator over the set bits of an unsigned integer.
///
/// Positions start at `0` for the least significant bit and come in
/// ascending order; the last possible position is the width minus one.
pub struct BitsIter<U> {
    value: U,
}

impl<U: Uint> View for BitsIter<U> {
    type V = Seq<int>;

    /// The positions that are still to come.
    closed spec fn view(&self) -> Seq<int> {
        bit_positions(self.value.value())
    }
}

impl<U: Uint> BitsIter<U> {
    /// Creates an iterator over the set bits of `value`.
    pub fn new(value: U) -> (r: Self)
        ensures
            r@ == bit_positions(value.value()),
    {
        Self { value }
    }

    /// The next set bit, or `None` once all have been returned.
    pub fn next(&mut self) -> (r: Option<U>)
        ensures
            match r {
                None => old(self)@.len() == 0 && final(self)@ == old(self)@,
                Some(p) => {
                    &&& old(self)@.len() > 0
                    &&& p.value() == old(self)@[0]
                    &&& p.value() < U::width()
                    &&& final(self)@ == old(self)@.drop_first()
                },
            },
    {
        if self.value.is_zero() {
            return None;
        }
        let tz = self.value.trailing_zeros();
        proof {
            let v = self.value.value();
            self.value.lemma_value_fits();
            lemma_lowest_set_bit(v);
            lemma_lowest_set_bit_fits(v, U::width());
            lemma_bit_positions_clear_lowest(v, tz.value());
        }
        self.value = self.value.clear_lowest_set_bit();
        Some(tz)
    }

    /// All remaining set bits, in ascending order.
    pub fn collect(self) -> (r: Vec<U>)
        ensures
            position_values(r@) == self@,
    {
        let mut it = self;
        let mut out: Vec<U> = Vec::new();
        loop
            invariant
                position_values(out@) + it@ == self@,
            decreases it@.len(),
        {
            match it.next() {
                Some(p) => {
                    proof {
                        assert(position_values(out@.push(p)) =~= position_values(out@).push(
                            p.value() as int,
                        ));
                        assert(position_values(out@.push(p)) + it@ =~= self@);
                    }
                    out.push(p);
                },
                None => {
                    assert(position_values(out@) =~= self@);
                    return out;
                },
            }
        }
    }
}


/// Iterator over the set bits of a bitmap: a sequence of words laid end to
/// end, word `i` holding the positions `i * W` up to `(i + 1) * W` for words
/// of `W` bits.
///
/// Each word goes through a [`BitsIter`]; the iterator counts the bits of the
/// words already passed, so that positions are relative to the very first
/// bit.
pub struct BitmapIter<U> {
    words: Vec<U>,
    next_word: usize,
    consumed_count: usize,
    current_element_it: BitsIter<U>,
}

impl<U: Uint> View for BitmapIter<U> {
    type V = Seq<int>;

    /// The positions that are still to come.
    closed spec fn view(&self) -> Seq<int> {
        shift_positions(self.current_element_it@, self.consumed_count as int) + bitmap_positions(
            word_values(self.words@).skip(self.next_word as int),
            U::width(),
            self.consumed_count + U::width(),
        )
    }
}

/// Taking the first position off the front part of a concatenation.
proof fn lemma_shift_drop_first(s: Seq<int>, k: int, rest: Seq<int>)
    requires
        s.len() > 0,
    ensures
        (shift_positions(s, k) + rest)[0] == s[0] + k,
        shift_positions(s.drop_first(), k) + rest == (shift_positions(s, k) + rest).drop_first(),
{
    assert(shift_positions(s.drop_first(), k) + rest =~= (shift_positions(s, k)
        + rest).drop_first());
}

impl<U: Uint> BitmapIter<U> {
    /// The iterator's own bookkeeping is consistent, and no position it can
    /// still report overflows a `usize`.
    pub closed spec fn wf(&self) -> bool {
        &&& self.next_word <= self.words.len()
        &&& self.consumed_count + U::width() * (self.words.len() - self.next_word + 1)
            <= usize::MAX
    }

    /// How many words the iterator has taken from its source so far.
    pub closed spec fn words_taken(&self) -> nat {
        self.next_word as nat
    }

    /// Creates an iterator over the set bits of `words`.
    ///
    /// Only the first word is taken at once; an empty sequence yields no
    /// position.
    pub fn new(words: Vec<U>) -> (r: Self)
        requires
            words.len() * U::width() <= usize::MAX,
        ensures
            r.wf(),
            r@ == bitmap_positions(word_values(words@), U::width(), 0),
            r.words_taken() == if words.len() == 0 {
                0nat
            } else {
                1nat
            },
    {
        proof {
            U::lemma_width();
        }
        let (first, next_word) = if words.len() == 0 {
            (U::zero(), 0)
        } else {
            (words[0], 1)
        };
        let r = Self {
            words,
            next_word,
            consumed_count: 0,
            current_element_it: BitsIter::new(first),
        };
        proof {
            let vals = word_values(r.words@);
            if vals.len() > 0 {
                assert(vals.skip(1) =~= vals.drop_first());
            }
            assert(r.consumed_count + U::width() * (r.words.len() - r.next_word + 1) <= usize::MAX)
                by (nonlinear_arith)
                requires
                    r.words.len() * U::width() <= usize::MAX,
                    r.consumed_count == 0,
                    r.next_word == if r.words.len() == 0 { 0int } else { 1int },
                    U::width() <= 128,
            ;
            assert(shift_positions(r.current_element_it@, 0) =~= r.current_element_it@);
        }
        r
    }

    /// The next set bit of the bitmap, or `None` once all have been
    /// returned.
    pub fn next(&mut self) -> (r: Option<usize>)
        requires
            old(self).wf(),
        ensures
            final(self).wf(),
            match r {
                None => old(self)@.len() == 0 && final(self)@ == old(self)@,
                Some(p) => {
                    &&& old(self)@.len() > 0
                    &&& p == old(self)@[0]
                    &&& final(self)@ == old(self)@.drop_first()
                },
            },
    {
        loop
            invariant
                self.wf(),
                self@ == old(self)@,
            decreases self.words.len() - self.next_word,
        {
            proof {
                U::lemma_width();
                let w = U::width() as int;
                let left = self.words.len() - self.next_word + 1;
                assert(w * left == w + w * (left - 1)) by (nonlinear_arith);
                assert(w * (left - 1) >= 0) by (nonlinear_arith)
                    requires
                        w > 0,
                        left >= 1,
                ;
            }
            let ghost before = self.current_element_it@;
            let ghost rest = bitmap_positions(
                word_values(self.words@).skip(self.next_word as int),
                U::width(),
                self.consumed_count + U::width(),
            );
            // Report the next bit of the current word, if it has one left.
            if let Some(bit) = self.current_element_it.next() {
                proof {
                    lemma_shift_drop_first(before, self.consumed_count as int, rest);
                }
                let bit: usize = bit.to_usize();
                return Some(bit + self.consumed_count);
            }
            // The current word is used up: load the next one, if any.
            if self.next_word >= self.words.len() {
                return None;
            }
            let word = self.words[self.next_word];
            proof {
                let vals = word_values(self.words@);
                let n = self.next_word as int;
                assert(vals.skip(n + 1) =~= vals.skip(n).drop_first());
                assert(shift_positions(before, self.consumed_count as int) =~= seq![]);
            }
            self.next_word = self.next_word + 1;
            self.consumed_count = self.consumed_count + U::bits();
            self.current_element_it = BitsIter::new(word);
        }
    }

    /// All remaining set bits of the bitmap, in ascending order.
    pub fn collect(self) -> (r: Vec<usize>)
        requires
            self.wf(),
        ensures
            r@.map_values(|p: usize| p as int) == self@,
    {
        let mut it = self;
        let mut out: Vec<usize> = Vec::new();
        loop
            invariant
                it.wf(),
                out@.map_values(|p: usize| p as int) + it@ == self@,
            decreases it@.len(),
        {
            match it.next() {
                Some(p) => {
                    proof {
                        assert(out@.push(p).map_values(|p: usize| p as int) + it@ =~= self@);
                    }
                    out.push(p);
                },
                None => {
                    assert(out@.map_values(|p: usize| p as int) =~= self@);
                    return out;
                },
            }
        }
    }
}


/// Relies on `wide::u64x8::new`, which puts the eight words into the eight
/// lanes in order, and on `==` of `wide::u64x8`, which compares lane by lane:
/// the vector equals `u64x8::ZERO` exactly when every word is zero.
#[verifier::external_body]
fn group_is_zero(group: [u64; 8]) -> (r: bool)
    ensures
        r == (forall|i: int| 0 <= i < 8 ==> group@[i] == 0),
{
    u64x8::new(group) == u64x8::ZERO
}

/// Iterator over the set bits of a bitmap of 64-bit words that checks
/// groups of `GROUP_LEN` words for zero with one vector comparison and skips
/// the groups that are zero.
///
/// It reports the same positions as a [`BitmapIter`] over the same words. A
/// last group of fewer than `GROUP_LEN` words is compared as if padded with
/// zero words, and only its real words are read.
pub struct SimdBitmapIter {
    words: Vec<u64>,
    next_word: usize,
    buffer: [u64; 8],
    group_len: usize,
    elems_to_iter_normally: usize,
    current_bitpos_iter: Option<BitsIter<u64>>,
    count: usize,
}

impl View for SimdBitmapIter {
    type V = Seq<int>;

    /// The positions that are still to come.
    closed spec fn view(&self) -> Seq<int> {
        let current = match self.current_bitpos_iter {
            Some(it) => shift_positions(it@, self.count as int),
            None => seq![],
        };
        let base = self.pending_base();
        current + bitmap_positions(self.pending_words(), 64, base) + batched_positions(
            word_values(self.words@).skip(self.next_word as int),
            base + 64 * self.elems_to_iter_normally,
        )
    }
}

impl SimdBitmapIter {
    /// The buffered words that are still to be read.
    closed spec fn pending_words(&self) -> Seq<nat> {
        word_values(
            self.buffer@.subrange(
                self.group_len - self.elems_to_iter_normally,
                self.group_len as int,
            ),
        )
    }

    /// The position of the first bit of the first pending word.
    closed spec fn pending_base(&self) -> int {
        self.count + if self.current_bitpos_iter is Some {
            64int
        } else {
            0int
        }
    }

    /// The iterator's own bookkeeping is consistent, and no position it can
    /// still report overflows a `usize`.
    pub closed spec fn wf(&self) -> bool {
        &&& self.words.len() * 64 <= usize::MAX
        &&& self.next_word <= self.words.len()
        &&& self.elems_to_iter_normally <= self.group_len <= GROUP_LEN
        &&& self.pending_base() + 64 * (self.elems_to_iter_normally + self.words.len()
            - self.next_word) <= usize::MAX
    }

    /// How many words the iterator has taken from its source so far.
    pub closed spec fn words_taken(&self) -> nat {
        self.next_word as nat
    }

    /// Creates an iterator over the set bits of `words`; no word is taken
    /// before the first call of `next`.
    pub fn new(words: Vec<u64>) -> (r: Self)
        requires
            words.len() * 64 <= usize::MAX,
        ensures
            r.wf(),
            r@ == batched_positions(word_values(words@), 0),
            r.words_taken() == 0,
    {
        let r = Self {
            words,
            next_word: 0,
            buffer: [0u64; 8],
            group_len: 0,
            elems_to_iter_normally: 0,
            current_bitpos_iter: None,
            count: 0,
        };
        proof {
            assert(r.pending_words() =~= seq![]);
            assert(word_values(r.words@).skip(0) =~= word_values(r.words@));
        }
        r
    }

    /// The word at `i`, or zero past the end.
    fn word_or_zero(&self, i: usize) -> (r: u64)
        ensures
            r == if i < self.words.len() {
                self.words@[i as int]
            } else {
                0u64
            },
    {
        if i < self.words.len() {
            self.words[i]
        } else {
            0
        }
    }

    /// The next set bit of the bitmap, or `None` once all have been
    /// returned.
    pub fn next(&mut self) -> (r: Option<u64>)
        requires
            old(self).wf(),
        ensures
            final(self).wf(),
            match r {
                None => old(self)@.len() == 0 && final(self)@ == old(self)@,
                Some(p) => {
                    &&& old(self)@.len() > 0
                    &&& p == old(self)@[0]
                    &&& final(self)@ == old(self)@.drop_first()
                },
            },
    {
        loop
            invariant
                self.wf(),
                self@ == old(self)@,
            decreases
                self.words.len() - self.next_word,
                self.elems_to_iter_normally,
                if self.current_bitpos_iter is Some {
                    1int
                } else {
                    0int
                },
        {
            // Start on the next buffered word of a group that holds one bits.
            if self.current_bitpos_iter.is_none() && self.elems_to_iter_normally > 0 {
                let ghost pending = self.pending_words();
                let index = self.group_len - self.elems_to_iter_normally;
                let elem = self.buffer[index];
                self.elems_to_iter_normally = self.elems_to_iter_normally - 1;
                self.current_bitpos_iter = Some(BitsIter::new(elem));
                proof {
                    assert(self.pending_words() =~= pending.drop_first());
                    assert(bitmap_positions(pending, 64, self.count as int) =~= shift_positions(
                        bit_positions(elem as nat),
                        self.count as int,
                    ) + bitmap_positions(pending.drop_first(), 64, self.count + 64));
                }
                continue;
            }
            // Report the next bit of the current word, or move past the word.
            match self.current_bitpos_iter.take() {
                Some(mut iter) => {
                    let ghost before = iter@;
                    let ghost rest = bitmap_positions(
                        self.pending_words(),
                        64,
                        self.count + 64,
                    ) + batched_positions(
                        word_values(self.words@).skip(self.next_word as int),
                        self.count + 64 + 64 * self.elems_to_iter_normally,
                    );
                    match iter.next() {
                        Some(pos) => {
                            self.current_bitpos_iter = Some(iter);
                            proof {
                                lemma_shift_drop_first(before, self.count as int, rest);
                            }
                            return Some(pos + self.count as u64);
                        },
                        None => {
                            self.count = self.count + 64;
                            continue;
                        },
                    }
                },
                None => {},
            }
            // Load the next group and skip it whole if all its words are zero.
            if self.next_word == self.words.len() {
                return None;
            }
            let ghost vals = word_values(self.words@).skip(self.next_word as int);
            let remaining = self.words.len() - self.next_word;
            let n = if remaining < GROUP_LEN {
                remaining
            } else {
                GROUP_LEN
            };
            let start = self.next_word;
            let buffer = [
                self.word_or_zero(start),
                self.word_or_zero(start + 1),
                self.word_or_zero(start + 2),
                self.word_or_zero(start + 3),
                self.word_or_zero(start + 4),
                self.word_or_zero(start + 5),
                self.word_or_zero(start + 6),
                self.word_or_zero(start + 7),
            ];
            proof {
                let group = vals.take(n as int);
                assert(word_values(buffer@.subrange(0, n as int)) =~= group);
                assert(vals.skip(n as int) =~= word_values(self.words@).skip(start + n));
                assert(all_zero(group) == (forall|i: int| 0 <= i < 8 ==> buffer@[i] == 0)) by {
                    if all_zero(group) {
                        assert forall|i: int| 0 <= i < 8 implies buffer@[i] == 0 by {
                            if i < n {
                                assert(group[i] == 0);
                            }
                        }
                    }
                }
            }
            self.next_word = start + n;
            if group_is_zero(buffer) {
                self.count = self.count + 64 * n;
            } else {
                self.buffer = buffer;
                self.group_len = n;
                self.elems_to_iter_normally = n;
            }
        }
    }

    /// All remaining set bits of the bitmap, in ascending order.
    pub fn collect(self) -> (r: Vec<u64>)
        requires
            self.wf(),
        ensures
            r@.map_values(|p: u64| p as int) == self@,
    {
        let mut it = self;
        let mut out: Vec<u64> = Vec::new();
        loop
            invariant
                it.wf(),
                out@.map_values(|p: u64| p as int) + it@ == self@,
            decreases it@.len(),
        {
            match it.next() {
                Some(p) => {
                    proof {
                        assert(out@.push(p).map_values(|p: u64| p as int) + it@ =~= self@);
                    }
                    out.push(p);
                },
                None => {
                    assert(out@.map_values(|p: u64| p as int) =~= self@);
                    return out;
                },
            }
        }
    }
}


/// A [`BitsIter`] over `v` (whose view starts as `bit_positions(v.value())`)
/// yields exactly the positions of the one bits of `v`, each once, in
/// ascending order, all below the width of the type.
pub proof fn lemma_bits_iter_yields_set_bits<U: Uint>(v: U)
    ensures
        strictly_increasing(bit_positions(v.value())),
        all_within(bit_positions(v.value()), 0, U::width() as int),
        forall|i: int|
            0 <= i < bit_positions(v.value()).len() ==> bit_set(
                v.value(),
                #[trigger] bit_positions(v.value())[i] as nat,
            ),
        forall|p: nat| #[trigger] bit_set(v.value(), p) ==> bit_positions(v.value()).contains(p as int),
{
    v.lemma_value_fits();
    lemma_bit_positions_exact(v.value(), U::width());
}

/// A [`BitmapIter`] yields its positions in strictly ascending order, those
/// of word `i` within `[i * W, (i + 1) * W)` for words of `W` bits.
pub proof fn lemma_bitmap_iter_increasing<U: Uint>(words: Seq<U>)
    ensures
        strictly_increasing(bitmap_positions(word_values(words), U::width(), 0)),
        all_within(
            bitmap_positions(word_values(words), U::width(), 0),
            0,
            (words.len() * U::width()) as int,
        ),
{
    assert forall|i: int| 0 <= i < words.len() implies word_values(words)[i] < pow2(
        U::width(),
    ) by {
        words[i].lemma_value_fits();
    }
    lemma_bitmap_positions_increasing(word_values(words), U::width(), 0);
}

/// A [`SimdBitmapIter`] and a [`BitmapIter`] over the same 64-bit words
/// yield the same positions in the same order.
pub proof fn lemma_simd_matches_bitmap_iter(words: Seq<u64>)
    ensures
        batched_positions(word_values(words), 0) == bitmap_positions(
            word_values(words),
            <u64 as Uint>::width(),
            0,
        ),
{
    lemma_batched_matches_bitmap(word_values(words), 0);
}

} // verus!
