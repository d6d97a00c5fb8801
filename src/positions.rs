//! The mathematical model: which bit positions of a word, or of a sequence
//! of words, hold a one.

use vstd::arithmetic::div_mod::{lemma_div_denominator, lemma_mod_breakdown};
use vstd::arithmetic::power2::{lemma_pow2_pos, lemma_pow2_unfold, pow2};
use vstd::prelude::*;

verus! {

/// Whether bit `i` of `v` is one (bit 0 is the least significant).
pub open spec fn bit_set(v: nat, i: nat) -> bool {
    (v / pow2(i)) % 2 == 1
}

/// The position of the lowest one bit of `v` (0 when `v` is 0).
pub open spec fn lowest_set_bit(v: nat) -> nat
    decreases v,
{
    if v == 0 || v % 2 == 1 {
        0
    } else {
        1 + lowest_set_bit(v / 2)
    }
}

/// Every position of `s` moved up by `k`.
pub open spec fn shift_positions(s: Seq<int>, k: int) -> Seq<int> {
    s.map_values(|p: int| p + k)
}

/// The positions of the one bits of `v`, lowest first.
pub open spec fn bit_positions(v: nat) -> Seq<int>
    decreases v,
{
    if v == 0 {
        seq![]
    } else {
        let upper = shift_positions(bit_positions(v / 2), 1);
        if v % 2 == 1 {
            seq![0int] + upper
        } else {
            upper
        }
    }
}

/// The positions of the one bits of `words` laid end to end as `w`-bit
/// words, the first word starting at position `base`: word `i` covers the
/// positions `base + i * w` up to `base + (i + 1) * w`.
pub open spec fn bitmap_positions(words: Seq<nat>, w: nat, base: int) -> Seq<int>
    decreases words.len(),
{
    if words.len() == 0 {
        seq![]
    } else {
        shift_positions(bit_positions(words[0]), base) + bitmap_positions(
            words.drop_first(),
            w,
            base + w,
        )
    }
}

/// `v` is a multiple of `2^t` and bit `t` of it is one.
pub open spec fn lowest_one_at(v: nat, t: nat) -> bool {
    &&& v % pow2(t) == 0
    &&& (v / pow2(t)) % 2 == 1
}

/// Peels the factor two off both conditions of `lowest_one_at`.
proof fn lemma_lowest_one_at_halve(v: nat, t: nat)
    requires
        t > 0,
    ensures
        lowest_one_at(v, t) <==> (v % 2 == 0 && lowest_one_at(v / 2, (t - 1) as nat)),
{
    let p = pow2((t - 1) as nat);
    lemma_pow2_unfold(t);
    lemma_pow2_pos((t - 1) as nat);
    lemma_mod_breakdown(v as int, 2, p as int);
    lemma_div_denominator(v as int, 2, p as int);
}

/// The lowest one bit of a nonzero `v` is where `lowest_one_at` holds.
pub proof fn lemma_lowest_set_bit(v: nat)
    requires
        v != 0,
    ensures
        lowest_one_at(v, lowest_set_bit(v)),
    decreases v,
{
    if v % 2 == 1 {
        assert(pow2(0) == 1) by {
            lemma_pow2_unfold(1);
            vstd::arithmetic::power2::lemma2_to64();
        }
    } else {
        lemma_lowest_set_bit(v / 2);
        lemma_lowest_one_at_halve(v, lowest_set_bit(v));
    }
}

/// `lowest_one_at` holds at one position only: the lowest one bit.
pub proof fn lemma_lowest_one_at_unique(v: nat, t: nat)
    requires
        lowest_one_at(v, t),
    ensures
        lowest_set_bit(v) == t,
    decreases t,
{
    vstd::arithmetic::power2::lemma2_to64();
    if t > 0 {
        lemma_lowest_one_at_halve(v, t);
        lemma_lowest_one_at_unique(v / 2, (t - 1) as nat);
        assert(v / 2 != 0);
    } else {
        assert(v / 1 == v);
    }
}


/// Moving a sequence with one more element in front.
proof fn lemma_shift_cons(a: int, s: Seq<int>, k: int)
    ensures
        shift_positions(seq![a] + s, k) == seq![a + k] + shift_positions(s, k),
{
    assert(shift_positions(seq![a] + s, k) =~= seq![a + k] + shift_positions(s, k));
}

/// Taking the lowest one bit off a word takes the first position off its
/// positions.
pub proof fn lemma_bit_positions_clear_lowest(v: nat, t: nat)
    requires
        lowest_one_at(v, t),
    ensures
        v >= pow2(t),
        bit_positions(v) == seq![t as int] + bit_positions((v - pow2(t)) as nat),
    decreases t,
{
    vstd::arithmetic::power2::lemma2_to64();
    if t == 0 {
        assert(v / 1 == v);
        let u = (v - 1) as nat;
        if u != 0 {
            assert(u / 2 == v / 2);
        }
    } else {
        lemma_lowest_one_at_halve(v, t);
        let h = v / 2;
        let tp = (t - 1) as nat;
        lemma_bit_positions_clear_lowest(h, tp);
        lemma_pow2_unfold(t);
        let u = (h - pow2(tp)) as nat;
        assert(v != 0);
        lemma_shift_cons(tp as int, bit_positions(u), 1);
        assert((v - pow2(t)) as nat == 2 * u);
        if u != 0 {
            assert((2 * u) / 2 == u);
        }
    }
}


/// The lowest one bit of a nonzero value below `2^w` lies below `w`.
pub proof fn lemma_lowest_set_bit_fits(v: nat, w: nat)
    requires
        0 < v < pow2(w),
    ensures
        lowest_set_bit(v) < w,
{
    lemma_lowest_set_bit(v);
    let t = lowest_set_bit(v);
    if t >= w {
        vstd::arithmetic::power2::lemma_pow2_adds(w, (t - w) as nat);
        lemma_pow2_pos((t - w) as nat);
        lemma_pow2_pos(t);
        vstd::arithmetic::div_mod::lemma_fundamental_div_mod(v as int, pow2(t) as int);
        assert(pow2(w) <= v) by (nonlinear_arith)
            requires
                pow2(t) == pow2(w) * pow2((t - w) as nat),
                pow2((t - w) as nat) > 0,
                v == pow2(t) * (v / pow2(t)) + v % pow2(t),
                v % pow2(t) == 0,
                (v / pow2(t)) % 2 == 1,
        ;
    }
}


/// How many 64-bit words are checked for zero at once.
pub const GROUP_LEN: usize = 8;

/// Every word of `words` is zero.
pub open spec fn all_zero(words: Seq<nat>) -> bool {
    forall|i: int| 0 <= i < words.len() ==> words[i] == 0
}

/// The positions of the one bits of `words` as 64-bit words starting at
/// position `base`, found group by group: each group of `GROUP_LEN` words
/// (the last one may be shorter) is skipped whole when all its words are zero
/// and read word by word otherwise.
pub open spec fn batched_positions(words: Seq<nat>, base: int) -> Seq<int>
    decreases words.len(),
{
    if words.len() == 0 {
        seq![]
    } else {
        let n = if words.len() < GROUP_LEN {
            words.len() as int
        } else {
            GROUP_LEN as int
        };
        let after = batched_positions(words.skip(n), base + n * 64);
        if all_zero(words.take(n)) {
            after
        } else {
            bitmap_positions(words.take(n), 64, base) + after
        }
    }
}


/// Every element of `s` is below the next one.
pub open spec fn strictly_increasing(s: Seq<int>) -> bool {
    forall|i: int, j: int| 0 <= i < j < s.len() ==> s[i] < s[j]
}

/// Every element of `s` lies in `[lo, hi)`.
pub open spec fn all_within(s: Seq<int>, lo: int, hi: int) -> bool {
    forall|i: int| 0 <= i < s.len() ==> lo <= #[trigger] s[i] < hi
}

/// Bit `k + 1` of `v` is bit `k` of `v / 2`.
proof fn lemma_bit_set_halve(v: nat, k: nat)
    ensures
        bit_set(v, k + 1) == bit_set(v / 2, k),
{
    lemma_pow2_unfold(k + 1);
    lemma_pow2_pos(k);
    lemma_div_denominator(v as int, 2, pow2(k) as int);
}

/// A single word: its iterator yields exactly the positions of its one bits,
/// each once, in ascending order, all below the width `w`.
pub proof fn lemma_bit_positions_exact(v: nat, w: nat)
    requires
        v < pow2(w),
    ensures
        strictly_increasing(bit_positions(v)),
        all_within(bit_positions(v), 0, w as int),
        forall|i: int|
            0 <= i < bit_positions(v).len() ==> bit_set(v, #[trigger] bit_positions(v)[i] as nat),
        forall|p: nat| #[trigger] bit_set(v, p) ==> bit_positions(v).contains(p as int),
    decreases v,
{
    vstd::arithmetic::power2::lemma2_to64();
    if v == 0 {
        assert forall|p: nat| #[trigger] bit_set(v, p) implies bit_positions(v).contains(p as int) by {
            lemma_pow2_pos(p);
            assert(0nat / pow2(p) == 0) by (nonlinear_arith)
                requires
                    pow2(p) > 0,
            ;
        }
    } else {
        assert(w > 0);
        let h = v / 2;
        let wp = (w - 1) as nat;
        lemma_pow2_unfold(w);
        lemma_bit_positions_exact(h, wp);
        let s = bit_positions(h);
        let upper = shift_positions(s, 1);
        assert(v / 1 == v);
        assert forall|i: int| 0 <= i < upper.len() implies bit_set(v, #[trigger] upper[i] as nat)
            && 1 <= upper[i] < w by {
            lemma_bit_set_halve(v, s[i] as nat);
        }
        assert forall|p: nat| #[trigger] bit_set(v, p) implies bit_positions(v).contains(p as int) by {
            if p == 0 {
                assert(bit_positions(v)[0] == 0);
            } else {
                lemma_bit_set_halve(v, (p - 1) as nat);
                let i = choose|i: int| 0 <= i < s.len() && s[i] == p - 1;
                if v % 2 == 1 {
                    assert(bit_positions(v)[i + 1] == p);
                } else {
                    assert(bit_positions(v)[i] == p);
                }
            }
        }
    }
}

/// Gluing two sequences of words glues their positions, the second part
/// moved up by the bits of the first.
pub proof fn lemma_bitmap_positions_append(a: Seq<nat>, b: Seq<nat>, w: nat, base: int)
    ensures
        bitmap_positions(a + b, w, base) == bitmap_positions(a, w, base) + bitmap_positions(
            b,
            w,
            base + a.len() * w,
        ),
    decreases a.len(),
{
    if a.len() == 0 {
        assert(a + b =~= b);
    } else {
        lemma_bitmap_positions_append(a.drop_first(), b, w, base + w);
        assert((a + b).drop_first() =~= a.drop_first() + b);
        assert(base + w + (a.len() - 1) * w == base + a.len() * w) by (nonlinear_arith);
    }
}

/// Zero words have no one bits.
proof fn lemma_bitmap_positions_zero(words: Seq<nat>, w: nat, base: int)
    requires
        all_zero(words),
    ensures
        bitmap_positions(words, w, base) == Seq::<int>::empty(),
    decreases words.len(),
{
    if words.len() > 0 {
        lemma_bitmap_positions_zero(words.drop_first(), w, base + w);
        assert(shift_positions(bit_positions(0), base) =~= seq![]);
    }
}

/// Skipping a group of zero words: the group yields no position and only
/// moves the positions after it up by `GROUP_LEN * 64`.
pub proof fn lemma_zero_group_skipped(group: Seq<nat>, rest: Seq<nat>, base: int)
    requires
        group.len() == GROUP_LEN,
        all_zero(group),
    ensures
        bitmap_positions(group, 64, base) == Seq::<int>::empty(),
        batched_positions(group + rest, base) == batched_positions(
            rest,
            base + GROUP_LEN * 64,
        ),
{
    lemma_bitmap_positions_zero(group, 64, base);
    let words = group + rest;
    assert(words.take(GROUP_LEN as int) =~= group);
    assert(words.skip(GROUP_LEN as int) =~= rest);
}

/// The batched reading of a sequence of 64-bit words finds the same
/// positions, in the same order, as reading it word by word.
pub proof fn lemma_batched_matches_bitmap(words: Seq<nat>, base: int)
    ensures
        batched_positions(words, base) == bitmap_positions(words, 64, base),
    decreases words.len(),
{
    if words.len() > 0 {
        let n = if words.len() < GROUP_LEN {
            words.len() as int
        } else {
            GROUP_LEN as int
        };
        let group = words.take(n);
        let rest = words.skip(n);
        lemma_batched_matches_bitmap(rest, base + n * 64);
        assert(words =~= group + rest);
        lemma_bitmap_positions_append(group, rest, 64, base);
        if all_zero(group) {
            lemma_bitmap_positions_zero(group, 64, base);
            assert(Seq::<int>::empty() + bitmap_positions(rest, 64, base + n * 64)
                =~= bitmap_positions(rest, 64, base + n * 64));
        }
    }
}

/// Positions of a bitmap whose words all fit in `w` bits come in strictly
/// ascending order, word `i` holding those in `[base + i * w, base + (i + 1) * w)`.
pub proof fn lemma_bitmap_positions_increasing(words: Seq<nat>, w: nat, base: int)
    requires
        forall|i: int| 0 <= i < words.len() ==> words[i] < pow2(w),
    ensures
        strictly_increasing(bitmap_positions(words, w, base)),
        all_within(bitmap_positions(words, w, base), base, base + words.len() * w),
    decreases words.len(),
{
    if words.len() > 0 {
        let rest = words.drop_first();
        lemma_bitmap_positions_increasing(rest, w, base + w);
        lemma_bit_positions_exact(words[0], w);
        let a = shift_positions(bit_positions(words[0]), base);
        let b = bitmap_positions(rest, w, base + w);
        assert(base + w + rest.len() * w == base + words.len() * w) by (nonlinear_arith)
            requires
                rest.len() == words.len() - 1,
        ;
        assert forall|i: int| 0 <= i < a.len() implies base <= #[trigger] a[i] < base + w by {}
        let s = a + b;
        assert forall|i: int, j: int| 0 <= i < j < s.len() implies s[i] < s[j] by {
            if j < a.len() {
            } else if i >= a.len() {
                assert(s[i] == b[i - a.len()]);
                assert(s[j] == b[j - a.len()]);
            } else {
                assert(s[j] == b[j - a.len()]);
            }
        }
        assert forall|i: int| 0 <= i < s.len() implies base <= #[trigger] s[i] < base
            + words.len() * w by {
            if i >= a.len() {
                assert(s[i] == b[i - a.len()]);
            }
        }
    }
}

/// The word with only bit `w - 1` set yields that one position, and zero
/// yields none, as does an empty sequence of words.
pub proof fn lemma_boundaries(w: nat)
    requires
        w > 0,
    ensures
        bit_positions(0) == Seq::<int>::empty(),
        bit_positions(pow2((w - 1) as nat)) == seq![w - 1],
        bitmap_positions(Seq::empty(), w, 0) == Seq::<int>::empty(),
        batched_positions(Seq::empty(), 0) == Seq::<int>::empty(),
{
    let t = (w - 1) as nat;
    let v = pow2(t);
    lemma_pow2_pos(t);
    assert(lowest_one_at(v, t)) by {
        vstd::arithmetic::div_mod::lemma_mod_self_0(v as int);
        vstd::arithmetic::div_mod::lemma_div_by_self(v as int);
    }
    lemma_bit_positions_clear_lowest(v, t);
    assert(seq![t as int] + bit_positions(0) =~= seq![w - 1]);
}

} // verus!
