//! Facts about the individual bits of 64-bit words, shared by the bit-packed
//! bitmaps and the packed colour encodings.
use vstd::prelude::*;

verus! {

/// Bit `i` (counted from the least significant end) of the word `w`.
pub open spec fn bit(w: u64, i: int) -> bool {
    0 <= i < 64 && (w >> (i as u64)) & 1 == 1
}

proof fn lemma_and_bv(a: u64, b: u64, i: u64)
    by (bit_vector)
    requires
        i < 64,
    ensures
        (((a & b) >> i) & 1 == 1) == (((a >> i) & 1 == 1) && ((b >> i) & 1 == 1)),
{
}

proof fn lemma_or_bv(a: u64, b: u64, i: u64)
    by (bit_vector)
    requires
        i < 64,
    ensures
        (((a | b) >> i) & 1 == 1) == (((a >> i) & 1 == 1) || ((b >> i) & 1 == 1)),
{
}

proof fn lemma_shl_bv(w: u64, s: u64, i: u64)
    by (bit_vector)
    requires
        i < 64,
        s < 64,
        i >= s,
    ensures
        (((w << s) >> i) & 1 == 1) == (((w >> ((i - s) as u64)) & 1) == 1),
{
}

proof fn lemma_shl_low_bv(w: u64, s: u64, i: u64)
    by (bit_vector)
    requires
        i < 64,
        s < 64,
        i < s,
    ensures
        ((w << s) >> i) & 1 == 0,
{
}

proof fn lemma_shr_bv(w: u64, s: u64, i: u64)
    by (bit_vector)
    requires
        i < 64,
        s < 64,
        i + s < 64,
    ensures
        (((w >> s) >> i) & 1 == 1) == (((w >> ((i + s) as u64)) & 1) == 1),
{
}

proof fn lemma_shr_high_bv(w: u64, s: u64, i: u64)
    by (bit_vector)
    requires
        i < 64,
        s < 64,
        i + s >= 64,
    ensures
        ((w >> s) >> i) & 1 == 0,
{
}

proof fn lemma_one_bv(s: u64, i: u64)
    by (bit_vector)
    requires
        i < 64,
        s < 64,
    ensures
        (((1u64 << s) >> i) & 1 == 1) == (i == s),
{
}

proof fn lemma_zero_bv(i: u64)
    by (bit_vector)
    requires
        i < 64,
    ensures
        (0u64 >> i) & 1 == 0,
{
}

proof fn lemma_nonzero_step_bv(x: u64, k: u64)
    by (bit_vector)
    requires
        k < 63,
        (x >> k) != 0,
    ensures
        ((x >> k) & 1 == 1) || ((x >> ((k + 1) as u64)) != 0),
{
}

proof fn lemma_nonzero_last_bv(x: u64)
    by (bit_vector)
    requires
        (x >> 63u64) != 0,
    ensures
        (x >> 63u64) & 1 == 1,
{
}

proof fn lemma_shr_zero_bv(x: u64)
    by (bit_vector)
    ensures
        x >> 0u64 == x,
{
}

proof fn lemma_zero_means_no_bit_bv(x: u64, i: u64)
    by (bit_vector)
    requires
        x == 0,
        i < 64,
    ensures
        (x >> i) & 1 == 0,
{
}

proof fn lemma_test_bv(w: u64, s: u64)
    by (bit_vector)
    ensures
        ((w >> s) & 1 != 0) == ((w >> s) & 1 == 1),
{
}

/// Testing the lowest bit of `w >> s` against zero reads bit `s`.
pub proof fn lemma_bit_test(w: u64, s: u64)
    requires
        s < 64,
    ensures
        ((w >> s) & 1 != 0) == bit(w, s as int),
{
    lemma_test_bv(w, s);
}

/// The bits of a conjunction of words are the conjunctions of their bits.
pub proof fn lemma_bit_and(a: u64, b: u64, i: int)
    ensures
        bit(a & b, i) == (bit(a, i) && bit(b, i)),
{
    if 0 <= i < 64 {
        lemma_and_bv(a, b, i as u64);
    }
}

/// The bits of a disjunction of words are the disjunctions of their bits.
pub proof fn lemma_bit_or(a: u64, b: u64, i: int)
    ensures
        bit(a | b, i) == (bit(a, i) || bit(b, i)),
{
    if 0 <= i < 64 {
        lemma_or_bv(a, b, i as u64);
    }
}

/// Shifting left by `s` moves bit `i - s` to position `i`.
pub proof fn lemma_bit_shl(w: u64, s: u64, i: int)
    requires
        s < 64,
    ensures
        bit(w << s, i) == (i < 64 && i >= s && bit(w, i - s)),
{
    if 0 <= i < 64 {
        if i >= s {
            lemma_shl_bv(w, s, i as u64);
        } else {
            lemma_shl_low_bv(w, s, i as u64);
        }
    }
}

/// Shifting right by `s` moves bit `i + s` to position `i`.
pub proof fn lemma_bit_shr(w: u64, s: u64, i: int)
    requires
        s < 64,
    ensures
        bit(w >> s, i) == (0 <= i && i + s < 64 && bit(w, i + s)),
{
    if 0 <= i < 64 {
        if i + s < 64 {
            lemma_shr_bv(w, s, i as u64);
        } else {
            lemma_shr_high_bv(w, s, i as u64);
        }
    }
}

/// The word `1 << s` has exactly the bit `s` set.
pub proof fn lemma_bit_one(s: u64, i: int)
    requires
        s < 64,
    ensures
        bit(1u64 << s, i) == (i == s),
{
    if 0 <= i < 64 {
        lemma_one_bv(s, i as u64);
    }
}

/// The zero word has no bit set.
pub proof fn lemma_bit_zero(i: int)
    ensures
        !bit(0u64, i),
{
    if 0 <= i < 64 {
        lemma_zero_bv(i as u64);
    }
}

proof fn lemma_nonzero_from(x: u64, k: u64)
    requires
        k < 64,
        (x >> k) != 0,
    ensures
        exists|i: int| k <= i < 64 && #[trigger] bit(x, i),
    decreases 64 - k,
{
    if k == 63 {
        lemma_nonzero_last_bv(x);
        assert(bit(x, 63));
    } else {
        lemma_nonzero_step_bv(x, k);
        if (x >> k) & 1 == 1 {
            assert(bit(x, k as int));
        } else {
            lemma_nonzero_from(x, (k + 1) as u64);
        }
    }
}

/// A word is non-zero exactly when one of its bits is set.
pub proof fn lemma_nonzero_iff_bit(x: u64)
    ensures
        (x != 0) == (exists|i: int| #[trigger] bit(x, i)),
{
    if x != 0 {
        lemma_shr_zero_bv(x);
        lemma_nonzero_from(x, 0);
    } else {
        assert forall|i: int| !#[trigger] bit(x, i) by {
            if 0 <= i < 64 {
                lemma_zero_means_no_bit_bv(x, i as u64);
            }
        }
    }
}

} // verus!
