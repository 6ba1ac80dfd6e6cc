//! The bit-level model: what it means for a bit of a word, or of a word
//! array, to be set, together with the word-granularity helpers (masking,
//! shifting, zero counts) that the range operations are built from.

use vstd::prelude::*;

verus! {

/// Bit `b` of the 64-bit word `w` (bit 0 is the least significant).
pub open spec fn bit64(w: u64, b: u64) -> bool
    recommends
        b < 64,
{
    (w >> b) & 1u64 == 1u64
}

/// Bit `p` of a word array: bit `p % 64` of word `p / 64`.
pub open spec fn bit_at(words: Seq<u64>, p: int) -> bool
    recommends
        0 <= p < 64 * words.len(),
{
    bit64(words[p / 64], (p % 64) as u64)
}

/// The set of positions in `[offset, limit)` whose bit is set.
pub open spec fn ones_in(words: Seq<u64>, offset: int, limit: int) -> Set<int> {
    Set::new(|p: int| offset <= p < limit && bit_at(words, p))
}

/// A nonnegative position splits into a word index and a bit index.
pub proof fn lemma_pos_decompose(x: int)
    by (nonlinear_arith)
    requires
        0 <= x,
    ensures
        x == 64 * (x / 64) + x % 64,
        0 <= x % 64 < 64,
        0 <= x / 64,
{
}

/// Word index and bit index of the position `64 * w + b`.
pub proof fn lemma_word_index(w: int, b: int)
    by (nonlinear_arith)
    requires
        0 <= w,
        0 <= b < 64,
    ensures
        (64 * w + b) / 64 == w,
        (64 * w + b) % 64 == b,
{
}

/// `bit_at` at position `64 * w + b` reads bit `b` of word `w`.
pub proof fn lemma_bit_at_word(words: Seq<u64>, w: int, b: u64)
    requires
        0 <= w,
        b < 64,
    ensures
        bit_at(words, 64 * w + b) == bit64(words[w], b),
{
    lemma_word_index(w, b as int);
}

/// Division by 64 preserves order.
pub proof fn lemma_div64_ordered(x: int, y: int)
    by (nonlinear_arith)
    requires
        0 <= x <= y,
    ensures
        x / 64 <= y / 64,
{
}

/// Words that agree on their low `n` bits agree once both are shifted
/// up by `64 - n`.
proof fn lemma_low_bits_eq(x: u64, y: u64, n: u64)
    requires
        n <= 64,
        forall|b: u64| b < n ==> bit64(x, b) == bit64(y, b),
    ensures
        x << ((64 - n) as u64) == y << ((64 - n) as u64),
    decreases n,
{
    if n == 0 {
        assert(x << 64u64 == y << 64u64) by (bit_vector);
    } else {
        lemma_low_bits_eq(x, y, (n - 1) as u64);
        assert(x << ((64 - n) as u64) == y << ((64 - n) as u64)) by (bit_vector)
            requires
                0 < n <= 64,
                x << ((64 - (n - 1)) as u64) == y << ((64 - (n - 1)) as u64),
                bit64(x, (n - 1) as u64) == bit64(y, (n - 1) as u64),
        ;
    }
}

/// Two words with the same bits are the same word.
pub proof fn lemma_bit64_ext(x: u64, y: u64)
    requires
        forall|b: u64| b < 64 ==> bit64(x, b) == bit64(y, b),
    ensures
        x == y,
{
    lemma_low_bits_eq(x, y, 64);
    assert(x << 0u64 == x && y << 0u64 == y) by (bit_vector);
}

/// A word whose low `n` bits are set and whose other bits are clear
/// (the all-ones word when `n == 64`).
pub fn low_mask(n: u64) -> (m: u64)
    requires
        n <= 64,
    ensures
        forall|b: u64| b < 64 ==> #[trigger] bit64(m, b) == (b < n),
{
    if n == 64 {
        let m: u64 = !0u64;
        proof {
            assert(forall|b: u64| b < 64 ==> #[trigger] bit64(m, b) == (b < 64)) by (bit_vector)
                requires
                    m == !0u64,
            ;
        }
        m
    } else {
        proof {
            assert(1u64 << n >= 1u64) by (bit_vector)
                requires
                    n < 64,
            ;
        }
        let m: u64 = (1u64 << n) - 1;
        proof {
            assert(forall|b: u64| b < 64 ==> #[trigger] bit64(m, b) == (b < n)) by (bit_vector)
                requires
                    n < 64,
                    m == (1u64 << n) - 1,
            ;
        }
        m
    }
}

/// A word whose bits at positions `s` and above are set and whose low
/// bits are clear.
pub fn high_mask(s: u64) -> (m: u64)
    requires
        s < 64,
    ensures
        forall|b: u64| b < 64 ==> #[trigger] bit64(m, b) == (b >= s),
{
    proof {
        assert(1u64 << s >= 1u64) by (bit_vector)
            requires
                s < 64,
        ;
    }
    let lowm: u64 = (1u64 << s) - 1;
    let m: u64 = !lowm;
    proof {
        assert(forall|b: u64| b < 64 ==> #[trigger] bit64(m, b) == (b >= s)) by (bit_vector)
            requires
                s < 64,
                lowm == (1u64 << s) - 1,
                m == !lowm,
        ;
    }
    m
}

/// Bitwise and, bit by bit.
pub proof fn lemma_and_bits(x: u64, y: u64, z: u64)
    requires
        z == x & y,
    ensures
        forall|b: u64| b < 64 ==> #[trigger] bit64(z, b) == (bit64(x, b) && bit64(y, b)),
{
    assert(forall|b: u64| b < 64 ==> #[trigger] bit64(z, b) == (bit64(x, b) && bit64(y, b)))
        by (bit_vector)
        requires
            z == x & y,
    ;
}

/// The zero word has no set bit.
pub proof fn lemma_zero_bits()
    ensures
        forall|b: u64| !(#[trigger] bit64(0u64, b)),
{
    assert(forall|b: u64| !(#[trigger] bit64(0u64, b))) by (bit_vector);
}

/// Merge: keep the bits of `w` where `m` is set and the bits of `d`
/// where it is clear.
pub fn mask_merge(d: u64, m: u64, w: u64) -> (r: u64)
    ensures
        forall|b: u64|
            b < 64 ==> #[trigger] bit64(r, b) == (if bit64(m, b) {
                bit64(w, b)
            } else {
                bit64(d, b)
            }),
{
    let r: u64 = (d & !m) | (m & w);
    proof {
        assert(forall|b: u64|
            b < 64 ==> #[trigger] bit64(r, b) == (if bit64(m, b) {
                bit64(w, b)
            } else {
                bit64(d, b)
            })) by (bit_vector)
            requires
                r == (d & !m) | (m & w),
        ;
    }
    r
}

/// Shift right: bit `b` of the result is bit `b + s` of `x`.
pub fn shift_down(x: u64, s: u64) -> (r: u64)
    requires
        s < 64,
    ensures
        forall|b: u64| b < 64 ==> #[trigger] bit64(r, b) == (b + s < 64 && bit64(x, (b + s) as u64)),
{
    let r: u64 = x >> s;
    proof {
        assert(forall|b: u64|
            b < 64 ==> #[trigger] bit64(r, b) == (b + s < 64 && bit64(x, (b + s) as u64)))
            by (bit_vector)
            requires
                s < 64,
                r == x >> s,
        ;
    }
    r
}

/// Shift left: bit `b` of the result is bit `b - s` of `x`.
pub fn shift_up(x: u64, s: u64) -> (r: u64)
    requires
        s < 64,
    ensures
        forall|b: u64| b < 64 ==> #[trigger] bit64(r, b) == (b >= s && bit64(x, (b - s) as u64)),
{
    let r: u64 = x << s;
    proof {
        assert(forall|b: u64|
            b < 64 ==> #[trigger] bit64(r, b) == (b >= s && bit64(x, (b - s) as u64)))
            by (bit_vector)
            requires
                s < 64,
                r == x << s,
        ;
    }
    r
}

/// A word read at bit offset `sh` across the boundary of the two adjacent
/// words `s0` (lower) and `s1` (upper): bit `b` of the result is bit
/// `b + sh` of the 128-bit value `s1:s0`.
pub fn gather_two(s0: u64, s1: u64, sh: u64) -> (r: u64)
    requires
        0 < sh < 64,
    ensures
        forall|b: u64|
            b < 64 ==> #[trigger] bit64(r, b) == (if b + sh < 64 {
                bit64(s0, (b + sh) as u64)
            } else {
                bit64(s1, (b + sh - 64) as u64)
            }),
{
    let up: u64 = 64 - sh;
    let r: u64 = (s0 >> sh) | (s1 << up);
    proof {
        assert(forall|b: u64|
            b < 64 ==> #[trigger] bit64(r, b) == (if b + sh < 64 {
                bit64(s0, (b + sh) as u64)
            } else {
                bit64(s1, (b + sh - 64) as u64)
            })) by (bit_vector)
            requires
                0 < sh < 64,
                up == 64 - sh,
                r == (s0 >> sh) | (s1 << up),
        ;
    }
    r
}

/// Clearing one set bit by xor with its mask leaves every other bit alone.
pub proof fn lemma_clear_bit(w: u64, b: u64, z: u64)
    requires
        b < 64,
        bit64(w, b),
        z == w ^ (1u64 << b),
    ensures
        !bit64(z, b),
        forall|c: u64| c < 64 && c != b ==> #[trigger] bit64(z, c) == bit64(w, c),
{
    assert(!bit64(z, b) && forall|c: u64| c < 64 && c != b ==> #[trigger] bit64(z, c) == bit64(
        w,
        c,
    )) by (bit_vector)
        requires
            b < 64,
            bit64(w, b),
            z == w ^ (1u64 << b),
    ;
}

/// Position of the lowest set bit of a nonzero word, by trailing-zero count.
pub fn lowest_one(w: u64) -> (b: u64)
    requires
        w != 0,
    ensures
        b < 64,
        bit64(w, b),
        forall|c: u64| c < b ==> !bit64(w, c),
{
    let tz: u32 = w.trailing_zeros();
    proof {
        vstd::std_specs::bits::axiom_u64_trailing_zeros(w);
    }
    tz as u64
}

/// Position of the highest set bit of a nonzero word, by leading-zero count.
pub fn highest_one(w: u64) -> (b: u64)
    requires
        w != 0,
    ensures
        b < 64,
        bit64(w, b),
        forall|c: u64| b < c < 64 ==> !bit64(w, c),
{
    let lz: u32 = w.leading_zeros();
    proof {
        vstd::std_specs::bits::axiom_u64_leading_zeros(w);
    }
    let b: u32 = 63 - lz;
    proof {
        assert(forall|x: u64, c: u64| ((x >> c) & 1u64 != 1u64) ==> ((x >> c) & 1u64 == 0u64))
            by (bit_vector);
    }
    b as u64
}

} // verus!
