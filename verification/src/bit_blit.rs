//! Copying a run of bits between two packed bit arrays at arbitrary,
//! unaligned offsets, using only word-granularity reads and writes: a
//! masked head up to the first word boundary of the destination, whole
//! destination words assembled from one or two source words, and a masked
//! tail for the bits past the last boundary.

use vstd::prelude::*;

use crate::word::bit64;
use crate::word::bit_at;
use crate::word::gather_two;
use crate::word::lemma_bit64_ext;
use crate::word::lemma_bit_at_word;
use crate::word::lemma_div64_ordered;
use crate::word::lemma_pos_decompose;
use crate::word::lemma_word_index;
use crate::word::low_mask;
use crate::word::mask_merge;
use crate::word::shift_down;
use crate::word::shift_up;

verus! {

/// Copies `n` bits read at `src_offset` of `src` into bits
/// `[dst_bit, dst_bit + n)` of the destination word `dst_word`, merging
/// them under a mask so that the word's other bits keep their value. The
/// run must fit in that one word; the source may straddle a boundary.
#[verifier::rlimit(100)]
fn blit_word(src: &Vec<u64>, src_offset: usize, dst: &mut Vec<u64>, dst_word: usize, dst_bit: u64, n: u64)
    requires
        0 < n <= 64,
        dst_bit < 64,
        dst_bit as int + n as int <= 64,
        dst_word < old(dst)@.len(),
        src_offset as int + n as int <= 64 * src@.len(),
    ensures
        final(dst)@.len() == old(dst)@.len(),
        forall|p: int|
            64 * dst_word + dst_bit <= p < 64 * dst_word + dst_bit + n
                ==> #[trigger] bit_at(final(dst)@, p) == bit_at(
                src@,
                src_offset + (p - (64 * dst_word + dst_bit)),
            ),
        forall|p: int|
            0 <= p < 64 * old(dst)@.len() && !(64 * dst_word + dst_bit <= p < 64 * dst_word
                + dst_bit + n) ==> #[trigger] bit_at(final(dst)@, p) == bit_at(old(dst)@, p),
        forall|k: int|
            0 <= k < old(dst)@.len() && k != dst_word ==> final(dst)@[k] == old(dst)@[k],
{
    proof {
        lemma_pos_decompose(src_offset as int);
    }
    let src_word: usize = src_offset / 64;
    let src_bit: u64 = (src_offset % 64) as u64;
    proof {
        assert(64 * src_word as int + src_bit as int == src_offset as int);
        assert(64 * src_word < 64 * src@.len());
    }
    let s0: u64 = src[src_word];
    let g: u64 = if src_bit + n <= 64 {
        shift_down(s0, src_bit)
    } else {
        proof {
            assert(64 * (src_word as int + 1) <= src_offset as int + n as int - 1);
        }
        let s1: u64 = src[src_word + 1];
        gather_two(s0, s1, src_bit)
    };
    proof {
        assert forall|j: u64| j < n implies bit64(g, j) == bit_at(
            src@,
            src_offset as int + j as int,
        ) by {
            if j + src_bit < 64 {
                lemma_bit_at_word(src@, src_word as int, (j + src_bit) as u64);
            } else {
                lemma_bit_at_word(src@, src_word as int + 1, (j + src_bit - 64) as u64);
            }
        }
    }
    let m: u64 = shift_up(low_mask(n), dst_bit);
    let w: u64 = shift_up(g, dst_bit);
    let d0: u64 = dst[dst_word];
    let nw: u64 = mask_merge(d0, m, w);
    dst.set(dst_word, nw);
    proof {
        assert forall|p: int|
            64 * dst_word + dst_bit <= p < 64 * dst_word + dst_bit + n implies #[trigger] bit_at(
            dst@,
            p,
        ) == bit_at(src@, src_offset + (p - (64 * dst_word + dst_bit))) by {
            lemma_word_index(dst_word as int, p - 64 * dst_word as int);
            let bb: u64 = (p - 64 * dst_word as int) as u64;
            assert(bit64(m, bb));
            assert(bit64(nw, bb) == bit64(w, bb));
            assert(bit64(w, bb) == bit64(g, (bb - dst_bit) as u64));
        }
        assert forall|p: int|
            0 <= p < 64 * old(dst)@.len() && !(64 * dst_word + dst_bit <= p < 64 * dst_word
                + dst_bit + n) implies #[trigger] bit_at(dst@, p) == bit_at(old(dst)@, p) by {
            lemma_pos_decompose(p);
            if p / 64 == dst_word as int {
                let bb: u64 = (p % 64) as u64;
                assert(!bit64(m, bb));
                assert(bit64(nw, bb) == bit64(d0, bb));
            }
        }
    }
}

/// A blit of a range onto itself changes nothing: when the source array
/// equals the destination before the copy and both offsets agree, the
/// contract of `blit` — copied bits inside the range, untouched bits
/// outside it — forces the array after the copy to equal the array
/// before it, word for word.
pub proof fn lemma_blit_self_copy(pre: Seq<u64>, post: Seq<u64>, offset: int, count: int)
    requires
        post.len() == pre.len(),
        0 <= offset,
        0 <= count,
        offset + count <= 64 * pre.len(),
        forall|p: int|
            offset <= p < offset + count ==> #[trigger] bit_at(post, p) == bit_at(
                pre,
                offset + (p - offset),
            ),
        forall|p: int|
            0 <= p < 64 * pre.len() && !(offset <= p < offset + count) ==> #[trigger] bit_at(
                post,
                p,
            ) == bit_at(pre, p),
    ensures
        post == pre,
{
    assert forall|k: int| 0 <= k < pre.len() implies post[k] == pre[k] by {
        assert forall|b: u64| b < 64 implies bit64(post[k], b) == bit64(pre[k], b) by {
            lemma_bit_at_word(post, k, b);
            lemma_bit_at_word(pre, k, b);
        }
        lemma_bit64_ext(post[k], pre[k]);
    }
    assert(post =~= pre);
}

/// Overwrites bits `[dst_offset, dst_offset + count)` of `dst` with bits
/// `[src_offset, src_offset + count)` of `src`; every other bit of `dst`
/// keeps its value. An empty run leaves `dst` unchanged. The borrows
/// guarantee that the two arrays do not overlap in memory.
#[verifier::loop_isolation(false)]
#[verifier::rlimit(100)]
pub fn blit(src: &Vec<u64>, src_offset: usize, dst: &mut Vec<u64>, dst_offset: usize, count: usize)
    requires
        src_offset + count <= 64 * src@.len(),
        dst_offset + count <= 64 * old(dst)@.len(),
        src_offset + count <= usize::MAX,
        dst_offset + count <= usize::MAX,
    ensures
        final(dst)@.len() == old(dst)@.len(),
        forall|p: int|
            dst_offset <= p < dst_offset + count ==> #[trigger] bit_at(final(dst)@, p) == bit_at(
                src@,
                src_offset + (p - dst_offset),
            ),
        forall|p: int|
            0 <= p < 64 * old(dst)@.len() && !(dst_offset <= p < dst_offset + count)
                ==> #[trigger] bit_at(final(dst)@, p) == bit_at(old(dst)@, p),
{
    if count == 0 {
        return ;
    }
    proof {
        lemma_pos_decompose(src_offset as int);
        lemma_pos_decompose(dst_offset as int);
        lemma_pos_decompose(src_offset as int + count as int);
        lemma_pos_decompose(dst_offset as int + count as int);
        lemma_div64_ordered(src_offset as int, src_offset as int + count as int);
        lemma_div64_ordered(dst_offset as int, dst_offset as int + count as int);
    }
    let dst_end_offset: usize = dst_offset + count;
    let src_word_start: usize = src_offset / 64;
    let dst_word_start: usize = dst_offset / 64;
    let dst_word_end: usize = dst_end_offset / 64;
    let src_bit_start: u64 = (src_offset % 64) as u64;
    let dst_bit_start: u64 = (dst_offset % 64) as u64;
    let dst_bit_end: u64 = (dst_end_offset % 64) as u64;
    proof {
        assert(64 * src_word_start as int + src_bit_start as int == src_offset as int);
        assert(64 * dst_word_start as int + dst_bit_start as int == dst_offset as int);
        assert(64 * dst_word_end as int + dst_bit_end as int == dst_end_offset as int);
        assert(64 * dst_word_start < 64 * old(dst)@.len());
    }
    if dst_word_start == dst_word_end {
        proof {
            assert(dst_bit_start as int + count as int == dst_bit_end as int);
        }
        blit_word(src, src_offset, dst, dst_word_start, dst_bit_start, count as u64);
        return ;
    }
    let mut src_word_pos: usize = src_word_start;
    let mut src_bit_pos: u64 = src_bit_start;
    let mut dst_word_pos: usize = dst_word_start;

    if dst_bit_start > 0 {
        let bn: u64 = 64 - dst_bit_start;
        blit_word(src, src_offset, dst, dst_word_pos, dst_bit_start, bn);
        src_bit_pos = src_bit_pos + bn;
        if src_bit_pos >= 64 {
            src_word_pos = src_word_pos + 1;
            src_bit_pos = src_bit_pos - 64;
        }
        dst_word_pos = dst_word_pos + 1;
    }
    proof {
        assert(64 * src_word_pos as int + src_bit_pos as int == src_offset as int + (64
            * dst_word_pos as int - dst_offset as int));
    }
    if src_bit_pos == 0 {
        while dst_word_pos < dst_word_end
            invariant
                dst_offset as int <= 64 * dst_word_pos as int,
                dst_word_pos <= dst_word_end,
                64 * src_word_pos as int == src_offset as int + (64 * dst_word_pos as int
                    - dst_offset as int),
                dst@.len() == old(dst)@.len(),
                forall|p: int|
                    dst_offset as int <= p < 64 * dst_word_pos as int ==> #[trigger] bit_at(
                        dst@,
                        p,
                    ) == bit_at(src@, src_offset as int + (p - dst_offset as int)),
                forall|p: int|
                    0 <= p < dst_offset as int ==> #[trigger] bit_at(dst@, p) == bit_at(
                        old(dst)@,
                        p,
                    ),
                forall|k: int| dst_word_pos as int <= k < dst@.len() ==> dst@[k] == old(dst)@[k],
            decreases dst_word_end - dst_word_pos,
        {
            proof {
                assert(64 * src_word_pos as int + 63 < 64 * src@.len());
            }
            let ghost dprev = dst@;
            let s0: u64 = src[src_word_pos];
            dst.set(dst_word_pos, s0);
            proof {
                assert forall|p: int|
                    dst_offset as int <= p < 64 * (dst_word_pos as int + 1) implies #[trigger] bit_at(
                    dst@,
                    p,
                ) == bit_at(src@, src_offset as int + (p - dst_offset as int)) by {
                    lemma_pos_decompose(p);
                    if p >= 64 * dst_word_pos as int {
                        lemma_word_index(dst_word_pos as int, p - 64 * dst_word_pos as int);
                        let pb: u64 = (p % 64) as u64;
                        lemma_bit_at_word(src@, src_word_pos as int, pb);
                    } else {
                        assert(bit_at(dprev, p) == bit_at(src@, src_offset as int + (p
                            - dst_offset as int)));
                        assert(dst@[p / 64] == dprev[p / 64]);
                    }
                }
                assert forall|p: int|
                    0 <= p < dst_offset as int implies #[trigger] bit_at(dst@, p) == bit_at(
                    old(dst)@,
                    p,
                ) by {
                    lemma_pos_decompose(p);
                    assert(bit_at(dprev, p) == bit_at(old(dst)@, p));
                    assert(dst@[p / 64] == dprev[p / 64]);
                }
            }
            src_word_pos = src_word_pos + 1;
            dst_word_pos = dst_word_pos + 1;
        }
    } else {
        while dst_word_pos < dst_word_end
            invariant
                dst_offset as int <= 64 * dst_word_pos as int,
                dst_word_pos <= dst_word_end,
                0 < src_bit_pos < 64,
                64 * src_word_pos as int + src_bit_pos as int == src_offset as int + (64
                    * dst_word_pos as int - dst_offset as int),
                dst@.len() == old(dst)@.len(),
                forall|p: int|
                    dst_offset as int <= p < 64 * dst_word_pos as int ==> #[trigger] bit_at(
                        dst@,
                        p,
                    ) == bit_at(src@, src_offset as int + (p - dst_offset as int)),
                forall|p: int|
                    0 <= p < dst_offset as int ==> #[trigger] bit_at(dst@, p) == bit_at(
                        old(dst)@,
                        p,
                    ),
                forall|k: int| dst_word_pos as int <= k < dst@.len() ==> dst@[k] == old(dst)@[k],
            decreases dst_word_end - dst_word_pos,
        {
            proof {
                assert(64 * (src_word_pos as int + 1) < 64 * src@.len());
            }
            let ghost dprev = dst@;
            let s0: u64 = src[src_word_pos];
            let s1: u64 = src[src_word_pos + 1];
            let v: u64 = gather_two(s0, s1, src_bit_pos);
            dst.set(dst_word_pos, v);
            proof {
                assert forall|p: int|
                    dst_offset as int <= p < 64 * (dst_word_pos as int + 1) implies #[trigger] bit_at(
                    dst@,
                    p,
                ) == bit_at(src@, src_offset as int + (p - dst_offset as int)) by {
                    lemma_pos_decompose(p);
                    if p >= 64 * dst_word_pos as int {
                        lemma_word_index(dst_word_pos as int, p - 64 * dst_word_pos as int);
                        let pb: u64 = (p % 64) as u64;
                        if pb + src_bit_pos < 64 {
                            lemma_bit_at_word(src@, src_word_pos as int, (pb + src_bit_pos) as u64);
                        } else {
                            lemma_bit_at_word(
                                src@,
                                src_word_pos as int + 1,
                                (pb + src_bit_pos - 64) as u64,
                            );
                        }
                    } else {
                        assert(bit_at(dprev, p) == bit_at(src@, src_offset as int + (p
                            - dst_offset as int)));
                        assert(dst@[p / 64] == dprev[p / 64]);
                    }
                }
                assert forall|p: int|
                    0 <= p < dst_offset as int implies #[trigger] bit_at(dst@, p) == bit_at(
                    old(dst)@,
                    p,
                ) by {
                    lemma_pos_decompose(p);
                    assert(bit_at(dprev, p) == bit_at(old(dst)@, p));
                    assert(dst@[p / 64] == dprev[p / 64]);
                }
            }
            src_word_pos = src_word_pos + 1;
            dst_word_pos = dst_word_pos + 1;
        }
    }
    let ghost dmid = dst@;
    if dst_bit_end > 0 {
        proof {
            assert(64 * dst_word_end < 64 * old(dst)@.len());
            assert(dst_bit_end as int <= count as int - 1);
        }
        let src_tail_offset: usize = src_offset + (count - (dst_bit_end as usize));
        proof {
            assert(src_tail_offset as int + dst_bit_end as int <= 64 * src@.len());
        }
        blit_word(src, src_tail_offset, dst, dst_word_end, 0, dst_bit_end);
    }
    proof {
        assert forall|p: int| dst_offset <= p < dst_offset + count implies #[trigger] bit_at(
            dst@,
            p,
        ) == bit_at(src@, src_offset + (p - dst_offset)) by {
            lemma_pos_decompose(p);
            if p < 64 * dst_word_end as int {
                assert(bit_at(dmid, p) == bit_at(src@, src_offset as int + (p
                    - dst_offset as int)));
                assert(p / 64 != dst_word_end as int);
                assert(dst@[p / 64] == dmid[p / 64]);
            }
        }
        assert forall|p: int|
            0 <= p < 64 * old(dst)@.len() && !(dst_offset <= p < dst_offset + count) implies #[trigger] bit_at(
            dst@,
            p,
        ) == bit_at(old(dst)@, p) by {
            lemma_pos_decompose(p);
            if p < dst_offset as int {
                assert(bit_at(dmid, p) == bit_at(old(dst)@, p));
                assert(p / 64 != dst_word_end as int);
                assert(dst@[p / 64] == dmid[p / 64]);
            } else {
                assert(p >= dst_end_offset as int);
                if p / 64 != dst_word_end as int {
                    assert(dmid[p / 64] == old(dst)@[p / 64]);
                    assert(dst@[p / 64] == dmid[p / 64]);
                } else {
                    assert(dmid[p / 64] == old(dst)@[p / 64]);
                }
            }
        }
    }
}

} // verus!
