//! Range searches over a packed bit array: the position of the first or
//! last set bit within a half-open range `[offset, limit)` of bit
//! positions, found by masking the boundary words and counting zeros,
//! never by testing bits one at a time.

use vstd::prelude::*;

use crate::word::bit64;
use crate::word::bit_at;
use crate::word::high_mask;
use crate::word::highest_one;
use crate::word::lemma_and_bits;
use crate::word::lemma_bit_at_word;
use crate::word::lemma_div64_ordered;
use crate::word::lemma_pos_decompose;
use crate::word::lemma_word_index;
use crate::word::lemma_zero_bits;
use crate::word::low_mask;
use crate::word::lowest_one;

verus! {

/// The smallest set-bit position in `[offset, limit)`, or `None` when the
/// range holds no set bit (in particular when it is empty).
#[verifier::loop_isolation(false)]
pub fn find_first_one(words: &Vec<u64>, offset: usize, limit: usize) -> (r: Option<usize>)
    requires
        offset <= limit,
        limit <= 64 * words@.len(),
    ensures
        match r {
            Some(p) => {
                &&& offset <= p < limit
                &&& bit_at(words@, p as int)
                &&& forall|q: int| offset <= q < p ==> !bit_at(words@, q)
            },
            None => forall|q: int| offset <= q < limit ==> !bit_at(words@, q),
        },
{
    if offset == limit {
        return None;
    }
    proof {
        lemma_pos_decompose(offset as int);
        lemma_pos_decompose(limit as int);
        lemma_word_index(words@.len() as int - 1, 63);
        lemma_div64_ordered(offset as int, 64 * words@.len() as int - 1);
        lemma_word_index(words@.len() as int, 0);
        lemma_div64_ordered(limit as int, 64 * words@.len() as int);
        lemma_div64_ordered(offset as int, limit as int);
    }
    let word_start: usize = offset / 64;
    let word_limit: usize = limit / 64;
    let start_bit: u64 = (offset % 64) as u64;
    let bit_limit: u64 = (limit % 64) as u64;
    let sm: u64 = high_mask(start_bit);
    let w0: u64 = words[word_start];
    let masked0: u64 = if word_start == word_limit {
        let em: u64 = low_mask(bit_limit);
        let both: u64 = sm & em;
        proof {
            lemma_and_bits(sm, em, both);
        }
        let f: u64 = w0 & both;
        proof {
            lemma_and_bits(w0, both, f);
        }
        f
    } else {
        let f: u64 = w0 & sm;
        proof {
            lemma_and_bits(w0, sm, f);
        }
        f
    };
    proof {
        assert(forall|b: u64|
            b < 64 ==> #[trigger] bit64(masked0, b) == (bit64(w0, b) && b >= start_bit && (
            word_start < word_limit || b < bit_limit)));
    }
    if masked0 != 0 {
        let b: u64 = lowest_one(masked0);
        proof {
            lemma_bit_at_word(words@, word_start as int, b);
            assert(64 * word_start + b < limit);
            assert forall|q: int| offset <= q < 64 * word_start + b implies !bit_at(
                words@,
                q,
            ) by {
                lemma_pos_decompose(q);
                lemma_word_index(word_start as int, q - 64 * word_start);
                let qb: u64 = (q % 64) as u64;
                assert(start_bit <= qb < b);
                assert(!bit64(masked0, qb));
                assert(!bit64(w0, qb));
            };
        }
        return Some(word_start * 64 + (b as usize));
    }
    if word_start == word_limit {
        proof {
            lemma_zero_bits();
            assert forall|q: int| offset <= q < limit implies !bit_at(words@, q) by {
                lemma_pos_decompose(q);
                lemma_word_index(word_start as int, q - 64 * word_start);
                let qb: u64 = (q % 64) as u64;
                assert(start_bit <= qb < bit_limit);
                assert(!bit64(masked0, qb));
                assert(!bit64(w0, qb));
            };
        }
        return None;
    }
    let mut word_pos: usize = word_start + 1;
    proof {
        lemma_zero_bits();
        assert forall|q: int| offset <= q < 64 * word_pos implies !bit_at(words@, q) by {
            lemma_pos_decompose(q);
            lemma_word_index(word_start as int, q - 64 * word_start);
            let qb: u64 = (q % 64) as u64;
            assert(start_bit <= qb);
            assert(!bit64(masked0, qb));
            assert(!bit64(w0, qb));
        };
    }
    while word_pos < word_limit
        invariant
            word_start < word_pos <= word_limit,
            forall|q: int| offset <= q < 64 * word_pos ==> !bit_at(words@, q),
        decreases word_limit - word_pos,
    {
        let w: u64 = words[word_pos];
        if w != 0 {
            let b: u64 = lowest_one(w);
            proof {
                lemma_bit_at_word(words@, word_pos as int, b);
                assert(64 * word_pos + b < limit);
                assert forall|q: int| offset <= q < 64 * word_pos + b implies !bit_at(
                    words@,
                    q,
                ) by {
                    if q >= 64 * word_pos {
                        lemma_pos_decompose(q);
                        lemma_word_index(word_pos as int, q - 64 * word_pos);
                        let qb: u64 = (q % 64) as u64;
                        assert(!bit64(w, qb));
                    }
                };
            }
            return Some(word_pos * 64 + (b as usize));
        }
        proof {
            lemma_zero_bits();
            assert forall|q: int| offset <= q < 64 * (word_pos + 1) implies !bit_at(
                words@,
                q,
            ) by {
                if q >= 64 * word_pos {
                    lemma_pos_decompose(q);
                    lemma_word_index(word_pos as int, q - 64 * word_pos);
                    let qb: u64 = (q % 64) as u64;
                    assert(!bit64(w, qb));
                }
            };
        }
        word_pos += 1;
    }
    if bit_limit > 0 {
        let em: u64 = low_mask(bit_limit);
        let wl_word: u64 = words[word_limit];
        let lw: u64 = wl_word & em;
        proof {
            lemma_and_bits(wl_word, em, lw);
        }
        if lw != 0 {
            let b: u64 = lowest_one(lw);
            proof {
                lemma_bit_at_word(words@, word_limit as int, b);
                assert(64 * word_limit + b < limit);
                assert forall|q: int| offset <= q < 64 * word_limit + b implies !bit_at(
                    words@,
                    q,
                ) by {
                    if q >= 64 * word_limit {
                        lemma_pos_decompose(q);
                        lemma_word_index(word_limit as int, q - 64 * word_limit);
                        let qb: u64 = (q % 64) as u64;
                        assert(qb < b);
                        assert(!bit64(lw, qb));
                        assert(!bit64(wl_word, qb));
                    }
                };
            }
            return Some(word_limit * 64 + (b as usize));
        }
        proof {
            lemma_zero_bits();
            assert forall|q: int| offset <= q < limit implies !bit_at(words@, q) by {
                if q >= 64 * word_limit {
                    lemma_pos_decompose(q);
                    lemma_word_index(word_limit as int, q - 64 * word_limit);
                    let qb: u64 = (q % 64) as u64;
                    assert(qb < bit_limit);
                    assert(!bit64(lw, qb));
                    assert(!bit64(wl_word, qb));
                }
            };
        }
        return None;
    }
    None
}

/// The largest set-bit position in `[offset, limit)`, or `None` when the
/// range holds no set bit (in particular when it is empty).
#[verifier::loop_isolation(false)]
pub fn find_last_one(words: &Vec<u64>, offset: usize, limit: usize) -> (r: Option<usize>)
    requires
        offset <= limit,
        limit <= 64 * words@.len(),
    ensures
        match r {
            Some(p) => {
                &&& offset <= p < limit
                &&& bit_at(words@, p as int)
                &&& forall|q: int| p < q < limit ==> !bit_at(words@, q)
            },
            None => forall|q: int| offset <= q < limit ==> !bit_at(words@, q),
        },
{
    if offset == limit {
        return None;
    }
    proof {
        lemma_pos_decompose(offset as int);
        lemma_pos_decompose(limit as int);
        lemma_word_index(words@.len() as int - 1, 63);
        lemma_div64_ordered(offset as int, 64 * words@.len() as int - 1);
        lemma_word_index(words@.len() as int, 0);
        lemma_div64_ordered(limit as int, 64 * words@.len() as int);
        lemma_div64_ordered(offset as int, limit as int);
    }
    let word_bottom: usize = offset / 64;
    let word_top: usize = limit / 64;
    let bit_bottom: u64 = (offset % 64) as u64;
    let bit_top: u64 = (limit % 64) as u64;
    let bm: u64 = high_mask(bit_bottom);
    if bit_top > 0 {
        let em: u64 = low_mask(bit_top);
        let w0: u64 = words[word_top];
        let masked0: u64 = if word_top == word_bottom {
            let both: u64 = em & bm;
            proof {
                lemma_and_bits(em, bm, both);
            }
            let f: u64 = w0 & both;
            proof {
                lemma_and_bits(w0, both, f);
            }
            f
        } else {
            let f: u64 = w0 & em;
            proof {
                lemma_and_bits(w0, em, f);
            }
            f
        };
        proof {
            assert(forall|b: u64|
                b < 64 ==> #[trigger] bit64(masked0, b) == (bit64(w0, b) && b < bit_top && (
                word_bottom < word_top || b >= bit_bottom)));
        }
        if masked0 != 0 {
            let b: u64 = highest_one(masked0);
            proof {
                lemma_bit_at_word(words@, word_top as int, b);
                assert(offset <= 64 * word_top + b);
                assert forall|q: int| 64 * word_top + b < q < limit implies !bit_at(
                    words@,
                    q,
                ) by {
                    lemma_pos_decompose(q);
                    lemma_word_index(word_top as int, q - 64 * word_top);
                    let qb: u64 = (q % 64) as u64;
                    assert(b < qb < bit_top);
                    assert(!bit64(masked0, qb));
                    assert(!bit64(w0, qb));
                };
            }
            return Some(word_top * 64 + (b as usize));
        }
        if word_top == word_bottom {
            proof {
                lemma_zero_bits();
                assert forall|q: int| offset <= q < limit implies !bit_at(words@, q) by {
                    lemma_pos_decompose(q);
                    lemma_word_index(word_top as int, q - 64 * word_top);
                    let qb: u64 = (q % 64) as u64;
                    assert(bit_bottom <= qb < bit_top);
                    assert(!bit64(masked0, qb));
                    assert(!bit64(w0, qb));
                };
            }
            return None;
        }
        proof {
            lemma_zero_bits();
            assert forall|q: int| 64 * word_top <= q < limit implies !bit_at(words@, q) by {
                lemma_pos_decompose(q);
                lemma_word_index(word_top as int, q - 64 * word_top);
                let qb: u64 = (q % 64) as u64;
                assert(qb < bit_top);
                assert(!bit64(masked0, qb));
                assert(!bit64(w0, qb));
            };
        }
    } else {
        if word_top == word_bottom {
            // With a word-aligned limit in the same word as the offset, the
            // range `[offset, limit)` is empty; that was handled above.
            proof {
                assert(offset >= limit);
            }
            return None;
        }
    }
    let mut word_pos: usize = word_top - 1;
    while word_pos > word_bottom
        invariant
            word_bottom <= word_pos < word_top,
            forall|q: int| 64 * (word_pos + 1) <= q < limit ==> !bit_at(words@, q),
        decreases word_pos,
    {
        let w: u64 = words[word_pos];
        if w != 0 {
            let b: u64 = highest_one(w);
            proof {
                lemma_bit_at_word(words@, word_pos as int, b);
                assert(offset <= 64 * word_pos + b);
                assert(64 * word_pos + b < limit);
                assert forall|q: int| 64 * word_pos + b < q < limit implies !bit_at(
                    words@,
                    q,
                ) by {
                    if q < 64 * (word_pos + 1) {
                        lemma_pos_decompose(q);
                        lemma_word_index(word_pos as int, q - 64 * word_pos);
                        let qb: u64 = (q % 64) as u64;
                        assert(b < qb);
                        assert(!bit64(w, qb));
                    }
                };
            }
            return Some(word_pos * 64 + (b as usize));
        }
        proof {
            lemma_zero_bits();
            assert forall|q: int| 64 * word_pos <= q < limit implies !bit_at(words@, q) by {
                if q < 64 * (word_pos + 1) {
                    lemma_pos_decompose(q);
                    lemma_word_index(word_pos as int, q - 64 * word_pos);
                    let qb: u64 = (q % 64) as u64;
                    assert(!bit64(w, qb));
                }
            };
        }
        word_pos -= 1;
    }
    let wb_word: u64 = words[word_bottom];
    let lw: u64 = wb_word & bm;
    proof {
        lemma_and_bits(wb_word, bm, lw);
    }
    if lw != 0 {
        let b: u64 = highest_one(lw);
        proof {
            lemma_bit_at_word(words@, word_bottom as int, b);
            assert(offset <= 64 * word_bottom + b);
            assert(64 * word_bottom + b < limit);
            assert forall|q: int| 64 * word_bottom + b < q < limit implies !bit_at(
                words@,
                q,
            ) by {
                if q < 64 * (word_bottom + 1) {
                    lemma_pos_decompose(q);
                    lemma_word_index(word_bottom as int, q - 64 * word_bottom);
                    let qb: u64 = (q % 64) as u64;
                    assert(b < qb);
                    assert(!bit64(lw, qb));
                    assert(!bit64(wb_word, qb));
                }
            };
        }
        return Some(word_bottom * 64 + (b as usize));
    }
    proof {
        lemma_zero_bits();
        assert forall|q: int| offset <= q < limit implies !bit_at(words@, q) by {
            if q < 64 * (word_bottom + 1) {
                lemma_pos_decompose(q);
                lemma_word_index(word_bottom as int, q - 64 * word_bottom);
                let qb: u64 = (q % 64) as u64;
                assert(bit_bottom <= qb);
                assert(!bit64(lw, qb));
                assert(!bit64(wb_word, qb));
            }
        };
    }
    None
}

} // verus!
