//! Lazy enumeration of the set-bit positions of a range, as pull-based
//! cursors: the forward cursor keeps the current word with the already
//! yielded bits cleared and walks the remaining words itself, the backward
//! cursor shrinks its range around `find_last_one`.

use vstd::prelude::*;

use crate::bit_search::find_last_one;
use crate::word::bit64;
use crate::word::bit_at;
use crate::word::high_mask;
use crate::word::lemma_and_bits;
use crate::word::lemma_clear_bit;
use crate::word::lemma_div64_ordered;
use crate::word::lemma_pos_decompose;
use crate::word::lemma_word_index;
use crate::word::lemma_zero_bits;
use crate::word::low_mask;
use crate::word::lowest_one;
use crate::word::ones_in;

verus! {

/// Ascending cursor over the set bits of a range of a word array.
///
/// `current_word` is the word at `word_pos` with the bits already yielded
/// (and the bits outside the range) cleared; `end_mask` keeps the bits
/// below the range's limit and is applied when `word_pos` reaches
/// `word_limit`, the word holding the last position of the range.
pub struct ForwardOnesIterator<'a> {
    pub words: &'a Vec<u64>,
    pub current_word: u64,
    pub word_pos: usize,
    pub word_limit: usize,
    pub end_mask: u64,
}

impl<'a> ForwardOnesIterator<'a> {
    /// The cursor reads only words up to `word_limit`, which lies inside
    /// the array whenever it is still ahead, and every position it can
    /// yield fits in a `usize`.
    pub open spec fn wf(self) -> bool {
        &&& self.word_pos <= self.word_limit
        &&& (self.word_pos < self.word_limit ==> self.word_limit < self.words@.len())
        &&& forall|p: int| #[trigger] self.remaining().contains(p) ==> p <= usize::MAX as int
    }

    /// The positions the cursor has not yielded yet: the set bits left in
    /// the current word, and the set bits of the words ahead, masked by
    /// `end_mask` in the final word.
    pub open spec fn remaining(self) -> Set<int> {
        Set::new(
            |p: int|
                {
                    &&& 0 <= p
                    &&& {
                        ||| (p / 64 == self.word_pos && bit64(self.current_word, (p % 64) as u64))
                        ||| (self.word_pos < p / 64 < self.word_limit && bit_at(self.words@, p))
                        ||| (self.word_pos < p / 64 && p / 64 == self.word_limit && bit64(
                            self.words@[p / 64] & self.end_mask,
                            (p % 64) as u64,
                        ))
                    }
                },
        )
    }

    /// Yields the smallest remaining set-bit position and removes it, or
    /// reports that none is left.
    #[verifier::loop_isolation(false)]
    pub fn next(&mut self) -> (r: Option<usize>)
        requires
            old(self).wf(),
        ensures
            final(self).wf(),
            final(self).words == old(self).words,
            match r {
                Some(p) => {
                    &&& old(self).remaining().contains(p as int)
                    &&& forall|q: int| old(self).remaining().contains(q) ==> p <= q
                    &&& final(self).remaining() == old(self).remaining().remove(p as int)
                },
                None => {
                    &&& old(self).remaining() == Set::<int>::empty()
                    &&& final(self).remaining() == Set::<int>::empty()
                },
            },
    {
        if self.current_word == 0 {
            if self.word_pos >= self.word_limit {
                proof {
                    lemma_zero_bits();
                    assert forall|p: int| !(#[trigger] self.remaining().contains(p)) by {}
                    assert(self.remaining() =~= Set::<int>::empty());
                }
                return None;
            }
            self.word_pos = self.word_pos + 1;
            let mut w: u64 = self.words[self.word_pos];
            while self.word_pos < self.word_limit && w == 0
                invariant
                    old(self).word_pos < self.word_pos <= self.word_limit,
                    w == self.words@[self.word_pos as int],
                    forall|k: int|
                        old(self).word_pos < k < self.word_pos ==> self.words@[k] == 0,
                    self.words == old(self).words,
                    self.word_limit == old(self).word_limit,
                    self.end_mask == old(self).end_mask,
                    self.current_word == 0,
                decreases self.word_limit - self.word_pos,
            {
                self.word_pos = self.word_pos + 1;
                w = self.words[self.word_pos];
            }
            if self.word_pos == self.word_limit {
                w = w & self.end_mask;
            }
            self.current_word = w;
            proof {
                lemma_zero_bits();
                assert forall|p: int|
                    self.remaining().contains(p) == old(self).remaining().contains(p) by {
                    if 0 <= p {
                        lemma_pos_decompose(p);
                    }
                }
                assert(self.remaining() =~= old(self).remaining());
            }
            if self.current_word == 0 {
                proof {
                    assert forall|p: int| !(#[trigger] self.remaining().contains(p)) by {}
                    assert(self.remaining() =~= Set::<int>::empty());
                }
                return None;
            }
        }
        let ghost pre = *self;
        let b: u64 = lowest_one(self.current_word);
        proof {
            lemma_word_index(self.word_pos as int, b as int);
            assert(self.remaining().contains(64 * (self.word_pos as int) + b as int));
        }
        let p: usize = self.word_pos * 64 + (b as usize);
        let cleared: u64 = self.current_word ^ (1u64 << b);
        proof {
            lemma_clear_bit(self.current_word, b, cleared);
        }
        self.current_word = cleared;
        proof {
            assert(pre.remaining().contains(p as int));
            assert forall|q: int| pre.remaining().contains(q) implies p <= q by {
                lemma_pos_decompose(q);
            }
            assert forall|q: int|
                self.remaining().contains(q) == pre.remaining().remove(p as int).contains(
                    q,
                ) by {
                if 0 <= q {
                    lemma_pos_decompose(q);
                }
            }
            assert(self.remaining() =~= pre.remaining().remove(p as int));
        }
        Some(p)
    }
}

/// Ascending cursor over the set bits of `[offset, limit)`; its
/// `remaining` set starts as exactly those positions.
pub fn iter_ones<'a>(words: &'a Vec<u64>, offset: usize, limit: usize) -> (it: ForwardOnesIterator<
    'a,
>)
    requires
        offset <= limit,
        limit <= 64 * words@.len(),
    ensures
        it.wf(),
        it.words == words,
        it.remaining() == ones_in(words@, offset as int, limit as int),
{
    if offset == limit {
        let it = ForwardOnesIterator {
            words,
            current_word: 0u64,
            word_pos: 0usize,
            word_limit: 0usize,
            end_mask: 0u64,
        };
        proof {
            lemma_zero_bits();
            assert forall|p: int| !(#[trigger] it.remaining().contains(p)) by {}
            assert(it.remaining() =~= ones_in(words@, offset as int, limit as int));
        }
        return it;
    }
    proof {
        lemma_pos_decompose(offset as int);
        lemma_pos_decompose(limit as int - 1);
        lemma_word_index(words@.len() as int - 1, 63);
        lemma_div64_ordered(offset as int, limit as int - 1);
        lemma_div64_ordered(limit as int - 1, 64 * words@.len() as int - 1);
    }
    let word_start: usize = offset / 64;
    let bit_start: u64 = (offset % 64) as u64;
    let last: usize = limit - 1;
    let word_limit: usize = last / 64;
    let bit_last: u64 = (last % 64) as u64;
    let sm: u64 = high_mask(bit_start);
    let em: u64 = low_mask(bit_last + 1);
    let w0: u64 = words[word_start];
    let first: u64 = if word_start == word_limit {
        let both: u64 = sm & em;
        proof {
            lemma_and_bits(sm, em, both);
        }
        let f: u64 = w0 & both;
        proof {
            lemma_and_bits(w0, both, f);
        }
        f
    } else {
        let f: u64 = w0 & sm;
        proof {
            lemma_and_bits(w0, sm, f);
        }
        f
    };
    let it = ForwardOnesIterator {
        words,
        current_word: first,
        word_pos: word_start,
        word_limit,
        end_mask: em,
    };
    proof {
        assert forall|p: int|
            it.remaining().contains(p) == ones_in(words@, offset as int, limit as int).contains(
                p,
            ) by {
            if 0 <= p {
                lemma_pos_decompose(p);
                let pb: u64 = (p % 64) as u64;
                if p / 64 == word_limit && p / 64 > word_start {
                    lemma_and_bits(words@[p / 64], em, words@[p / 64] & em);
                }
            }
        }
        assert(it.remaining() =~= ones_in(words@, offset as int, limit as int));
    }
    it
}

/// Descending cursor over the set bits of a range of a word array: each
/// pull finds the last set bit of `[offset, limit)` and makes it the new
/// exclusive `limit`.
pub struct BackwardOnesIterator<'a> {
    pub words: &'a Vec<u64>,
    pub offset: usize,
    pub limit: usize,
}

impl<'a> BackwardOnesIterator<'a> {
    /// The cursor's range is well formed and stays inside the array.
    pub open spec fn wf(self) -> bool {
        &&& self.offset <= self.limit
        &&& self.limit <= 64 * self.words@.len()
    }

    /// The positions the cursor has not yielded yet: the set bits still
    /// inside `[offset, limit)`.
    pub open spec fn remaining(self) -> Set<int> {
        ones_in(self.words@, self.offset as int, self.limit as int)
    }

    /// Yields the largest remaining set-bit position and removes it, or
    /// reports that none is left.
    pub fn next(&mut self) -> (r: Option<usize>)
        requires
            old(self).wf(),
        ensures
            final(self).wf(),
            final(self).words == old(self).words,
            final(self).offset == old(self).offset,
            match r {
                Some(p) => {
                    &&& old(self).remaining().contains(p as int)
                    &&& forall|q: int| old(self).remaining().contains(q) ==> q <= p
                    &&& final(self).remaining() == old(self).remaining().remove(p as int)
                },
                None => {
                    &&& old(self).remaining() == Set::<int>::empty()
                    &&& final(self).remaining() == Set::<int>::empty()
                },
            },
    {
        match find_last_one(self.words, self.offset, self.limit) {
            None => {
                proof {
                    assert(self.remaining() =~= Set::<int>::empty());
                }
                None
            },
            Some(p) => {
                self.limit = p;
                proof {
                    assert(self.remaining() =~= old(self).remaining().remove(p as int));
                }
                Some(p)
            },
        }
    }
}

/// Search and forward iteration agree: a position is the minimum of the
/// range's set-bit positions — what the first pull of a fresh forward
/// cursor yields — exactly when it is the set bit of the range that
/// `find_first_one` describes, the one preceded by no other.
pub proof fn lemma_first_pull_agrees(words: Seq<u64>, offset: int, limit: int, p: int)
    ensures
        (ones_in(words, offset, limit).contains(p) && (forall|q: int|
            ones_in(words, offset, limit).contains(q) ==> p <= q)) <==> (offset <= p < limit
            && bit_at(words, p) && (forall|q: int| offset <= q < p ==> !bit_at(words, q))),
{
    let s = ones_in(words, offset, limit);
    if s.contains(p) && (forall|q: int| s.contains(q) ==> p <= q) {
        assert forall|q: int| offset <= q < p implies !bit_at(words, q) by {
            if bit_at(words, q) {
                assert(s.contains(q));
            }
        }
    }
    if offset <= p < limit && bit_at(words, p) && (forall|q: int|
        offset <= q < p ==> !bit_at(words, q)) {
        assert(s.contains(p));
        assert forall|q: int| s.contains(q) implies p <= q by {
            assert(offset <= q < limit && bit_at(words, q));
        }
    }
}

/// Search and backward iteration agree: a position is the maximum of the
/// range's set-bit positions — what the first pull of a fresh backward
/// cursor yields — exactly when it is the set bit of the range that
/// `find_last_one` describes, the one followed by no other.
pub proof fn lemma_last_pull_agrees(words: Seq<u64>, offset: int, limit: int, p: int)
    ensures
        (ones_in(words, offset, limit).contains(p) && (forall|q: int|
            ones_in(words, offset, limit).contains(q) ==> q <= p)) <==> (offset <= p < limit
            && bit_at(words, p) && (forall|q: int| p < q < limit ==> !bit_at(words, q))),
{
    let s = ones_in(words, offset, limit);
    if s.contains(p) && (forall|q: int| s.contains(q) ==> q <= p) {
        assert forall|q: int| p < q < limit implies !bit_at(words, q) by {
            if offset <= q && bit_at(words, q) {
                assert(s.contains(q));
            }
        }
    }
    if offset <= p < limit && bit_at(words, p) && (forall|q: int|
        p < q < limit ==> !bit_at(words, q)) {
        assert(s.contains(p));
        assert forall|q: int| s.contains(q) implies q <= p by {
            assert(offset <= q < limit && bit_at(words, q));
        }
    }
}

/// Search and iteration agree on exhaustion: the range's set of set-bit
/// positions — what either cursor has left to yield — is empty exactly
/// when no position of the range holds a set bit, the case in which both
/// searches answer `None`.
pub proof fn lemma_exhausted_agrees(words: Seq<u64>, offset: int, limit: int)
    ensures
        (ones_in(words, offset, limit) == Set::<int>::empty()) <==> (forall|q: int|
            offset <= q < limit ==> !bit_at(words, q)),
{
    let s = ones_in(words, offset, limit);
    if s == Set::<int>::empty() {
        assert forall|q: int| offset <= q < limit implies !bit_at(words, q) by {
            if bit_at(words, q) {
                assert(s.contains(q));
            }
        }
    }
    if forall|q: int| offset <= q < limit ==> !bit_at(words, q) {
        assert forall|q: int| !(#[trigger] s.contains(q)) by {}
        assert(s =~= Set::<int>::empty());
    }
}

/// An empty range holds no set-bit position: a cursor built over it has
/// nothing to yield, and a search over it can only answer `None`, whatever
/// the words hold and wherever the boundary falls within a word.
pub proof fn lemma_empty_range_has_no_ones(words: Seq<u64>, offset: int)
    ensures
        ones_in(words, offset, offset) == Set::<int>::empty(),
{
    assert(ones_in(words, offset, offset) =~= Set::<int>::empty());
}

/// Forward pulls strictly ascend: a pull yields the minimum of what
/// remains and removes it, so whatever a later pull yields is larger.
pub proof fn lemma_pulls_ascend(s: Set<int>, p1: int, p2: int)
    requires
        forall|q: int| s.contains(q) ==> p1 <= q,
        s.remove(p1).contains(p2),
    ensures
        p1 < p2,
{
    assert(s.contains(p2));
}

/// Backward pulls strictly descend: a pull yields the maximum of what
/// remains and removes it, so whatever a later pull yields is smaller.
pub proof fn lemma_pulls_descend(s: Set<int>, p1: int, p2: int)
    requires
        forall|q: int| s.contains(q) ==> q <= p1,
        s.remove(p1).contains(p2),
    ensures
        p2 < p1,
{
    assert(s.contains(p2));
}

/// Descending cursor over the set bits of `[offset, limit)`; its
/// `remaining` set starts as exactly those positions.
pub fn backward_iter_ones<'a>(words: &'a Vec<u64>, offset: usize, limit: usize) -> (it:
    BackwardOnesIterator<'a>)
    requires
        offset <= limit,
        limit <= 64 * words@.len(),
    ensures
        it.wf(),
        it.words == words,
        it.remaining() == ones_in(words@, offset as int, limit as int),
{
    BackwardOnesIterator { words, offset, limit }
}

} // verus!
