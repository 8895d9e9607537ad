//! The copy loops.
//!
//! Each loop is described as a fold over the rows of the blit, and each row as
//! a fold over its words: source and destination may share memory, so what a
//! word is merged with is whatever the words before it have left there.
use vstd::prelude::*;
use crate::prim::{sqInt, UsqInt};
use crate::bitblt::memory::{
    long32At, long32Atput, stepped, valid_word, with_word, word_at, wrap_addr, Memory,
};
use crate::bitblt::state::{BitBlt, ALL_ONES};

verus! {

broadcast use crate::bitblt::memory::group_memory;

/// The memory, and the count of differences, at some point of a blit.
pub struct Picture {
    pub mem: Seq<u8>,
    pub count: int,
}

/// The same within a row of the copy loop, with the source word that came last.
pub struct Strip {
    pub mem: Seq<u8>,
    pub count: int,
    pub prev: u32,
}

impl BitBlt {
    /// Merges `s` into the word at `addr`, under a mask.
    pub open spec fn store(self, mask: u32, p: Picture, addr: int, s: u32) -> Picture {
        let d = word_at(p.mem, addr);
        let merged = self.merge(mask, p.mem, p.count, s, d);
        Picture {
            mem: with_word(merged.mem, addr, (mask & merged.word) | (d & !mask)),
            count: merged.count,
        }
    }

    /// There is room in the count for `n` more words.
    pub open spec fn count_fits(self, count: int, n: int) -> bool {
        sqInt::MIN <= count && count + n * self.count_step() <= sqInt::MAX
    }

    /// Storing a word keeps the size of the memory and adds a bounded amount to
    /// the count.
    pub(crate) proof fn lemma_store(self, mask: u32, p: Picture, addr: int, s: u32)
        requires
            self.dest_wf(),
        ensures
            self.store(mask, p, addr, s).mem.len() == p.mem.len(),
            p.count <= self.store(mask, p, addr, s).count <= p.count + self.count_step(),
    {
        self.lemma_merge(mask, p.mem, p.count, s, word_at(p.mem, addr));
    }

    /// Merges a source word into the word at `addr`, under a mask.
    pub(crate) fn storeWord(&mut self, mem: &mut Memory, mask: u32, addr: UsqInt, sourceWord: u32)
        requires
            old(self).merge_ok(old(mem)@.len()),
            valid_word(old(mem)@, addr as int),
            old(self).bitCount + old(self).count_step() <= sqInt::MAX,
        ensures
            ({
                let p = old(self).store(
                    mask,
                    Picture { mem: old(mem)@, count: old(self).bitCount as int },
                    addr as int,
                    sourceWord,
                );
                &&& final(mem)@ == p.mem
                &&& *final(self) == (BitBlt {
                    destMask: mask,
                    bitCount: p.count as sqInt,
                    ..*old(self)
                })
                &&& final(self).bitCount == p.count
                &&& final(self).steady() == old(self).steady()
                &&& final(mem)@.len() == old(mem)@.len()
            }),
    {
        let destWord: u32 = long32At(mem, addr);
        let ghost before = *self;
        self.destMask = mask;
        proof {
            self.lemma_merge_steady(
                before,
                mask,
                mem@,
                before.bitCount as int,
                sourceWord,
                destWord,
            );
        }
        let mergeWord: u32 = self.mergeFnwith(mem, sourceWord, destWord);
        long32Atput(mem, addr, (mask & mergeWord) | (destWord & !mask));
    }

    /// Merges `s` into the word at `addr`, under a mask. The rule sees only the
    /// masked part of the destination.
    pub open spec fn store_masked(self, mask: u32, p: Picture, addr: int, s: u32) -> Picture {
        let d = word_at(p.mem, addr);
        let merged = self.merge(mask, p.mem, p.count, s, d & mask);
        Picture {
            mem: with_word(merged.mem, addr, (mask & merged.word) | (d & !mask)),
            count: merged.count,
        }
    }

    /// Storing a word keeps the size of the memory and adds a bounded amount to
    /// the count.
    pub(crate) proof fn lemma_store_masked(self, mask: u32, p: Picture, addr: int, s: u32)
        requires
            self.dest_wf(),
        ensures
            self.store_masked(mask, p, addr, s).mem.len() == p.mem.len(),
            p.count <= self.store_masked(mask, p, addr, s).count <= p.count + self.count_step(),
    {
        self.lemma_merge(mask, p.mem, p.count, s, word_at(p.mem, addr) & mask);
    }

    /// What is stored depends on none of the registers that the copy loops step
    /// through.
    pub(crate) proof fn lemma_store_steady(self, bb: BitBlt, mask: u32, p: Picture, addr: int, s: u32)
        requires
            self.steady() == bb.steady(),
        ensures
            self.store(mask, p, addr, s) == bb.store(mask, p, addr, s),
            self.store_masked(mask, p, addr, s) == bb.store_masked(mask, p, addr, s),
    {
        let d = word_at(p.mem, addr);
        self.lemma_merge_steady(bb, mask, p.mem, p.count, s, d);
        self.lemma_merge_steady(bb, mask, p.mem, p.count, s, d & mask);
    }

    /// Merges a source word into the word at `addr`, the rule seeing only the
    /// masked part of the destination.
    pub(crate) fn storeMasked(
        &mut self,
        mem: &mut Memory,
        mask: u32,
        addr: UsqInt,
        sourceWord: u32,
    )
        requires
            old(self).merge_ok(old(mem)@.len()),
            valid_word(old(mem)@, addr as int),
            old(self).bitCount + old(self).count_step() <= sqInt::MAX,
        ensures
            ({
                let p = old(self).store_masked(
                    mask,
                    Picture { mem: old(mem)@, count: old(self).bitCount as int },
                    addr as int,
                    sourceWord,
                );
                &&& final(mem)@ == p.mem
                &&& *final(self) == (BitBlt {
                    destMask: mask,
                    bitCount: p.count as sqInt,
                    ..*old(self)
                })
                &&& final(self).bitCount == p.count
                &&& final(self).steady() == old(self).steady()
                &&& final(mem)@.len() == old(mem)@.len()
            }),
    {
        let destWord: u32 = long32At(mem, addr);
        let ghost before = *self;
        self.destMask = mask;
        proof {
            self.lemma_merge_steady(
                before,
                mask,
                mem@,
                before.bitCount as int,
                sourceWord,
                destWord & mask,
            );
        }
        let mergeWord: u32 = self.mergeFnwith(mem, sourceWord, destWord & mask);
        long32Atput(mem, addr, (mask & mergeWord) | (destWord & !mask));
    }

    // ---- The fill loop ----------------------------------------------------

    /// Words in a row of the destination.
    pub open spec fn row_words(self) -> int {
        if self.nWords > 1 {
            self.nWords as int
        } else {
            1
        }
    }

    /// The mask of word `k` of a row.
    pub open spec fn word_mask(self, k: int) -> u32 {
        if k == 0 {
            self.mask1
        } else if k == self.row_words() - 1 {
            self.mask2
        } else {
            ALL_ONES
        }
    }

    /// The halftone word of row `y` of the destination; all ones without a
    /// halftone.
    pub open spec fn halftone_at(self, m: Seq<u8>, y: int) -> u32 {
        if self.noHalftone {
            ALL_ONES
        } else {
            word_at(m, self.halftoneBase + (y % self.halftoneHeight as int) * 4)
        }
    }

    /// The halftone can be read.
    pub open spec fn halftone_ok(self, size: nat) -> bool {
        self.noHalftone || (0 < self.halftoneHeight && self.halftoneBase + 4 * self.halftoneHeight
            <= size)
    }

    /// The first `k` words of a row that starts at `d`, filled with `h`.
    pub open spec fn fill_words(self, h: u32, p: Picture, d: int, k: int) -> Picture
        decreases k,
    {
        if k <= 0 {
            p
        } else {
            self.store(
                self.word_mask(k - 1),
                self.fill_words(h, p, d, k - 1),
                d + 4 * (k - 1),
                h,
            )
        }
    }

    /// Address of the destination word at the start of row `i` of a loop that
    /// runs left to right.
    pub open spec fn forward_row(self, i: int) -> int {
        self.destIndex + i * (4 * self.row_words() + self.destDelta)
    }

    /// The first `i` rows filled.
    pub open spec fn fill_rows(self, p: Picture, i: int) -> Picture
        decreases i,
    {
        if i <= 0 {
            p
        } else {
            let q = self.fill_rows(p, i - 1);
            self.fill_words(
                self.halftone_at(q.mem, self.dy + i - 1),
                q,
                self.forward_row(i - 1),
                self.row_words(),
            )
        }
    }

    /// Address of word `k` of row `i` of such a loop.
    pub open spec fn forward_word(self, i: int, k: int) -> int {
        self.forward_row(i) + 4 * k
    }

    /// The end of one row and the step between rows lead to the next.
    pub(crate) proof fn lemma_forward_row(self, i: int)
        ensures
            self.forward_word(i, self.row_words()) + self.destDelta == self.forward_row(i + 1),
    {
        let step = 4 * self.row_words() + self.destDelta;
        assert((i + 1) * step == i * step + step) by (nonlinear_arith);
    }

    /// Every destination word of a loop that runs left to right exists.
    pub open spec fn forward_rows_ok(self, size: nat) -> bool {
        forall|i: int, k: int|
            0 <= i < self.bbH && 0 <= k < self.row_words() ==> 0 <= #[trigger] self.forward_word(
                i,
                k,
            ) && self.forward_word(i, k) + 4 <= size
    }

    /// The destination mask that a loop leaves behind.
    pub open spec fn last_mask(self) -> u32 {
        if self.bbH <= 0 {
            self.destMask
        } else if self.row_words() > 1 {
            self.mask2
        } else {
            ALL_ONES
        }
    }

    /// A fill keeps the size of the memory and adds a bounded amount to the
    /// count.
    pub(crate) proof fn lemma_fill_words(self, h: u32, p: Picture, d: int, k: int)
        requires
            self.dest_wf(),
            0 <= k,
        ensures
            self.fill_words(h, p, d, k).mem.len() == p.mem.len(),
            p.count <= self.fill_words(h, p, d, k).count <= p.count + k * self.count_step(),
        decreases k,
    {
        if k > 0 {
            self.lemma_fill_words(h, p, d, k - 1);
            self.lemma_store(
                self.word_mask(k - 1),
                self.fill_words(h, p, d, k - 1),
                d + 4 * (k - 1),
                h,
            );
            assert(k * self.count_step() == (k - 1) * self.count_step() + self.count_step())
                by (nonlinear_arith);
        }
    }

    /// A fill keeps the size of the memory and adds a bounded amount to the
    /// count.
    pub(crate) proof fn lemma_fill_rows(self, p: Picture, i: int)
        requires
            self.dest_wf(),
            0 <= i,
        ensures
            self.fill_rows(p, i).mem.len() == p.mem.len(),
            p.count <= self.fill_rows(p, i).count <= p.count + i * self.row_words()
                * self.count_step(),
        decreases i,
    {
        if i > 0 {
            self.lemma_fill_rows(p, i - 1);
            let q = self.fill_rows(p, i - 1);
            self.lemma_fill_words(
                self.halftone_at(q.mem, self.dy + i - 1),
                q,
                self.forward_row(i - 1),
                self.row_words(),
            );
            assert(i * self.row_words() * self.count_step() == (i - 1) * self.row_words()
                * self.count_step() + self.row_words() * self.count_step()) by (nonlinear_arith);
        }
    }

    /// Reads the halftone word of row `y`.
    pub(crate) fn halftoneWord(&self, mem: &Memory, y: sqInt) -> (r: u32)
        requires
            self.halftone_ok(mem@.len()),
            !self.noHalftone ==> 0 <= y,
        ensures
            r == self.halftone_at(mem@, y as int),
    {
        proof {
            mem.lemma_size();
        }
        if self.noHalftone {
            ALL_ONES
        } else {
            proof {
                lemma_remainder(y as int, self.halftoneHeight as int);
            }
            long32At(mem, self.halftoneBase + ((y % self.halftoneHeight) as UsqInt) * 4)
        }
    }

    /// What the fill loop leaves in the registers.
    pub open spec fn filled(self, p: Picture) -> BitBlt {
        BitBlt {
            bitCount: p.count as sqInt,
            destMask: self.last_mask(),
            destIndex: wrap_addr(
                self.forward_row(
                    if self.bbH > 0 {
                        self.bbH as int
                    } else {
                        0
                    },
                ),
            ),
            ..self
        }
    }

    /// The blit without a source: fills the destination with the halftone, or
    /// with ones.
    pub fn copyLoopNoSource(&mut self, mem: &mut Memory)
        requires
            old(self).merge_ok(old(mem)@.len()),
            old(self).halftone_ok(old(mem)@.len()),
            !old(self).noHalftone ==> 0 <= old(self).dy,
            old(self).forward_rows_ok(old(mem)@.len()),
            old(self).count_fits(
                old(self).bitCount as int,
                old(self).bbH * old(self).row_words(),
            ),
        ensures
            ({
                let p = old(self).fill_rows(
                    Picture { mem: old(mem)@, count: old(self).bitCount as int },
                    old(self).bbH as int,
                );
                &&& final(mem)@ == p.mem
                &&& final(mem)@.len() == old(mem)@.len()
                &&& *final(self) == old(self).filled(p)
            }),
    {
        let ghost bb = *self;
        let ghost start = Picture { mem: mem@, count: self.bitCount as int };
        let words: sqInt = if self.nWords > 1 {
            self.nWords
        } else {
            1
        };
        let height: sqInt = self.bbH as sqInt;
        let mut index: UsqInt = self.destIndex;
        let mut i: sqInt = 0;
        assert(bb.destIndex == wrap_addr(bb.destIndex as int));
        assert(0 * (4 * bb.row_words() + bb.destDelta) == 0);
        while i < height
            invariant
                bb == *old(self),
                start == (Picture { mem: old(mem)@, count: bb.bitCount as int }),
                height == bb.bbH,
                words == bb.row_words(),
                bb.merge_ok(old(mem)@.len()),
                bb.halftone_ok(old(mem)@.len()),
                !bb.noHalftone ==> 0 <= bb.dy,
                bb.forward_rows_ok(old(mem)@.len()),
                bb.count_fits(bb.bitCount as int, bb.bbH * bb.row_words()),
                0 <= i,
                i <= height || i == 0,
                self.steady() == bb.steady(),
                *self == (BitBlt { bitCount: self.bitCount, destMask: self.destMask, ..bb }),
                i > 0 ==> self.destMask == bb.last_mask(),
                i == 0 ==> self.destMask == bb.destMask,
                index == wrap_addr(bb.forward_row(i as int)),
                mem@.len() == old(mem)@.len(),
                mem@ == bb.fill_rows(start, i as int).mem,
                self.bitCount == bb.fill_rows(start, i as int).count,
            decreases height - i,
        {
            let halftone: u32 = self.halftoneWord(mem, self.dy as sqInt + i);
            let ghost row = bb.fill_rows(start, i as int);
            let ghost d = bb.forward_row(i as int);
            let mut k: sqInt = 0;
            proof {
                bb.lemma_fill_rows(start, i as int);
                assert(halftone == bb.halftone_at(row.mem, bb.dy + i));
            }
            while k < words
                invariant
                    bb == *old(self),
                    height == bb.bbH,
                    words == bb.row_words(),
                    bb.merge_ok(old(mem)@.len()),
                    bb.forward_rows_ok(old(mem)@.len()),
                    bb.count_fits(bb.bitCount as int, bb.bbH * bb.row_words()),
                    0 <= i < height,
                    0 <= k <= words,
                    row.mem.len() == old(mem)@.len(),
                    bb.bitCount <= row.count <= bb.bitCount + i * bb.row_words() * bb.count_step(),
                    d == bb.forward_row(i as int),
                    self.steady() == bb.steady(),
                    *self == (BitBlt { bitCount: self.bitCount, destMask: self.destMask, ..bb }),
                    index == wrap_addr(d + 4 * k),
                    mem@.len() == old(mem)@.len(),
                    mem@ == bb.fill_words(halftone, row, d, k as int).mem,
                    self.bitCount == bb.fill_words(halftone, row, d, k as int).count,
                    k > 0 ==> self.destMask == bb.word_mask(k - 1),
                decreases words - k,
            {
                let mask: u32 = if k == 0 {
                    self.mask1
                } else if k == words - 1 {
                    self.mask2
                } else {
                    ALL_ONES
                };
                proof {
                    mem.lemma_size();
                    assert(0 <= bb.forward_word(i as int, k as int));
                    bb.lemma_fill_words(halftone, row, d, k as int);
                    lemma_count_room(
                        i as int,
                        bb.bbH as int,
                        bb.row_words(),
                        k as int,
                        bb.count_step(),
                    );
                    let p = bb.fill_words(halftone, row, d, k as int);
                    self.lemma_merge_steady(
                        bb,
                        mask,
                        p.mem,
                        p.count,
                        halftone,
                        word_at(p.mem, d + 4 * k),
                    );
                }
                self.storeWord(mem, mask, index, halftone);
                index = stepped(index, 4);
                k = k + 1;
            }
            if words == 1 {
                self.destMask = ALL_ONES;
            }
            proof {
                assert(bb.forward_row(i + 1) == d + 4 * words + bb.destDelta)
                    by (nonlinear_arith)
                    requires
                        d == bb.destIndex + i * (4 * words + bb.destDelta),
                        bb.forward_row(i + 1) == bb.destIndex + (i + 1) * (4 * words
                            + bb.destDelta),
                ;
            }
            index = stepped(index, self.destDelta);
            i = i + 1;
        }
        self.destIndex = index;
    }
}

/// A remainder is less than what it was divided by.
pub(crate) proof fn lemma_remainder(a: int, b: int)
    requires
        0 <= a,
        0 < b,
    ensures
        0 <= a % b < b,
{
    assert(0 <= a % b < b) by (nonlinear_arith)
        requires
            0 <= a,
            0 < b,
    ;
}

/// The words already done leave room for one more in the count.
pub(crate) proof fn lemma_count_room(i: int, rows: int, words: int, k: int, step: int)
    requires
        0 <= i < rows,
        0 <= k < words,
        0 <= step,
    ensures
        i * words * step + k * step + step <= (rows * words) * step,
{
    assert(i * words * step + k * step + step <= (rows * words) * step) by (nonlinear_arith)
        requires
            0 <= i < rows,
            0 <= k < words,
            0 <= step,
    {
        assert(i * words + k + 1 <= rows * words) by (nonlinear_arith)
            requires
                0 <= i < rows,
                0 <= k < words,
        ;
        assert(i * words * step + k * step + step == (i * words + k + 1) * step)
            by (nonlinear_arith);
        assert((i * words + k + 1) * step <= (rows * words) * step) by (nonlinear_arith)
            requires
                i * words + k + 1 <= rows * words,
                0 <= step,
        ;
    }
}

} // verus!
