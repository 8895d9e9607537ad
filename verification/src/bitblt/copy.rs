//! The loop that copies between forms of the same depth and bit order, one word
//! at a time, shifting the source words into the destination's alignment.
use vstd::prelude::*;
use crate::prim::{sqInt, UsqInt};
use crate::bitblt::memory::{long32At, long32Atput, stepped, with_word, word_at, wrap_addr, Memory};
use crate::bitblt::state::{
    shift32, shift_word, shl32, shl_word, shr32, shr_word, BitBlt, ALL_ONES,
};
use crate::bitblt::engine::{lemma_count_room, lemma_remainder, Picture, Strip};

verus! {

broadcast use crate::bitblt::memory::group_memory;

impl BitBlt {
    /// Bytes from one word of a row to the next.
    pub open spec fn word_step(self) -> int {
        4 * self.hDir
    }

    /// One when a source word is read ahead, 0 otherwise.
    pub open spec fn ahead(self) -> int {
        if self.preload {
            1
        } else {
            0
        }
    }

    /// Address of source word `k` of row `i`, in the order they are read.
    #[verifier::opaque]
    pub open spec fn fetch_addr(self, i: int, k: int) -> int {
        self.sourceIndex + i * (self.word_step() * (self.row_words() + self.ahead())
            + self.sourceDelta) + self.word_step() * k
    }

    /// Address of destination word `k` of row `i`, in the order they are
    /// written.
    #[verifier::opaque]
    pub open spec fn put_addr(self, i: int, k: int) -> int {
        self.destIndex + i * (self.word_step() * self.row_words() + self.destDelta)
            + self.word_step() * k
    }

    /// The bits of a source word that stay in the destination word they are
    /// first shifted into.
    pub open spec fn skew_mask(self) -> u32 {
        if self.skew < 0 {
            shl_word(ALL_ONES, -self.skew)
        } else if self.skew == 0 {
            ALL_ONES
        } else {
            shr_word(ALL_ONES, self.skew as int)
        }
    }

    /// How far the other bits are shifted.
    pub open spec fn unskew(self) -> int {
        if self.skew < 0 {
            self.skew + 32
        } else if self.skew == 0 {
            0
        } else {
            self.skew - 32
        }
    }

    /// A destination word from two source words that follow one another: the
    /// bits that come over from the earlier one, and those of the later one.
    pub open spec fn funnel(self, prev: u32, this: u32) -> u32 {
        shift_word(prev & !self.skew_mask(), self.unskew()) | shift_word(
            this & self.skew_mask(),
            self.skew as int,
        )
    }

    /// A plain move of words that runs one word behind its source.
    pub open spec fn runs_behind(self, h: u32) -> bool {
        self.combinationRule == 3 && self.skew == 0 && h == ALL_ONES && self.preload && self.hDir
            == 1
    }

    /// One word of row `i` copied.
    pub open spec fn copy_word(self, h: u32, q: Strip, i: int, k: int) -> Strip {
        let d = self.put_addr(i, k);
        let s = self.fetch_addr(i, k + self.ahead());
        if self.runs_behind(h) && 0 < k < self.row_words() - 1 {
            let m = with_word(q.mem, d, q.prev);
            Strip { mem: m, count: q.count, prev: word_at(m, s) }
        } else {
            let this = word_at(q.mem, s);
            let p = self.store(
                self.word_mask(k),
                Picture { mem: q.mem, count: q.count },
                d,
                self.funnel(q.prev, this) & h,
            );
            Strip { mem: p.mem, count: p.count, prev: this }
        }
    }

    /// The first `k` words of row `i` copied.
    pub open spec fn copy_words(self, h: u32, p: Picture, i: int, k: int) -> Strip
        decreases k,
    {
        if k <= 0 {
            Strip {
                mem: p.mem,
                count: p.count,
                prev: if self.preload {
                    word_at(p.mem, self.fetch_addr(i, 0))
                } else {
                    0
                },
            }
        } else {
            self.copy_word(h, self.copy_words(h, p, i, k - 1), i, k - 1)
        }
    }

    /// The halftone word for row `i`. A halftone of a single row is read once,
    /// before the first row.
    pub open spec fn copy_halftone(self, first: Seq<u8>, m: Seq<u8>, i: int) -> u32 {
        if self.noHalftone {
            ALL_ONES
        } else if self.halftoneHeight > 1 {
            word_at(
                m,
                self.halftoneBase + ((self.dy + i * self.vDir) % self.halftoneHeight as int) * 4,
            )
        } else {
            word_at(first, self.halftoneBase as int)
        }
    }

    /// The first `i` rows copied.
    pub open spec fn copy_rows(self, p: Picture, i: int) -> Picture
        decreases i,
    {
        if i <= 0 {
            p
        } else {
            let q = self.copy_rows(p, i - 1);
            let strip = self.copy_words(
                self.copy_halftone(p.mem, q.mem, i - 1),
                q,
                i - 1,
                self.row_words(),
            );
            Picture { mem: strip.mem, count: strip.count }
        }
    }

    /// Every source word that the loop reads exists.
    pub open spec fn fetches_ok(self, size: nat) -> bool {
        forall|i: int, k: int|
            0 <= i < self.bbH && 0 <= k < self.row_words() + self.ahead() ==> 0
                <= #[trigger] self.fetch_addr(i, k) && self.fetch_addr(i, k) + 4 <= size
    }

    /// Every destination word that the loop writes exists.
    pub open spec fn puts_ok(self, size: nat) -> bool {
        forall|i: int, k: int|
            0 <= i < self.bbH && 0 <= k < self.row_words() ==> 0 <= #[trigger] self.put_addr(i, k)
                && self.put_addr(i, k) + 4 <= size
    }

    /// The halftone can be read for every row of the copy loop.
    pub open spec fn copy_halftone_ok(self, size: nat) -> bool {
        self.noHalftone || {
            &&& self.halftoneBase + 4 <= size
            &&& self.halftoneHeight > 1 ==> self.halftoneBase + 4 * self.halftoneHeight <= size
                && self.dy >= 0 && self.dy + (self.bbH - 1) * self.vDir >= 0
        }
    }

    /// The copy loop can run on a memory of this size.
    pub open spec fn copy_ok(self, size: nat, count: int) -> bool {
        &&& self.merge_ok(size)
        &&& -32 <= self.skew <= 32
        &&& self.steps_fit()
        &&& self.fetches_ok(size)
        &&& self.puts_ok(size)
        &&& self.copy_halftone_ok(size)
        &&& self.count_fits(count, self.bbH * self.row_words())
    }

    /// What the copy loop leaves in the registers.
    pub open spec fn copied(self, p: Picture) -> BitBlt {
        let rows = if self.bbH > 0 {
            self.bbH as int
        } else {
            0
        };
        BitBlt {
            bitCount: p.count as sqInt,
            destMask: self.last_mask(),
            destIndex: wrap_addr(self.put_addr(rows, 0)),
            sourceIndex: wrap_addr(self.fetch_addr(rows, 0)),
            halftoneHeight: if self.noHalftone {
                0
            } else {
                self.halftoneHeight
            },
            ..self
        }
    }

    /// Copying words keeps the size of the memory and adds a bounded amount to
    /// the count.
    pub(crate) proof fn lemma_copy_words(self, h: u32, p: Picture, i: int, k: int)
        requires
            self.dest_wf(),
            0 <= k,
        ensures
            self.copy_words(h, p, i, k).mem.len() == p.mem.len(),
            p.count <= self.copy_words(h, p, i, k).count <= p.count + k * self.count_step(),
        decreases k,
    {
        if k > 0 {
            self.lemma_copy_words(h, p, i, k - 1);
            let q = self.copy_words(h, p, i, k - 1);
            let this = word_at(q.mem, self.fetch_addr(i, k - 1 + self.ahead()));
            self.lemma_store(
                self.word_mask(k - 1),
                Picture { mem: q.mem, count: q.count },
                self.put_addr(i, k - 1),
                self.funnel(q.prev, this) & h,
            );
            assert(k * self.count_step() == (k - 1) * self.count_step() + self.count_step())
                by (nonlinear_arith);
        }
    }

    /// Copying rows keeps the size of the memory and adds a bounded amount to
    /// the count.
    pub(crate) proof fn lemma_copy_rows(self, p: Picture, i: int)
        requires
            self.dest_wf(),
            0 <= i,
        ensures
            self.copy_rows(p, i).mem.len() == p.mem.len(),
            p.count <= self.copy_rows(p, i).count <= p.count + i * self.row_words()
                * self.count_step(),
        decreases i,
    {
        if i > 0 {
            self.lemma_copy_rows(p, i - 1);
            let q = self.copy_rows(p, i - 1);
            self.lemma_copy_words(
                self.copy_halftone(p.mem, q.mem, i - 1),
                q,
                i - 1,
                self.row_words(),
            );
            assert(i * self.row_words() * self.count_step() == (i - 1) * self.row_words()
                * self.count_step() + self.row_words() * self.count_step()) by (nonlinear_arith);
        }
    }

    fn funnelWords(prevWord: u32, thisWord: u32, skew: sqInt) -> (r: u32)
        requires
            -32 <= skew <= 32,
        ensures
            forall|bb: BitBlt|
                bb.skew == skew ==> r == #[trigger] bb.funnel(prevWord, thisWord),
    {
        let (unskew, skewMask): (sqInt, u32) = if skew < 0 {
            (skew + 32, shl32(ALL_ONES, -skew))
        } else if skew == 0 {
            (0, ALL_ONES)
        } else {
            (skew - 32, shr32(ALL_ONES, skew))
        };
        shift32(prevWord & !skewMask, unskew) | shift32(thisWord & skewMask, skew)
    }

    /// Copies row `i`, starting at the addresses in `sourceIndex` and
    /// `destIndex`, and answers the addresses after the last word.
    fn copyRow(
        &mut self,
        mem: &mut Memory,
        halftoneWord: u32,
        sourceIndex: UsqInt,
        destIndex: UsqInt,
        Ghost(bb): Ghost<BitBlt>,
        Ghost(i): Ghost<int>,
    ) -> (r: (UsqInt, UsqInt))
        requires
            bb.merge_ok(old(mem)@.len()),
            -32 <= bb.skew <= 32,
            bb.steps_fit(),
            bb.fetches_ok(old(mem)@.len()),
            bb.puts_ok(old(mem)@.len()),
            0 <= i < bb.bbH,
            old(self).steady() == bb.steady(),
            old(self).count_fits(old(self).bitCount as int, bb.row_words()),
            sourceIndex == wrap_addr(bb.fetch_addr(i, 0)),
            destIndex == wrap_addr(bb.put_addr(i, 0)),
        ensures
            ({
                let strip = bb.copy_words(
                    halftoneWord,
                    Picture { mem: old(mem)@, count: old(self).bitCount as int },
                    i,
                    bb.row_words(),
                );
                &&& final(mem)@ == strip.mem
                &&& final(mem)@.len() == old(mem)@.len()
                &&& *final(self) == (BitBlt {
                    bitCount: strip.count as sqInt,
                    destMask: if bb.row_words() > 1 {
                        bb.mask2
                    } else {
                        ALL_ONES
                    },
                    ..*old(self)
                })
                &&& final(self).bitCount == strip.count
                &&& r.0 == wrap_addr(bb.fetch_addr(i, bb.row_words() + bb.ahead()))
                &&& r.1 == wrap_addr(bb.put_addr(i, bb.row_words()))
            }),
    {
        let ghost before = *self;
        let ghost p = Picture { mem: mem@, count: self.bitCount as int };
        let skew: sqInt = self.skew;
        let words: sqInt = if self.nWords > 1 {
            self.nWords
        } else {
            1
        };
        let hInc: sqInt = self.hDir * 4;
        let behind: bool = self.combinationRule == 3 && skew == 0 && halftoneWord == ALL_ONES
            && self.preload && self.hDir == 1;
        let mut s: UsqInt = sourceIndex;
        let mut d: UsqInt = destIndex;
        let mut prevWord: u32 = 0;
        proof {
            mem.lemma_size();
            assert(before.steady().skew == bb.steady().skew);
            assert(words == bb.row_words());
        }
        if self.preload {
            proof {
                assert(0 <= bb.fetch_addr(i, 0));
                lemma_next_word(bb, i, 0);
            }
            prevWord = long32At(mem, s);
            s = stepped(s, hInc);
        }
        let mut k: sqInt = 0;
        while k < words
            invariant
                p == (Picture { mem: old(mem)@, count: old(self).bitCount as int }),
                before == *old(self),
                before.steady() == bb.steady(),
                bb.merge_ok(old(mem)@.len()),
                -32 <= bb.skew <= 32,
                skew == bb.skew,
                bb.steps_fit(),
                bb.fetches_ok(old(mem)@.len()),
                bb.puts_ok(old(mem)@.len()),
                0 <= i < bb.bbH,
                words == bb.row_words(),
                hInc == bb.word_step(),
                behind == bb.runs_behind(halftoneWord),
                before.count_fits(p.count, bb.row_words()),
                before.count_step() == bb.count_step(),
                0 <= k <= words,
                *self == (BitBlt { bitCount: self.bitCount, destMask: self.destMask, ..before }),
                self.steady() == bb.steady(),
                s == wrap_addr(bb.fetch_addr(i, k + bb.ahead())),
                d == wrap_addr(bb.put_addr(i, k as int)),
                mem@.len() == old(mem)@.len(),
                mem@ == bb.copy_words(halftoneWord, p, i, k as int).mem,
                self.bitCount == bb.copy_words(halftoneWord, p, i, k as int).count,
                prevWord == bb.copy_words(halftoneWord, p, i, k as int).prev,
            decreases words - k,
        {
            let ghost q = bb.copy_words(halftoneWord, p, i, k as int);
            proof {
                mem.lemma_size();
                assert(0 <= bb.put_addr(i, k as int));
                assert(0 <= bb.fetch_addr(i, k + bb.ahead()));
                lemma_next_word(bb, i, k as int);
                lemma_next_word(bb, i, k + bb.ahead());
            }
            if behind && 0 < k && k < words - 1 {
                long32Atput(mem, d, prevWord);
                prevWord = long32At(mem, s);
            } else {
                let mask: u32 = if k == 0 {
                    self.mask1
                } else if k == words - 1 {
                    self.mask2
                } else {
                    ALL_ONES
                };
                let thisWord: u32 = long32At(mem, s);
                let skewWord: u32 = Self::funnelWords(prevWord, thisWord, skew);
                proof {
                    assert(skewWord == bb.funnel(prevWord, thisWord));
                    bb.lemma_copy_words(halftoneWord, p, i, k as int);
                    assert(k * bb.count_step() + bb.count_step() <= words * bb.count_step())
                        by (nonlinear_arith)
                        requires
                            0 <= k < words,
                            0 <= bb.count_step(),
                    ;
                    self.lemma_merge_steady(
                        bb,
                        mask,
                        q.mem,
                        q.count,
                        skewWord & halftoneWord,
                        word_at(q.mem, bb.put_addr(i, k as int)),
                    );
                }
                self.storeWord(mem, mask, d, skewWord & halftoneWord);
                prevWord = thisWord;
            }
            s = stepped(s, hInc);
            d = stepped(d, hInc);
            k = k + 1;
        }
        self.destMask = if words > 1 {
            self.mask2
        } else {
            ALL_ONES
        };
        (s, d)
    }

    /// The blit between forms of the same depth and bit order.
    pub fn copyLoop(&mut self, mem: &mut Memory)
        requires
            old(self).copy_ok(old(mem)@.len(), old(self).bitCount as int),
        ensures
            ({
                let p = old(self).copy_rows(
                    Picture { mem: old(mem)@, count: old(self).bitCount as int },
                    old(self).bbH as int,
                );
                &&& final(mem)@ == p.mem
                &&& final(mem)@.len() == old(mem)@.len()
                &&& *final(self) == old(self).copied(p)
            }),
    {
        let ghost bb = *self;
        let ghost start = Picture { mem: mem@, count: self.bitCount as int };
        let height: sqInt = self.bbH as sqInt;
        let mut sourceIndex: UsqInt = self.sourceIndex;
        let mut destIndex: UsqInt = self.destIndex;
        let mut halftoneWord: u32 = ALL_ONES;
        proof {
            mem.lemma_size();
            lemma_first_row(bb);
        }
        if !self.noHalftone {
            halftoneWord = long32At(mem, self.halftoneBase);
        }
        let mut y: sqInt = self.dy as sqInt;
        let mut i: sqInt = 0;
        while i < height
            invariant
                bb == *old(self),
                start == (Picture { mem: old(mem)@, count: bb.bitCount as int }),
                height == bb.bbH,
                bb.copy_ok(old(mem)@.len(), bb.bitCount as int),
                0 <= i,
                i <= height || i == 0,
                y == bb.dy + i * bb.vDir,
                -0x1_0000_0000 <= y <= 0x1_0000_0000,
                *self == (BitBlt { bitCount: self.bitCount, destMask: self.destMask, ..bb }),
                self.steady() == bb.steady(),
                i > 0 ==> self.destMask == bb.last_mask(),
                i == 0 ==> self.destMask == bb.destMask,
                sourceIndex == wrap_addr(bb.fetch_addr(i as int, 0)),
                destIndex == wrap_addr(bb.put_addr(i as int, 0)),
                mem@.len() == old(mem)@.len(),
                mem@ == bb.copy_rows(start, i as int).mem,
                self.bitCount == bb.copy_rows(start, i as int).count,
                bb.noHalftone ==> halftoneWord == ALL_ONES,
                !bb.noHalftone && bb.halftoneHeight <= 1 ==> halftoneWord == word_at(
                    old(mem)@,
                    bb.halftoneBase as int,
                ),
            decreases height - i,
        {
            proof {
                mem.lemma_size();
                bb.lemma_copy_rows(start, i as int);
                lemma_row_of(i as int, bb.bbH as int, bb.vDir as int, bb.dy as int);
            }
            if !self.noHalftone && self.halftoneHeight > 1 {
                proof {
                    lemma_remainder(y as int, bb.halftoneHeight as int);
                }
                halftoneWord =
                long32At(mem, self.halftoneBase + ((y % self.halftoneHeight) as UsqInt) * 4);
            }
            proof {
                lemma_count_room(
                    i as int,
                    bb.bbH as int,
                    bb.row_words(),
                    bb.row_words() - 1,
                    bb.count_step(),
                );
                assert((bb.row_words() - 1) * bb.count_step() + bb.count_step() == bb.row_words()
                    * bb.count_step()) by (nonlinear_arith);
                lemma_next_row(bb, i as int);
            }
            let (s, d): (UsqInt, UsqInt) = self.copyRow(
                mem,
                halftoneWord,
                sourceIndex,
                destIndex,
                Ghost(bb),
                Ghost(i as int),
            );
            sourceIndex = stepped(s, self.sourceDelta);
            destIndex = stepped(d, self.destDelta);
            y = y + self.vDir;
            i = i + 1;
        }
        self.sourceIndex = sourceIndex;
        self.destIndex = destIndex;
        if self.noHalftone {
            self.halftoneHeight = 0;
        }
    }
}

/// The row that a step up or down leads to.
proof fn lemma_row_of(i: int, rows: int, v: int, y: int)
    requires
        0 <= i < rows,
        v == 1 || v == -1,
        rows <= i32::MAX,
        i32::MIN <= y <= i32::MAX,
    ensures
        y + (i + 1) * v == (y + i * v) + v,
        -0x1_0000_0000 <= y + i * v + v <= 0x1_0000_0000,
        y >= 0 && y + (rows - 1) * v >= 0 ==> y + i * v >= 0,
{
    if v == 1 {
        assert(i * v == i && (i + 1) * v == i + 1) by (nonlinear_arith)
            requires
                v == 1,
        ;
    } else {
        assert(i * v == -i && (i + 1) * v == -i - 1 && (rows - 1) * v == 1 - rows)
            by (nonlinear_arith)
            requires
                v == -1,
        ;
    }
}

/// The first row starts where the registers say.
proof fn lemma_first_row(bb: BitBlt)
    ensures
        bb.fetch_addr(0, 0) == bb.sourceIndex,
        bb.put_addr(0, 0) == bb.destIndex,
{
    reveal(BitBlt::fetch_addr);
    reveal(BitBlt::put_addr);
    assert(bb.word_step() * 0 == 0);
}

/// One word further along a row.
proof fn lemma_next_word(bb: BitBlt, i: int, k: int)
    ensures
        bb.fetch_addr(i, k + 1) == bb.fetch_addr(i, k) + bb.word_step(),
        bb.put_addr(i, k + 1) == bb.put_addr(i, k) + bb.word_step(),
{
    reveal(BitBlt::fetch_addr);
    reveal(BitBlt::put_addr);
    let w = bb.word_step();
    assert(w * (k + 1) == w * k + w) by (nonlinear_arith);
}

/// The end of one row and the step between rows lead to the next.
proof fn lemma_next_row(bb: BitBlt, i: int)
    ensures
        bb.fetch_addr(i, bb.row_words() + bb.ahead()) + bb.sourceDelta == bb.fetch_addr(i + 1, 0),
        bb.put_addr(i, bb.row_words()) + bb.destDelta == bb.put_addr(i + 1, 0),
{
    reveal(BitBlt::fetch_addr);
    reveal(BitBlt::put_addr);
    let a = bb.word_step() * (bb.row_words() + bb.ahead()) + bb.sourceDelta;
    let b = bb.word_step() * bb.row_words() + bb.destDelta;
    assert((i + 1) * a == i * a + a && (i + 1) * b == i * b + b) by (nonlinear_arith);
    assert(bb.word_step() * 0 == 0);
}

} // verus!
