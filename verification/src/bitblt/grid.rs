//! Words written one after the other, row by row.
//!
//! Every loop of the blitter writes the words of a grid, each once. What such a
//! loop leaves in memory is known word by word, and a word that the loop has
//! not come to is as it was before.
use vstd::prelude::*;
use crate::bitblt::memory::{valid_word, with_word, word_at};

verus! {

broadcast use crate::bitblt::memory::group_memory;

/// Rows of words, `step` bytes from one row to the next and `stride` bytes from
/// one word to the next.
pub struct Grid {
    pub base: int,
    pub step: int,
    pub stride: int,
    pub rows: int,
    pub words: int,
}

impl Grid {
    /// The address of word `k` of row `i`.
    pub open spec fn addr(self, i: int, k: int) -> int {
        self.base + i * self.step + self.stride * k
    }

    pub open spec fn has(self, i: int, k: int) -> bool {
        0 <= i < self.rows && 0 <= k < self.words
    }

    /// The words follow one another, and no row reaches into another.
    pub open spec fn apart(self) -> bool {
        &&& self.stride == 4 || self.stride == -4
        &&& 4 * self.words <= self.step || 4 * self.words <= -self.step
    }

    /// Every word exists in a memory of this size.
    pub open spec fn within(self, size: nat) -> bool {
        forall|i: int, k: int|
            self.has(i, k) ==> 0 <= #[trigger] self.addr(i, k) && self.addr(i, k) + 4 <= size
    }

    /// Word `l` of row `j` comes before word `k` of row `i`.
    pub open spec fn before(self, j: int, l: int, i: int, k: int) -> bool {
        self.has(j, l) && (j < i || (j == i && l < k))
    }

    /// A byte of a word that comes before word `k` of row `i`.
    pub open spec fn touched(self, i: int, k: int, a: int) -> bool {
        exists|j: int, l: int|
            self.before(j, l, i, k) && (#[trigger] self.addr(j, l)) <= a < self.addr(j, l) + 4
    }

    /// The words before word `k` of row `i` hold what they should, and every other
    /// byte is as it was in `first`.
    pub open spec fn done(
        self,
        first: Seq<u8>,
        m: Seq<u8>,
        i: int,
        k: int,
        w: spec_fn(int, int) -> u32,
    ) -> bool {
        &&& m.len() == first.len()
        &&& forall|j: int, l: int|
            self.before(j, l, i, k) ==> word_at(m, #[trigger] self.addr(j, l)) == w(j, l)
        &&& forall|a: int|
            0 <= a < m.len() && !self.touched(i, k, a) ==> #[trigger] m[a] == first[a]
    }

    /// Nothing is done at the start.
    pub(crate) proof fn lemma_begin(self, first: Seq<u8>, w: spec_fn(int, int) -> u32)
        ensures
            self.done(first, first, 0, 0, w),
    {
    }

    /// Two words of the grid share no byte.
    pub(crate) proof fn lemma_apart(self, i: int, k: int, j: int, l: int)
        requires
            self.apart(),
            self.has(i, k),
            self.has(j, l),
            i != j || k != l,
        ensures
            self.addr(i, k) + 4 <= self.addr(j, l) || self.addr(j, l) + 4 <= self.addr(i, k),
    {
        let s = self.step;
        let w = self.words;
        let d = self.stride;
        assert(d * k == 4 * k || d * k == -4 * k) by (nonlinear_arith)
            requires
                d == 4 || d == -4,
        ;
        assert(d * l == 4 * l || d * l == -4 * l) by (nonlinear_arith)
            requires
                d == 4 || d == -4,
        ;
        assert(d * k - d * l == 4 * (k - l) || d * k - d * l == -4 * (k - l)) by (nonlinear_arith)
            requires
                d == 4 || d == -4,
        ;
        if i != j {
            let n = i - j;
            assert(i * s - j * s == n * s) by (nonlinear_arith)
                requires
                    n == i - j,
            ;
            assert(n * s >= 4 * w || n * s <= -4 * w) by (nonlinear_arith)
                requires
                    n >= 1 || n <= -1,
                    4 * w <= s || 4 * w <= -s,
                    w >= 1,
            ;
        }
    }

    /// The next word is written.
    pub(crate) proof fn lemma_step(
        self,
        first: Seq<u8>,
        m: Seq<u8>,
        i: int,
        k: int,
        w: spec_fn(int, int) -> u32,
    )
        requires
            self.apart(),
            self.within(first.len()),
            self.has(i, k),
            self.done(first, m, i, k, w),
        ensures
            self.done(first, with_word(m, self.addr(i, k), w(i, k)), i, k + 1, w),
    {
        let at = self.addr(i, k);
        let v = w(i, k);
        let after = with_word(m, at, v);
        assert(valid_word(m, at));
        assert forall|j: int, l: int| self.before(j, l, i, k + 1) implies word_at(
            after,
            #[trigger] self.addr(j, l),
        ) == w(j, l) by {
            if j == i && l == k {
                crate::bitblt::memory::lemma_word_read_back(m, at, v);
            } else {
                assert(self.before(j, l, i, k));
                self.lemma_apart(i, k, j, l);
                assert(valid_word(m, self.addr(j, l)));
                crate::bitblt::memory::lemma_word_elsewhere(m, at, v, self.addr(j, l));
            }
        }
        assert forall|a: int| 0 <= a < after.len() && !self.touched(i, k + 1, a) implies #[trigger] after[a]
            == first[a] by {
            reveal(with_word);
            if at <= a < at + 4 {
                assert(self.before(i, k, i, k + 1) && self.addr(i, k) <= a < self.addr(i, k) + 4);
            }
            if self.touched(i, k, a) {
                let (j, l) = choose|j: int, l: int|
                    self.before(j, l, i, k) && (#[trigger] self.addr(j, l)) <= a < self.addr(j, l)
                        + 4;
                assert(self.before(j, l, i, k + 1) && self.addr(j, l) <= a < self.addr(j, l) + 4);
            }
            assert(m[a] == first[a]);
        }
    }

    /// The end of one row is the start of the next.
    pub(crate) proof fn lemma_turn(
        self,
        first: Seq<u8>,
        m: Seq<u8>,
        i: int,
        w: spec_fn(int, int) -> u32,
    )
        requires
            self.done(first, m, i, self.words, w),
        ensures
            self.done(first, m, i + 1, 0, w),
    {
        let n = self.words;
        assert forall|j: int, l: int| self.before(j, l, i + 1, 0) implies word_at(
            m,
            #[trigger] self.addr(j, l),
        ) == w(j, l) by {
            assert(self.before(j, l, i, n));
        }
        assert forall|a: int| 0 <= a < m.len() && !self.touched(i + 1, 0, a) implies #[trigger] m[a]
            == first[a] by {
            if self.touched(i, n, a) {
                let (j, l) = choose|j: int, l: int|
                    self.before(j, l, i, n) && (#[trigger] self.addr(j, l)) <= a < self.addr(j, l)
                        + 4;
                assert(self.before(j, l, i + 1, 0) && self.addr(j, l) <= a < self.addr(j, l) + 4);
            }
        }
    }

    /// The same words, each row from its other end.
    pub open spec fn reversed(self) -> Grid {
        Grid {
            base: self.base + self.stride * (self.words - 1),
            stride: -self.stride,
            ..self
        }
    }

    /// A word of a row is another word of the reversed row.
    pub(crate) proof fn lemma_reversed_addr(self, i: int, k: int)
        ensures
            self.reversed().addr(i, k) == self.addr(i, self.words - 1 - k),
    {
        let d = self.stride;
        assert(d * (self.words - 1) + (-d) * k == d * (self.words - 1 - k)) by (nonlinear_arith);
    }

    /// Once all rows are written it does not matter from which end they were.
    pub(crate) proof fn lemma_reversed_done(
        self,
        first: Seq<u8>,
        m: Seq<u8>,
        w: spec_fn(int, int) -> u32,
        v: spec_fn(int, int) -> u32,
    )
        requires
            self.reversed().done(first, m, self.rows, 0, v),
            forall|i: int, k: int|
                self.has(i, k) ==> #[trigger] w(i, k) == v(i, self.words - 1 - k),
        ensures
            self.done(first, m, self.rows, 0, w),
    {
        let r = self.reversed();
        let n = self.words;
        assert forall|j: int, l: int| self.before(j, l, self.rows, 0) implies word_at(
            m,
            #[trigger] self.addr(j, l),
        ) == w(j, l) by {
            self.lemma_reversed_addr(j, n - 1 - l);
            assert(r.before(j, n - 1 - l, self.rows, 0));
            assert(word_at(m, r.addr(j, n - 1 - l)) == v(j, n - 1 - l));
            assert(w(j, l) == v(j, n - 1 - l));
        }
        assert forall|a: int|
            0 <= a < m.len() && !self.touched(self.rows, 0, a) implies #[trigger] m[a]
            == first[a] by {
            if r.touched(self.rows, 0, a) {
                let (j, l) = choose|j: int, l: int|
                    r.before(j, l, self.rows, 0) && (#[trigger] r.addr(j, l)) <= a < r.addr(j, l)
                        + 4;
                self.lemma_reversed_addr(j, l);
                assert(self.before(j, n - 1 - l, self.rows, 0) && self.addr(j, n - 1 - l) <= a
                    < self.addr(j, n - 1 - l) + 4);
            }
        }
    }

    /// A word shares no byte with any word before word `k` of row `i`.
    pub open spec fn clear_of(self, i: int, k: int, f: int) -> bool {
        forall|j: int, l: int|
            self.before(j, l, i, k) ==> (#[trigger] self.addr(j, l)) + 4 <= f || f + 4
                <= self.addr(j, l)
    }

    /// Such a word is as it was.
    pub(crate) proof fn lemma_clear_word(
        self,
        first: Seq<u8>,
        m: Seq<u8>,
        i: int,
        k: int,
        w: spec_fn(int, int) -> u32,
        f: int,
    )
        requires
            self.done(first, m, i, k, w),
            self.clear_of(i, k, f),
            valid_word(first, f),
        ensures
            word_at(m, f) == word_at(first, f),
    {
        reveal(word_at);
        assert forall|a: int| f <= a < f + 4 implies #[trigger] m[a] == first[a] by {
            if self.touched(i, k, a) {
                let (j, l) = choose|j: int, l: int|
                    self.before(j, l, i, k) && (#[trigger] self.addr(j, l)) <= a < self.addr(j, l)
                        + 4;
                assert(self.addr(j, l) + 4 <= f || f + 4 <= self.addr(j, l));
            }
        }
        assert(m[f] == first[f] && m[f + 1] == first[f + 1] && m[f + 2] == first[f + 2] && m[f + 3]
            == first[f + 3]);
    }

    /// A word of the grid is as it was until it is written.
    pub(crate) proof fn lemma_own_word(
        self,
        first: Seq<u8>,
        m: Seq<u8>,
        i: int,
        k: int,
        w: spec_fn(int, int) -> u32,
    )
        requires
            self.apart(),
            self.within(first.len()),
            self.has(i, k),
            self.done(first, m, i, k, w),
        ensures
            word_at(m, self.addr(i, k)) == word_at(first, self.addr(i, k)),
    {
        assert forall|j: int, l: int| self.before(j, l, i, k) implies (#[trigger] self.addr(j, l))
            + 4 <= self.addr(i, k) || self.addr(i, k) + 4 <= self.addr(j, l) by {
            self.lemma_apart(i, k, j, l);
        }
        assert(valid_word(first, self.addr(i, k)));
        self.lemma_clear_word(first, m, i, k, w, self.addr(i, k));
    }
}

} // verus!
