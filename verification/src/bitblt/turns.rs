//! Warps that flip and turn: where the edges of a warp lead, and which source
//! pixel comes to which place.
use vstd::prelude::*;
use crate::prim::{sqInt, UsqInt};
use crate::bitblt::bits::{row_bit, rule_bit, stream_bit, word_bit};
use crate::bitblt::blit::{warp_edge, WarpArgs, WarpCorners};
use crate::bitblt::state::{BitBlt, FIXED_PT1};
use crate::bitblt::warp::warp_delta;
use crate::bitblt::warploop::Warp;
use crate::bitblt::warps::{lemma_side, lemma_walk_straight, lemma_whole, walk_to};

verus! {

// ---- Edges ----------------------------------------------------------------

/// An edge of `n` steps from `p` to `q` divides the way, with the whole of the
/// pixel at its higher end, into `n + 1` even parts, each rounded up to the next
/// fraction of a pixel. It goes towards `q`, and its lower end is exact: a rising
/// edge starts at `p`, a falling one comes to `q` with its last step.
pub proof fn lemma_edge_spans(p: int, q: int, n: int)
    requires
        1 <= n,
    ensures
        ({
            let (start, step) = warp_edge(p, q, n);
            &&& p == q ==> start == p && step == 0
            &&& p < q ==> {
                &&& start == p
                &&& q + FIXED_PT1 < start + (n + 1) * step <= q + FIXED_PT1 + (n + 1)
            }
            &&& p > q ==> {
                &&& start + n * step == q
                &&& p + FIXED_PT1 < start - step <= p + FIXED_PT1 + (n + 1)
            }
        }),
{
    let d = warp_delta(p, q, n);
    let far = if p < q {
        q - p
    } else {
        p - q
    } + FIXED_PT1;
    let part = far / (n + 1);
    assert(far < (n + 1) * (part + 1) <= far + (n + 1)) by (nonlinear_arith)
        requires
            part == far / (n + 1),
            1 <= n,
    ;
    if p > q {
        assert(q - n * d + n * d == q && q - n * d - d == q + (n + 1) * (-d)) by (nonlinear_arith);
    }
}

impl BitBlt {
    /// The walk along a row of an unclipped warp keeps to the same division: from
    /// the row's one end `p` to its other end `q`.
    pub proof fn lemma_row_spans(self, p: int, q: int)
        requires
            self.destX >= self.clipX,
            2 <= self.width <= 0x2000_0000,
            -0x2000_0000 <= p <= 0x2000_0000,
            -0x2000_0000 <= q <= 0x2000_0000,
        ensures
            ({
                let n = self.width - 1;
                let (start, step) = (self.row_start(p, q), self.row_delta(p, q));
                &&& p == q ==> start == p && step == 0
                &&& p < q ==> {
                    &&& start == p
                    &&& q + FIXED_PT1 < start + (n + 1) * step <= q + FIXED_PT1 + (n + 1)
                }
                &&& p > q ==> {
                    &&& start + n * step == q
                    &&& p + FIXED_PT1 < start - step <= p + FIXED_PT1 + (n + 1)
                }
            }),
    {
        let n = self.width - 1;
        lemma_edge_spans(p, q, n);
        let d = warp_delta(p, q, n);
        let far = if p < q {
            q - p
        } else {
            p - q
        } + FIXED_PT1;
        assert(0 <= far / (n + 1) && (n + 1) * (far / (n + 1)) <= far && far / (n + 1) <= far)
            by (nonlinear_arith)
            requires
                0 <= far,
                1 <= n,
        ;
        assert(self.row_delta(p, q) == d);
        if p > q {
            let e = -d;
            assert(0 <= n * e && n * e == -(n * d)) by (nonlinear_arith)
                requires
                    1 <= n,
                    e == -d,
                    0 <= e,
            ;
            assert(n * e <= far + n) by (nonlinear_arith)
                requires
                    e == far / (n + 1) + 1,
                    (n + 1) * (far / (n + 1)) <= far,
                    0 <= far / (n + 1),
                    1 <= n,
            ;
        }
    }

    /// Without smoothing, a warp finds at every position of its way the source pixel
    /// that the position falls on, and 0 outside the source, taken through the color
    /// map.
    pub proof fn lemma_warp_finds(self, m: Seq<u8>, w: Warp, i: int, n: int)
        requires
            w.smoothing == 1,
            self.sourceDepth == 1 || self.sourceDepth == 2 || self.sourceDepth == 4
                || self.sourceDepth == 8 || self.sourceDepth == 16 || self.sourceDepth == 32,
        ensures
            ({
                let (xx, yy) = (self.lane(w, i).x_at(n) as int, self.lane(w, i).y_at(n) as int);
                let (x, y) = (xx / FIXED_PT1 as int, yy / FIXED_PT1 as int);
                let pixel: u32 = if 0 <= xx && 0 <= yy && x < self.sourceWidth && y
                    < self.sourceHeight {
                    self.source_pixel(m, x, y)
                } else {
                    0
                };
                self.warped_at(m, w, i, n) == self.map_pixel(
                    m,
                    pixel as sqInt,
                    self.mapper_flags(),
                ) as u32
            }),
    {
        let l = self.lane(w, i);
        let (xx, yy) = (l.x_at(n) as int, l.y_at(n) as int);
        if self.warp_inside(xx, yy) {
            self.lemma_warp_pixel(m, xx, yy);
        }
    }

    /// Clipping a warp cuts it off: what is left goes the same way through the
    /// source as in the unclipped warp, as long as the way stays within the range of
    /// a coordinate.
    pub proof fn lemma_clip_cuts_warp(self, w: Warp, i: int, n: int)
        requires
            0 <= i,
            0 <= n,
            ({
                let all = BitBlt { clipX: self.destX, clipY: self.destY, ..self };
                let l = all.lane(w, self.rows_skipped() + i);
                let k = self.columns_skipped() + n;
                &&& i32::MIN <= l.x + k * l.xd <= i32::MAX
                &&& i32::MIN <= l.y + k * l.yd <= i32::MAX
            }),
        ensures
            ({
                let all = BitBlt { clipX: self.destX, clipY: self.destY, ..self };
                let l = all.lane(w, self.rows_skipped() + i);
                let k = self.columns_skipped() + n;
                &&& self.lane(w, i).x_at(n) == l.x_at(k)
                &&& self.lane(w, i).y_at(n) == l.y_at(k)
            }),
    {
        let all = BitBlt { clipX: self.destX, clipY: self.destY, ..self };
        let rows = self.rows_skipped();
        let d = w.step;
        assert(rows * d.ax + i * d.ax == (rows + i) * d.ax && rows * d.ay + i * d.ay == (rows + i)
            * d.ay && rows * d.bx + i * d.bx == (rows + i) * d.bx && rows * d.by + i * d.by == (rows
            + i) * d.by) by (nonlinear_arith);
        assert(0 * d.ax == 0 && 0 * d.ay == 0 && 0 * d.bx == 0 && 0 * d.by == 0);
        let q = all.row_quad(w, rows + i);
        let p = self.row_quad(w, i);
        assert(p.ax == q.ax && p.ay == q.ay && p.bx == q.bx && p.by == q.by);
        self.lemma_row_cut(p.ax, p.bx, n);
        self.lemma_row_cut(p.ay, p.by, n);
    }

    proof fn lemma_row_cut(self, a: int, b: int, n: int)
        requires
            0 <= n,
            ({
                let all = BitBlt { clipX: self.destX, clipY: self.destY, ..self };
                let k = self.columns_skipped() + n;
                i32::MIN <= all.row_start(a, b) + k * all.row_delta(a, b) <= i32::MAX
            }),
        ensures
            ({
                let all = BitBlt { clipX: self.destX, clipY: self.destY, ..self };
                let k = self.columns_skipped() + n;
                walk_to(self.row_start(a, b), self.row_delta(a, b), n) == walk_to(
                    all.row_start(a, b),
                    all.row_delta(a, b),
                    k,
                )
            }),
    {
        let all = BitBlt { clipX: self.destX, clipY: self.destY, ..self };
        let skip = self.columns_skipped();
        let s = all.row_start(a, b) as int;
        let d = all.row_delta(a, b);
        assert(self.row_delta(a, b) == d);
        lemma_walk_straight(s as i32, d, skip + n);
        assert(s + (skip + n) * d == (s + skip * d) + n * d) by (nonlinear_arith);
        assert(i32::MIN <= s + skip * d <= i32::MAX) by (nonlinear_arith)
            requires
                i32::MIN <= s <= i32::MAX,
                i32::MIN <= s + (skip + n) * d <= i32::MAX,
                0 <= skip,
                0 <= n,
        ;
        if skip == 0 {
            assert(skip * d == 0) by (nonlinear_arith)
                requires
                    skip == 0,
            ;
        }
        assert(self.row_start(a, b) == s + skip * d);
        lemma_walk_straight((s + skip * d) as i32, d, n);
    }

    // ---- Flips and turns --------------------------------------------------

    /// Where in the source the pixel in column `u` and row `v` of the unclipped
    /// destination comes from.
    pub open spec fn turned_place(self, t: Turn, u: int, v: int) -> (int, int) {
        let (across, down) = if t.transposed {
            (v, u)
        } else {
            (u, v)
        };
        let (wide, high) = self.turned_extent(t);
        (
            t.x + if t.fallsX {
                wide - 1 - across
            } else {
                across
            },
            t.y + if t.fallsY {
                high - 1 - down
            } else {
                down
            },
        )
    }

    /// The extent of the rectangle in the source.
    pub open spec fn turned_extent(self, t: Turn) -> (int, int) {
        if t.transposed {
            (self.height as int, self.width as int)
        } else {
            (self.width as int, self.height as int)
        }
    }

    /// The corners are the source pixels that the turn takes to the corners of
    /// the destination.
    pub open spec fn turns(self, c: WarpCorners, t: Turn) -> bool {
        let (right, bottom) = (self.width - 1, self.height - 1);
        let p1 = self.turned_place(t, 0, 0);
        let p2 = self.turned_place(t, 0, bottom);
        let p3 = self.turned_place(t, right, bottom);
        let p4 = self.turned_place(t, right, 0);
        &&& c.p1x == p1.0 * FIXED_PT1 && c.p1y == p1.1 * FIXED_PT1
        &&& c.p2x == p2.0 * FIXED_PT1 && c.p2y == p2.1 * FIXED_PT1
        &&& c.p3x == p3.0 * FIXED_PT1 && c.p3y == p3.1 * FIXED_PT1
        &&& c.p4x == p4.0 * FIXED_PT1 && c.p4y == p4.1 * FIXED_PT1
    }

    /// The rectangle of the turn is in fixed point range.
    pub open spec fn turn_fits(self, t: Turn) -> bool {
        let (wide, high) = self.turned_extent(t);
        &&& 0 <= t.x && (t.x + wide) * 0x4001 <= i32::MAX
        &&& 0 <= t.y && (t.y + high) * 0x4001 <= i32::MAX
    }

    /// A coordinate that changes from row to row and not along a row.
    proof fn lemma_down(self, base: int, falls: bool, p: int, q: int, i: int, n: int)
        requires
            0 <= base,
            1 <= self.height,
            (base + self.height) * 0x4001 <= i32::MAX,
            0 <= i,
            0 <= n,
            self.rows_skipped() + i < self.height,
            p == (if falls {
                base + self.height - 1
            } else {
                base
            }) * 0x4000,
            q == (if falls {
                base
            } else {
                base + self.height - 1
            }) * 0x4000,
            ({
                let v = self.rows_skipped() + i;
                (if falls {
                    self.height - 1 - v
                } else {
                    v
                }) < 0x4000
            }),
        ensures
            ({
                let e = warp_edge(p, q, self.warp_rises());
                let at = e.0 + self.rows_skipped() * e.1 + i * e.1;
                let v = self.rows_skipped() + i;
                let step = self.row_delta(at, at);
                walk_to(self.row_start(at, at), step, n) as int / 0x4000 == base + if falls {
                    self.height - 1 - v
                } else {
                    v
                }
            }),
    {
        let h = self.height as int;
        let rows = self.rows_skipped();
        let v = rows + i;
        let k = if falls {
            h - 1 - v
        } else {
            v
        };
        lemma_side(base, h);
        let e = warp_edge(p, q, self.warp_rises());
        let d = if h == 1 {
            0int
        } else {
            0x4001
        };
        assert(e.1 == if falls {
            -d
        } else {
            d
        }) by {
            lemma_down_step(base, h);
        }
        let at = e.0 + rows * e.1 + i * e.1;
        assert(at == base * 0x4000 + k * d) by (nonlinear_arith)
            requires
                at == e.0 + rows * e.1 + i * e.1,
                v == rows + i,
                k == (if falls {
                    h - 1 - v
                } else {
                    v
                }),
                e.1 == (if falls {
                    -d
                } else {
                    d
                }),
                e.0 == base * 0x4000 + if falls {
                    (h - 1) * d
                } else {
                    0int
                },
        ;
        assert(0 <= k * d && base * 0x4000 + k * d <= (base + h) * 0x4001) by (nonlinear_arith)
            requires
                0 <= k < h,
                0 <= d <= 0x4001,
                0 <= base,
        ;
        assert(self.row_delta(at, at) == 0);
        assert((self.clipX - self.destX) * 0 == 0);
        assert(self.row_start(at, at) == at);
        assert(n * 0 == 0);
        lemma_walk_straight(at as i32, 0, n);
        lemma_whole(base, k, d, h);
    }

    /// A coordinate that changes along a row and not from row to row.
    proof fn lemma_across(self, base: int, falls: bool, p: int, q: int, i: int, n: int)
        requires
            0 <= base,
            1 <= self.width,
            (base + self.width) * 0x4001 <= i32::MAX,
            0 <= i,
            0 <= n,
            self.columns_skipped() + n < self.width,
            p == (if falls {
                base + self.width - 1
            } else {
                base
            }) * 0x4000,
            q == (if falls {
                base
            } else {
                base + self.width - 1
            }) * 0x4000,
            ({
                let u = self.columns_skipped() + n;
                (if falls {
                    self.width - 1 - u
                } else {
                    u
                }) < 0x4000
            }),
        ensures
            ({
                let rises = self.warp_rises();
                let (a, b) = (warp_edge(p, p, rises), warp_edge(q, q, rises));
                let left = a.0 + self.rows_skipped() * a.1 + i * a.1;
                let right = b.0 + self.rows_skipped() * b.1 + i * b.1;
                let u = self.columns_skipped() + n;
                walk_to(self.row_start(left, right), self.row_delta(left, right), n) as int
                    / 0x4000 == base + if falls {
                    self.width - 1 - u
                } else {
                    u
                }
            }),
    {
        let w = self.width as int;
        let skip = self.columns_skipped();
        let u = skip + n;
        let k = if falls {
            w - 1 - u
        } else {
            u
        };
        lemma_side(base, w);
        assert(self.rows_skipped() * 0 == 0 && i * 0 == 0);
        let d = if w == 1 {
            0int
        } else {
            0x4001
        };
        let e = self.row_delta(p, q) as int;
        assert(e == if falls {
            -d
        } else {
            d
        }) by {
            lemma_down_step(base, w);
        }
        let steps = self.warp_steps();
        assert(0 <= (w - 1) * d && base * 0x4000 + (w - 1) * d <= (base + w) * 0x4001 && 0 <= k * d
            && k * d <= (w - 1) * d) by (nonlinear_arith)
            requires
                0 <= k <= w - 1,
                0 <= d <= 0x4001,
                0 <= base,
        ;
        let first = base * 0x4000 + if falls {
            (w - 1) * d
        } else {
            0int
        };
        if falls && w > 1 {
            assert(q - steps * e == q + (w - 1) * d) by (nonlinear_arith)
                requires
                    steps == w - 1,
                    e == -d,
            ;
        }
        let start = first + skip * e;
        assert(start == base * 0x4000 + if falls {
            (w - 1 - skip) * d
        } else {
            skip * d
        }) by (nonlinear_arith)
            requires
                start == first + skip * e,
                e == (if falls {
                    -d
                } else {
                    d
                }),
                first == base * 0x4000 + if falls {
                    (w - 1) * d
                } else {
                    0int
                },
        ;
        assert(0 <= skip * d <= (w - 1) * d && 0 <= (w - 1 - skip) * d <= (w - 1) * d)
            by (nonlinear_arith)
            requires
                0 <= skip <= w - 1,
                0 <= d,
        ;
        assert(self.row_start(p, q) == start) by {
            if self.destX >= self.clipX {
                assert(skip * e == 0) by (nonlinear_arith)
                    requires
                        skip == 0,
                ;
            }
        }
        assert(start + n * e == base * 0x4000 + k * d) by (nonlinear_arith)
            requires
                start == base * 0x4000 + if falls {
                    (w - 1 - skip) * d
                } else {
                    skip * d
                },
                e == (if falls {
                    -d
                } else {
                    d
                }),
                k == (if falls {
                    w - 1 - (skip + n)
                } else {
                    skip + n
                }),
        ;
        lemma_walk_straight(start as i32, e as sqInt, n);
        lemma_whole(base, k, d, w);
    }

    /// For the corners of a rectangle taken in any order, flipped or turned by
    /// quarters, a warp of the rectangle's own size leads every pixel of the
    /// destination to the source pixel that the flip or turn puts there. The
    /// places round up by less than a pixel within 16384 pixels.
    pub proof fn lemma_turned_places(self, c: WarpCorners, w: Warp, t: Turn, i: int, n: int)
        requires
            self.turns(c, t),
            self.turn_fits(t),
            w == self.warp_between(c, w.smoothing, w.map),
            0 <= i,
            0 <= n,
            self.columns_skipped() + n < self.width,
            self.rows_skipped() + i < self.height,
            ({
                let place = self.turned_place(
                    t,
                    self.columns_skipped() + n,
                    self.rows_skipped() + i,
                );
                place.0 - t.x < 0x4000 && place.1 - t.y < 0x4000
            }),
        ensures
            ({
                let place = self.turned_place(
                    t,
                    self.columns_skipped() + n,
                    self.rows_skipped() + i,
                );
                &&& self.lane(w, i).x_at(n) as int / 0x4000 == place.0
                &&& self.lane(w, i).y_at(n) as int / 0x4000 == place.1
            }),
    {
        if t.transposed {
            self.lemma_down(t.x, t.fallsX, c.p1x as int, c.p2x as int, i, n);
            self.lemma_across(t.y, t.fallsY, c.p1y as int, c.p4y as int, i, n);
        } else {
            self.lemma_across(t.x, t.fallsX, c.p1x as int, c.p4x as int, i, n);
            self.lemma_down(t.y, t.fallsY, c.p1y as int, c.p2y as int, i, n);
        }
    }

    /// Without smoothing, such a warp finds at every pixel the source pixel that
    /// the flip or turn puts there, taken through the color map.
    pub proof fn lemma_turned_warp(
        self,
        m: Seq<u8>,
        c: WarpCorners,
        w: Warp,
        t: Turn,
        i: int,
        n: int,
    )
        requires
            self.turns(c, t),
            self.turn_fits(t),
            w == self.warp_between(c, w.smoothing, w.map),
            w.smoothing == 1,
            self.sourceDepth == 1 || self.sourceDepth == 2 || self.sourceDepth == 4
                || self.sourceDepth == 8 || self.sourceDepth == 16 || self.sourceDepth == 32,
            t.x + self.turned_extent(t).0 <= self.sourceWidth,
            t.y + self.turned_extent(t).1 <= self.sourceHeight,
            0 <= i,
            0 <= n,
            self.columns_skipped() + n < self.width,
            self.rows_skipped() + i < self.height,
            ({
                let place = self.turned_place(
                    t,
                    self.columns_skipped() + n,
                    self.rows_skipped() + i,
                );
                place.0 - t.x < 0x4000 && place.1 - t.y < 0x4000
            }),
        ensures
            ({
                let place = self.turned_place(
                    t,
                    self.columns_skipped() + n,
                    self.rows_skipped() + i,
                );
                self.warped_at(m, w, i, n) == self.map_pixel(
                    m,
                    self.source_pixel(m, place.0, place.1) as sqInt,
                    self.mapper_flags(),
                ) as u32
            }),
    {
        self.lemma_turned_places(c, w, t, i, n);
        let l = self.lane(w, i);
        self.lemma_warp_pixel(m, l.x_at(n) as int, l.y_at(n) as int);
    }

    /// A whole warp of a rectangle onto one of its own size, without smoothing:
    /// every pixel that is left after clipping is combined with the source pixel
    /// that the flip or turn puts there, taken through the color map.
    pub proof fn lemma_turned_bits(
        self,
        m: Seq<u8>,
        c: WarpCorners,
        a: WarpArgs,
        map: UsqInt,
        t: Turn,
        y: int,
        b: int,
    )
        requires
            !self.noSource,
            (BitBlt { noSource: true, ..self }).clip_exact(),
            !self.warp_clipped().is_empty_blit(),
            self.smoothing_args(a) == Some((1 as sqInt, map)),
            0 <= self.combinationRule <= 15,
            self.sourceDepth == 1 || self.sourceDepth == 2 || self.sourceDepth == 4
                || self.sourceDepth == 8 || self.sourceDepth == 16 || self.sourceDepth == 32,
            self.turns(c, t),
            self.turn_fits(t),
            t.x + self.turned_extent(t).0 <= self.sourceWidth,
            t.y + self.turned_extent(t).1 <= self.sourceHeight,
            self.warp_registers(1).dest_form(m.len()),
            self.warp_registers(1).warp_apart(m.len(), self.warp_between(c, 1, map as int)),
            self.warp_registers(1).halftone_apart(m.len()),
            0 <= b < 8 * self.destPitch,
            self.clipX <= b / (self.destDepth as int) < self.clipX + self.clipWidth,
            self.clipY <= y < self.clipY + self.clipHeight,
            self.destX <= b / (self.destDepth as int) < self.destX + self.width,
            self.destY <= y < self.destY + self.height,
            ({
                let (u, v) = (b / (self.destDepth as int) - self.destX, y - self.destY);
                let place = self.turned_place(t, u, v);
                place.0 - t.x < 0x4000 && place.1 - t.y < 0x4000
            }),
        ensures
            ({
                let after = self.warped_bits(m, Some(c), a).0.mem;
                let msb = self.destMSB != 0;
                let r = self.warp_registers(1);
                let (u, v) = (b / (self.destDepth as int) - self.destX, y - self.destY);
                let place = self.turned_place(t, u, v);
                let found = r.map_pixel(
                    m,
                    self.source_pixel(m, place.0, place.1) as sqInt,
                    r.mapper_flags(),
                ) as u32;
                row_bit(after, msb, self.dest_row(y), b) == rule_bit(
                    self.combinationRule as int,
                    word_bit(found, self.pixel_place_bit(b % (self.destDepth as int)))
                        && stream_bit(msb, self.halftone_at(m, y), b % 32),
                    row_bit(m, msb, self.dest_row(y), b),
                )
            }),
    {
        let r = self.warp_registers(1);
        let x = b / (self.destDepth as int);
        let bare = BitBlt { noSource: true, ..self };
        bare.lemma_clip(x, y);
        assert(r.has_pixel(x, y));
        assert(r.dx == self.destX + self.columns_skipped());
        assert(r.dy == self.destY + self.rows_skipped());
        let w = self.warp_between(c, 1, map as int);
        assert(r.warp_between(c, 1, map as int) == w);
        self.lemma_plain_warp(m, c, a, 1, map);
        let d = self.destDepth as int;
        assert(self.dest_row(y) == r.dest_row(y));
        r.lemma_row_in_form(m.len(), y);
        assert(r.in_columns(b)) by {
            vstd::arithmetic::div_mod::lemma_fundamental_div_mod(b, d);
            let k = b % d;
            assert(r.dx * d <= b < (r.dx + r.bbW) * d) by (nonlinear_arith)
                requires
                    b == d * x + k,
                    0 <= k < d,
                    r.dx <= x,
                    x + 1 <= r.dx + r.bbW,
            ;
        }
        r.lemma_warp(m, w, y, b, 0);
        assert(r.turned_place(t, x - self.destX, y - self.destY) == self.turned_place(
            t,
            x - self.destX,
            y - self.destY,
        ));
        let right = self.width - 1;
        let bottom = self.height - 1;
        assert(r.turned_place(t, 0, 0) == self.turned_place(t, 0, 0));
        assert(r.turned_place(t, 0, bottom) == self.turned_place(t, 0, bottom));
        assert(r.turned_place(t, right, bottom) == self.turned_place(t, right, bottom));
        assert(r.turned_place(t, right, 0) == self.turned_place(t, right, 0));
        r.lemma_turned_warp(m, c, w, t, y - r.dy, x - r.dx);
        let place = self.turned_place(t, x - self.destX, y - self.destY);
        assert(r.source_pixel(m, place.0, place.1) == self.source_pixel(m, place.0, place.1));
        assert(r.halftone_at(m, y) == self.halftone_at(m, y));
    }
}

/// Which of the eight ways of laying a rectangle of the source onto one of the
/// destination: `x` and `y` are its top left pixel in the source. Transposed, the
/// columns of the source become rows. A coordinate of the source that falls runs
/// against the destination's.
pub struct Turn {
    pub x: int,
    pub y: int,
    pub transposed: bool,
    pub fallsX: bool,
    pub fallsY: bool,
}

/// The step back along a side of `n` pixels.
proof fn lemma_down_step(x: int, n: int)
    requires
        1 <= n,
    ensures
        ({
            let steps = if n - 1 <= 0 {
                1
            } else {
                n - 1
            };
            warp_delta((x + n - 1) * 0x4000, x * 0x4000, steps) == -warp_delta(
                x * 0x4000,
                (x + n - 1) * 0x4000,
                steps,
            )
        }),
{
}

} // verus!
