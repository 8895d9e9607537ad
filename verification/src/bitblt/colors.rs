//! What colors a blit that was loaded gives to source pixels: what the color map,
//! or its absence, makes of every pixel value.
use vstd::prelude::*;
use crate::prim::sqInt;
use crate::bitblt::bits::{row_bit, rule_bit, stream_bit, word_bit};
use crate::bitblt::blit::BlitArgs;
use crate::bitblt::load::{BlitObject, ColorMapObject};
use crate::bitblt::memory::word_at;
use crate::bitblt::rules::widen16;
use crate::bitblt::state::{
    shl_word, BitBlt, CmTable, COLOR_MAP_FIXED_PART, COLOR_MAP_INDEXED_PART, COLOR_MAP_NEW_STYLE,
    COLOR_MAP_PRESENT,
};

verus! {

/// How many values a color component has in pixels of 16 or 32 bits.
pub open spec fn component_values(depth: int) -> int {
    if depth == 16 {
        32
    } else {
        256
    }
}

/// The red, green and blue of a pixel whose components have `n` values each.
pub open spec fn components_of(p: int, n: int) -> (int, int, int) {
    ((p / (n * n)) % n, (p / n) % n, p % n)
}

/// The same component among `to` values as among `from`: its high bits stay its
/// high bits.
pub open spec fn rescaled(c: int, from: int, to: int) -> int {
    if to >= from {
        c * (to / from)
    } else {
        c / (from / to)
    }
}

/// The pixel with the same color in components of `to` values.
pub open spec fn recolored(p: int, from: int, to: int) -> int {
    let (r, g, b) = components_of(p, from);
    (rescaled(r, from, to) * to + rescaled(g, from, to)) * to + rescaled(b, from, to)
}

/// The color, or 1 where it would be 0 for a pixel that is not.
pub open spec fn inked(p: int, color: int) -> int {
    if color == 0 && p != 0 {
        1
    } else {
        color
    }
}

proof fn lemma_widened(q: u64)
    by (bit_vector)
    requires
        q <= 0xFFFF_FFFF,
    ensures
        ({
            let p = q as i64;
            &&& ((((p & 0x7C00) as u64) << 9u64) as i64) | ((((p & 0x3E0) as u64) << 6u64) as i64)
                | ((((p & 0x1F) as u64) << 3u64) as i64) | ((((p & 0) as u64) << 0u64) as i64) == ((
            (q / 1024) % 32) * 8 * 256 + ((q / 32) % 32) * 8) * 256 + (q % 32) * 8
        }),
        ({
            let w = q as u32;
            ((w & 0x1F) << 3) | ((w & 0x3E0) << 6) | ((w & 0x7C00) << 9) == (((q / 1024) % 32) * 8
                * 256 + ((q / 32) % 32) * 8) * 256 + (q % 32) * 8
        }),
        1u32 << 3 == 8,
        1u32 << 4 == 16,
        1u32 << 5 == 32,
        31u32 << 10 == 0x7C00,
        31u32 << 5 == 0x3E0,
        31u32 << 0 == 0x1F,
        31u32 << 19 == 0xF8_0000,
        31u32 << 11 == 0xF800,
        31u32 << 3 == 0xF8,
        15u32 << 20 == 0xF0_0000,
        15u32 << 12 == 0xF000,
        15u32 << 4 == 0xF0,
        7u32 << 21 == 0xE0_0000,
        7u32 << 13 == 0xE000,
        7u32 << 5 == 0xE0,
        15u32 << 11 == 0x7800,
        15u32 << 6 == 0x3C0,
        15u32 << 1 == 0x1E,
        7u32 << 12 == 0x7000,
        7u32 << 7 == 0x380,
        7u32 << 2 == 0x1C,
{
}

/// Widening a 16-bit pixel to 24 bits keeps its color: each component moves to the
/// high bits of its byte.
pub proof fn lemma_widened_color(p: u32)
    ensures
        widen16(p) == recolored(p as int, 32, 256),
{
    lemma_widened(p as u64);
}

proof fn lemma_narrowed_bytes(q: u64)
    by (bit_vector)
    requires
        q <= 0xFFFF_FFFF,
    ensures
        ({
            let p = q as i64;
            &&& ((((p & 0xF8_0000) as u64) >> 9u64) as i64) | ((((p & 0xF800) as u64) >> 6u64) as i64)
                | ((((p & 0xF8) as u64) >> 3u64) as i64) | ((((p & 0) as u64) << 0u64) as i64) == ((
            (q / 65536) % 256) / 8 * 32 + ((q / 256) % 256) / 8) * 32 + (q % 256) / 8
            &&& ((((p & 0xF0_0000) as u64) >> 12u64) as i64) | ((((p & 0xF000) as u64) >> 8u64) as i64)
                | ((((p & 0xF0) as u64) >> 4u64) as i64) | ((((p & 0) as u64) << 0u64) as i64) == ((
            (q / 65536) % 256) / 16 * 16 + ((q / 256) % 256) / 16) * 16 + (q % 256) / 16
            &&& ((((p & 0xE0_0000) as u64) >> 15u64) as i64) | ((((p & 0xE000) as u64) >> 10u64)
                as i64) | ((((p & 0xE0) as u64) >> 5u64) as i64) | ((((p & 0) as u64) << 0u64)
                as i64) == (((q / 65536) % 256) / 32 * 8 + ((q / 256) % 256) / 32) * 8 + (q % 256)
                / 32
        }),
{
}

proof fn lemma_narrowed_fives(q: u64)
    by (bit_vector)
    requires
        q <= 0xFFFF_FFFF,
    ensures
        ({
            let p = q as i64;
            &&& ((((p & 0x7800) as u64) >> 3u64) as i64) | ((((p & 0x3C0) as u64) >> 2u64) as i64)
                | ((((p & 0x1E) as u64) >> 1u64) as i64) | ((((p & 0) as u64) << 0u64) as i64) == ((
            (q / 1024) % 32) / 2 * 16 + ((q / 32) % 32) / 2) * 16 + (q % 32) / 2
            &&& ((((p & 0x7000) as u64) >> 6u64) as i64) | ((((p & 0x380) as u64) >> 4u64) as i64)
                | ((((p & 0x1C) as u64) >> 2u64) as i64) | ((((p & 0) as u64) << 0u64) as i64) == ((
            (q / 1024) % 32) / 4 * 8 + ((q / 32) % 32) / 4) * 8 + (q % 32) / 4
            &&& p & 1 == q % 2
            &&& p & 3 == q % 4
            &&& p & 15 == q % 16
            &&& p & 255 == q % 256
            &&& p & 511 == q % 512
            &&& p & 4095 == q % 4096
            &&& p & 32767 == q % 32768
        }),
{
}

proof fn lemma_flags()
    by (bit_vector)
    ensures
        ({
            let present: sqInt = COLOR_MAP_PRESENT;
            let fixed: sqInt = COLOR_MAP_FIXED_PART;
            let indexed: sqInt = COLOR_MAP_INDEXED_PART;
            let style: sqInt = COLOR_MAP_NEW_STYLE;
            let both = present | fixed;
            let words = present | indexed;
            let all = words | both;
            &&& 0i64 & style == 0 && 0i64 & !style == 0 && 0i64 & present == 0
            &&& 0i64 | both == both && both & !style == both && both & style == 0
            &&& both & present != 0 && both & fixed != 0 && both & indexed == 0
            &&& words & style == 0 && words & !style == words && words & present != 0
            &&& words & fixed == 0 && words & indexed != 0
            &&& all & style == 0 && all & !style == all && all & present != 0
            &&& all & fixed != 0 && all & indexed != 0
            &&& all | fixed == all && all | both == all
        }),
{
}

impl BitBlt {
    /// What the fixed part of a conversion set up for `from` and `to` bits per
    /// component makes of a pixel.
    proof fn lemma_fixed_part(self, m: Seq<u8>, p: sqInt, from: int, to: int)
        requires
            0 <= p <= 0xFFFF_FFFF,
            (from == 5 && (to == 8 || to == 3 || to == 4)) || (from == 8 && (to == 3 || to == 4
                || to == 5)),
            self.cmShiftTable == CmTable::Local,
            self.cmMaskTable == CmTable::Local,
            forall|i: int|
                0 <= i < 4 ==> #[trigger] self.cmLocalMasks[i] == BitBlt::component_mask(
                    from,
                    to,
                    i,
                ),
            forall|i: int|
                0 <= i < 4 ==> #[trigger] self.cmLocalShifts[i] == BitBlt::component_shift(
                    from,
                    to,
                    i,
                ),
        ensures
            self.map_fixed(m, p) == recolored(
                p as int,
                if from == 5 {
                    32
                } else {
                    256
                },
                if to == 3 {
                    8
                } else if to == 4 {
                    16
                } else if to == 5 {
                    32
                } else {
                    256
                },
            ),
    {
        let q = p as u64;
        lemma_widened(q);
        lemma_narrowed_bytes(q);
        lemma_narrowed_fives(q);
        assert(self.cmLocalMasks[0] == BitBlt::component_mask(from, to, 0));
        assert(self.cmLocalMasks[1] == BitBlt::component_mask(from, to, 1));
        assert(self.cmLocalMasks[2] == BitBlt::component_mask(from, to, 2));
        assert(self.cmLocalMasks[3] == BitBlt::component_mask(from, to, 3));
        assert(self.cmLocalShifts[0] == BitBlt::component_shift(from, to, 0));
        assert(self.cmLocalShifts[1] == BitBlt::component_shift(from, to, 1));
        assert(self.cmLocalShifts[2] == BitBlt::component_shift(from, to, 2));
        assert(self.cmLocalShifts[3] == BitBlt::component_shift(from, to, 3));
    }

    /// What loading leaves of the color map: what it was given, and the
    /// conversion that it implies.
    proof fn lemma_loaded_map(self, m: Seq<u8>, o: BlitObject, warping: bool) -> (formed: BitBlt)
        requires
            self.loaded(m, o, warping).1 is Ok,
            !self.loaded(m, o, warping).0.noSource,
        ensures
            ({
                let bb = self.loaded(m, o, warping).0;
                let mapped = formed.with_map(m, o.colorMap).0;
                let masked = if mapped.cmFlags & COLOR_MAP_NEW_STYLE == 0 {
                    mapped.with_implied_masks()
                } else {
                    mapped
                };
                &&& formed.with_map(m, o.colorMap).1
                &&& formed.sourceDepth == bb.sourceDepth && formed.destDepth == bb.destDepth
                &&& bb.cmFlags == masked.cmFlags
                &&& bb.cmMask == masked.cmMask
                &&& bb.cmLookupTable == masked.cmLookupTable
                &&& bb.cmShiftTable == masked.cmShiftTable
                &&& bb.cmMaskTable == masked.cmMaskTable
                &&& bb.cmLocalMasks == masked.cmLocalMasks
                &&& bb.cmLocalShifts == masked.cmLocalShifts
            }),
    {
        reveal(BitBlt::with_source);
        reveal(BitBlt::with_rest);
        let noted = self.with_object(o, warping, o.rule->0).with_forms(o);
        let (g, _found) = noted.dest_geometry().of_form(o.dest);
        let placed = noted.with_dest_geometry(g).with_placement(o);
        let (s, _there) = placed.source_geometry().of_form(o.source);
        placed.with_source_geometry(s)
    }

    /// A blit that was loaded without a color map keeps the colors of its pixels
    /// between 16 and 32 bits: each component keeps its high bits, and no pixel but
    /// 0 becomes 0. Between equal depths, and where a depth has no components, the
    /// pixels stay as they are.
    pub proof fn lemma_unmapped_colors(
        self,
        m: Seq<u8>,
        o: BlitObject,
        warping: bool,
        p: sqInt,
    )
        requires
            self.loaded(m, o, warping).1 is Ok,
            !self.loaded(m, o, warping).0.noSource,
            o.colorMap is Nil,
            0 <= p <= 0xFFFF_FFFF,
        ensures
            ({
                let bb = self.loaded(m, o, warping).0;
                let (from, to) = (bb.sourceDepth as int, bb.destDepth as int);
                let color = bb.map_pixel(m, p, bb.mapper_flags());
                if from <= 8 || to <= 8 || from == to {
                    color == p
                } else if (from == 16 && to == 32) || (from == 32 && to == 16) {
                    color == inked(
                        p as int,
                        recolored(p as int, component_values(from), component_values(to)),
                    )
                } else {
                    true
                }
            }),
    {
        let formed = self.lemma_loaded_map(m, o, warping);
        let bb = self.loaded(m, o, warping).0;
        lemma_flags();
        let (from, to) = (bb.sourceDepth as int, bb.destDepth as int);
        if from == 16 && to == 32 {
            bb.lemma_fixed_part(m, p, 5, 8);
        } else if from == 32 && to == 16 {
            bb.lemma_fixed_part(m, p, 8, 5);
        }
    }

    /// Without a color map no table in memory is needed.
    proof fn lemma_unmapped_tables(self, m: Seq<u8>, o: BlitObject, warping: bool, size: nat)
        requires
            self.loaded(m, o, warping).1 is Ok,
            !self.loaded(m, o, warping).0.noSource,
            o.colorMap is Nil,
        ensures
            self.loaded(m, o, warping).0.tables_beside(size),
    {
        let formed = self.lemma_loaded_map(m, o, warping);
        lemma_flags();
    }

    /// A whole blit between 16 and 32 bits that was loaded without a color map
    /// combines every pixel that was asked for with the color of its source pixel.
    /// Every other bit of the form stays, and so does all memory beside it.
    pub proof fn lemma_converted_blit(
        self,
        m: Seq<u8>,
        o: BlitObject,
        a: BlitArgs,
        y: int,
        b: int,
        at: int,
    )
        requires
            self.loaded(m, o, false).1 is Ok,
            o.colorMap is Nil,
            ({
                let bb = self.loaded(m, o, false).0;
                &&& !bb.noSource
                &&& bb.sourceDepth == 16 && bb.destDepth == 32 || bb.sourceDepth == 32
                    && bb.destDepth == 16
                &&& bb.sourceForm != bb.destForm
                &&& 0 <= bb.combinationRule <= 15
                &&& bb.clip_exact()
                &&& bb.dest_whole(m.len())
                &&& bb.source_whole(m.len())
                &&& bb.beside(bb.source_row(0), bb.sourceHeight * bb.sourcePitch)
                &&& bb.halftone_beside(m.len())
                &&& 0 <= y < bb.destHeight
                &&& 0 <= b < 8 * bb.destPitch
            }),
            0 <= at < m.len(),
        ensures
            ({
                let bb = self.loaded(m, o, false).0;
                let after = bb.copied_bits(m, a).0.mem;
                let msb = bb.destMSB != 0;
                let before = row_bit(m, msb, bb.dest_row(y), b);
                let depth = bb.destDepth as int;
                let x = b / depth;
                let p = bb.source_pixel(m, x - bb.destX + bb.sourceX, y - bb.destY + bb.sourceY);
                let color = inked(
                    p as int,
                    recolored(
                        p as int,
                        component_values(bb.sourceDepth as int),
                        component_values(depth),
                    ),
                );
                &&& bb.copied_bits(m, a).1
                &&& row_bit(after, msb, bb.dest_row(y), b) == (if bb.asks_for(x, y) {
                    rule_bit(
                        bb.combinationRule as int,
                        word_bit(color as u32, bb.pixel_place_bit(b % depth)) && stream_bit(
                            msb,
                            bb.halftone_at(m, y),
                            b % 32,
                        ),
                        before,
                    )
                } else {
                    before
                })
                &&& bb.beside(at, 1) ==> after[at] == m[at]
            }),
    {
        let bb = self.loaded(m, o, false).0;
        let x = b / (bb.destDepth as int);
        let p = bb.source_pixel(m, x - bb.destX + bb.sourceX, y - bb.destY + bb.sourceY);
        self.lemma_unmapped_tables(m, o, false, m.len());
        self.lemma_unmapped_colors(m, o, false, p as sqInt);
        bb.lemma_map_blit(m, a, y, b, at);
    }

    /// A blit that was loaded with a plain table of colors looks them up: by the
    /// pixel itself where the source has no color components, and otherwise by the
    /// high bits of the components, as many as the table has room for. No pixel
    /// but 0 comes to entry 0 through fewer bits.
    pub proof fn lemma_table_colors(
        self,
        m: Seq<u8>,
        o: BlitObject,
        warping: bool,
        p: sqInt,
    )
        requires
            self.loaded(m, o, warping).1 is Ok,
            !self.loaded(m, o, warping).0.noSource,
            o.colorMap is Words,
            0 <= p <= 0xFFFF_FFFF,
        ensures
            ({
                let bb = self.loaded(m, o, warping).0;
                let depth = bb.sourceDepth as int;
                let n = o.colorMap->Words_size as int;
                let table = o.colorMap->Words_address as int;
                let color = bb.map_pixel(m, p, bb.mapper_flags());
                let side = if n == 512 {
                    8int
                } else if n == 4096 {
                    16
                } else {
                    32
                };
                if depth <= 8 {
                    n == 2 || n == 4 || n == 16 || n == 256 ==> color == word_at(
                        m,
                        table + 4 * (p as int % n),
                    )
                } else if (depth == 16 || depth == 32) && (n == 512 || n == 4096 || n == 32768) {
                    if component_values(depth) == side {
                        color == word_at(m, table + 4 * (p as int % n))
                    } else {
                        color == word_at(
                            m,
                            table + 4 * inked(
                                p as int,
                                recolored(p as int, component_values(depth), side),
                            ),
                        )
                    }
                } else {
                    true
                }
            }),
    {
        let bb = self.loaded(m, o, warping).0;
        let depth = bb.sourceDepth as int;
        let n = o.colorMap->Words_size as int;
        let table = o.colorMap->Words_address as int;
        let bits = if n == 512 {
            3int
        } else if n == 4096 {
            4
        } else {
            5
        };
        if depth <= 8 && (n == 2 || n == 4 || n == 16 || n == 256) || (depth == 16 || depth == 32)
            && (n == 512 || n == 4096 || n == 32768) {
            self.lemma_loaded_table(m, o, warping, bits);
            bb.lemma_table_color(m, p, n, table, bits);
        }
    }

    /// The registers look colors up in a table of `n` words, by `bits` bits of each
    /// component where the source has components.
    spec fn holds_table(self, n: int, table: int, bits: int) -> bool {
        let own = BitBlt::component_bits(self.sourceDepth as int);
        let flags = self.mapper_flags();
        &&& self.cmMask == n - 1
        &&& self.cmLookupTable == table
        &&& flags & COLOR_MAP_PRESENT != 0
        &&& flags & COLOR_MAP_INDEXED_PART != 0
        &&& if self.sourceDepth <= 8 || own == bits {
            flags & COLOR_MAP_FIXED_PART == 0
        } else {
            &&& flags & COLOR_MAP_FIXED_PART != 0
            &&& self.cmShiftTable == CmTable::Local
            &&& self.cmMaskTable == CmTable::Local
            &&& forall|i: int|
                0 <= i < 4 ==> #[trigger] self.cmLocalMasks[i] == BitBlt::component_mask(
                    own,
                    bits,
                    i,
                )
            &&& forall|i: int|
                0 <= i < 4 ==> #[trigger] self.cmLocalShifts[i] == BitBlt::component_shift(
                    own,
                    bits,
                    i,
                )
        }
    }

    /// What color such registers give to a pixel.
    proof fn lemma_table_color(self, m: Seq<u8>, p: sqInt, n: int, table: int, bits: int)
        requires
            0 <= p <= 0xFFFF_FFFF,
            self.holds_table(n, table, bits),
            ({
                let depth = self.sourceDepth as int;
                ||| depth <= 8 && (n == 2 || n == 4 || n == 16 || n == 256)
                ||| (depth == 16 || depth == 32) && (n == 512 && bits == 3 || n == 4096 && bits == 4
                    || n == 32768 && bits == 5)
            }),
        ensures
            ({
                let depth = self.sourceDepth as int;
                let color = self.map_pixel(m, p, self.mapper_flags());
                let side = if n == 512 {
                    8int
                } else if n == 4096 {
                    16
                } else {
                    32
                };
                if depth <= 8 || component_values(depth) == side {
                    color == word_at(m, table + 4 * (p as int % n))
                } else {
                    color == word_at(
                        m,
                        table + 4 * inked(
                            p as int,
                            recolored(p as int, component_values(depth), side),
                        ),
                    )
                }
            }),
    {
        let depth = self.sourceDepth as int;
        let own = BitBlt::component_bits(depth);
        if depth <= 8 || own == bits {
            self.lemma_looked_up(m, p, n);
        } else {
            self.lemma_fixed_part(m, p, own, bits);
            let v = self.map_fixed(m, p);
            lemma_recolored_range(p as int, component_values(depth), n);
            let index: sqInt = if v == 0 && p != 0 {
                1
            } else {
                v
            };
            self.lemma_looked_up(m, index, n);
        }
    }

    /// The entry that an index leads to.
    proof fn lemma_looked_up(self, m: Seq<u8>, index: sqInt, n: int)
        requires
            0 <= index <= 0xFFFF_FFFF,
            n == 2 || n == 4 || n == 16 || n == 256 || n == 512 || n == 4096 || n == 32768,
            self.cmMask == n - 1,
        ensures
            self.lookup(m, index) == word_at(m, self.cmLookupTable + 4 * (index as int % n)),
    {
        lemma_narrowed_fives(index as u64);
    }

    /// What loading a plain table of colors leaves in the registers.
    proof fn lemma_loaded_table(self, m: Seq<u8>, o: BlitObject, warping: bool, bits: int)
        requires
            self.loaded(m, o, warping).1 is Ok,
            !self.loaded(m, o, warping).0.noSource,
            o.colorMap is Words,
            ({
                let n = o.colorMap->Words_size as int;
                let depth = self.loaded(m, o, warping).0.sourceDepth as int;
                ||| depth <= 8 && (n == 2 || n == 4 || n == 16 || n == 256)
                ||| (depth == 16 || depth == 32) && (n == 512 && bits == 3 || n == 4096 && bits == 4
                    || n == 32768 && bits == 5)
            }),
        ensures
            self.loaded(m, o, warping).0.holds_table(
                o.colorMap->Words_size as int,
                o.colorMap->Words_address as int,
                bits,
            ),
    {
        let formed = self.lemma_loaded_map(m, o, warping);
        formed.lemma_table_registers(m, o.colorMap, bits);
    }

    /// What a plain table of colors makes of the registers, and the conversion
    /// that it implies once more.
    proof fn lemma_table_registers(self, m: Seq<u8>, map: ColorMapObject, bits: int)
        requires
            map is Words,
            ({
                let n = map->Words_size as int;
                let depth = self.sourceDepth as int;
                ||| depth <= 8 && (n == 2 || n == 4 || n == 16 || n == 256)
                ||| (depth == 16 || depth == 32) && (n == 512 && bits == 3 || n == 4096 && bits == 4
                    || n == 32768 && bits == 5)
            }),
        ensures
            ({
                let mapped = self.with_map(m, map).0;
                self.with_map(m, map).1 ==> {
                    &&& mapped.cmFlags & COLOR_MAP_NEW_STYLE == 0
                    &&& mapped.with_implied_masks().holds_table(
                        map->Words_size as int,
                        map->Words_address as int,
                        bits,
                    )
                }
            }),
    {
        let n = map->Words_size as int;
        let own = BitBlt::component_bits(self.sourceDepth as int);
        lemma_flags();
        let found = self.with_map_tables(map).0;
        let sized = found.with_map_size(n);
        let words = COLOR_MAP_PRESENT | COLOR_MAP_INDEXED_PART;
        let both = COLOR_MAP_PRESENT | COLOR_MAP_FIXED_PART;
        assert(sized.cmFlags == words);
        let implied = sized.with_implied_masks();
        let mapped = implied.with_fixed_part(m);
        if self.sourceDepth > 8 && own != bits {
            assert(sized.cmBitsPerColor == bits);
            assert(implied == sized.with_color_masks(own, bits));
            assert(implied.cmFlags == words | both);
            assert(implied.cmLocalShifts[2] == BitBlt::component_shift(own, bits, 2));
            assert(implied.shift_entry(m, 2) != 0);
            assert(!implied.is_identity_map(m));
            assert(mapped.cmFlags == words | both);
            assert(mapped.with_implied_masks() == mapped.with_color_masks(own, bits));
        } else {
            assert(implied == sized);
            assert(implied.is_identity_map(m));
            assert(mapped.cmFlags == words);
            assert(mapped.with_implied_masks() == mapped);
        }
    }
}

/// A color in fewer values per component is an index into a table of as many
/// entries.
proof fn lemma_recolored_range(p: int, from: int, n: int)
    requires
        0 <= p,
        from == 32 || from == 256,
        n == 512 || n == 4096 || n == 32768,
    ensures
        n == 512 ==> 0 <= recolored(p, from, 8) < n,
        n == 4096 ==> 0 <= recolored(p, from, 16) < n,
        n == 32768 ==> 0 <= recolored(p, from, 32) < n,
{
}

} // verus!
