//! What holds of the blitter's rules on every word, tried on some.
#![allow(non_snake_case)]

use pharo_plugins::bitblt::blit::{BlitArgs, SourceMap, WarpArgs, WarpCorners};
use pharo_plugins::bitblt::memory::{long32At, long32Atput, Memory};
use pharo_plugins::bitblt::rules;
use pharo_plugins::bitblt::state::{
    BitBlt, COLOR_MAP_INDEXED_PART, COLOR_MAP_PRESENT, DITHER_MATRIX_4X4,
};
use pharo_plugins::prim::sqInt;

const DEPTHS: [i32; 6] = [1, 2, 4, 8, 16, 32];

/// Words with full, empty and middling components side by side.
const WORDS: [u32; 8] = [
    0x0000_0000,
    0xFFFF_FFFF,
    0x0180_FF7F,
    0x7C1F_03E0,
    0x8000_0001,
    0x1234_5678,
    0xDEAD_BEEF,
    0x00FF_FF00,
];

fn at_depth(depth: i32) -> BitBlt {
    let mut bb = BitBlt::new();
    bb.destDepth = depth;
    bb.destPPW = (32 / depth) as sqInt;
    bb.destMask = 0xFFFF_FFFF;
    bb
}

fn merged(depth: i32, rule: sqInt, s: u32, d: u32) -> u32 {
    let mut bb = at_depth(depth);
    bb.combinationRule = rule;
    bb.mergeFnwith(&mut Memory::new(vec![]), s, d)
}

/// Where the components of a word start, and how wide they are.
fn components(depth: i32) -> (Vec<u32>, u32) {
    match depth {
        16 => (vec![0, 5, 10, 16, 21, 26], 5),
        32 => (vec![0, 8, 16, 24], 8),
        n => ((0..32 / n as u32).map(|i| i * n as u32).collect(), n as u32),
    }
}

fn part(w: u32, at: u32, bits: u32) -> u64 {
    u64::from(w >> at) & ((1u64 << bits) - 1)
}

fn each_component(check: impl Fn(i32, u64, &dyn Fn(sqInt) -> u64, u64, u64)) {
    for depth in DEPTHS {
        let (places, bits) = components(depth);
        for s in WORDS {
            for d in WORDS {
                for at in &places {
                    let rule = |r: sqInt| part(merged(depth, r, s, d), *at, bits);
                    let full = (1u64 << bits) - 1;
                    check(depth, full, &rule, part(s, *at, bits), part(d, *at, bits));
                }
            }
        }
    }
}

#[test]
fn components_add_up_to_full_intensity_at_most() {
    each_component(|_, full, rule, s, d| assert_eq!(rule(20), (s + d).min(full)));
}

#[test]
fn components_are_told_apart_by_size() {
    each_component(|_, _, rule, s, d| {
        assert_eq!(rule(27), s.max(d));
        assert_eq!(rule(28), s.min(d));
        assert_eq!(rule(21), s.abs_diff(d));
    });
}

#[test]
fn components_multiply_as_fractions() {
    each_component(|depth, full, rule, s, d| {
        if depth >= 8 {
            assert_eq!(rule(37), ((s + 1) * (d + 1) - 1) / (full + 1));
            if s == full {
                assert_eq!(rule(37), d);
            }
            if s == 0 {
                assert_eq!(rule(37), 0);
            }
        }
    });
}

#[test]
fn pixels_are_painted_masked_and_cleared_one_by_one() {
    for depth in DEPTHS {
        let n = depth as u32;
        for s in WORDS {
            for d in WORDS {
                for i in 0..32 / n {
                    let pixel = |w: u32| part(w, i * n, n);
                    let (ps, pd) = (pixel(s), pixel(d));
                    let painted = if ps == 0 { pd } else { ps };
                    assert_eq!(pixel(merged(depth, 25, s, d)), painted);
                    if depth < 32 {
                        let kept = if ps == 0 { pd } else { 0 };
                        assert_eq!(pixel(merged(depth, 26, s, d)), kept);
                    }
                    let cleared = if ps == pd { 0 } else { pd };
                    assert_eq!(pixel(merged(depth, 39, s, d)), cleared);
                }
            }
        }
    }
}

#[test]
fn differences_are_counted_inside_the_mask() {
    let counted = |depth: i32, rule: sqInt, mask: u32, s: u32, d: u32| {
        let mut bb = at_depth(depth);
        bb.combinationRule = rule;
        bb.destMask = mask;
        assert_eq!(bb.mergeFnwith(&mut Memory::new(vec![]), s, d), d);
        bb.bitCount
    };
    for depth in DEPTHS {
        let low = ((1u64 << depth) - 1) as u32;
        for s in WORDS {
            for d in WORDS {
                let all = counted(depth, 22, 0, s, d);
                assert_eq!(counted(depth, 32, 0xFFFF_FFFF, s, d), all);
                assert_eq!(counted(depth, 32, 0, s, d), 0);
                let rest = counted(depth, 32, !low, s, d);
                assert_eq!(counted(depth, 32, low, s, d) + rest, all);
                assert_eq!(counted(depth, 32, !low, s ^ low, d), rest);
            }
        }
    }
}

#[test]
fn counting_goes_up_to_the_last_number() {
    let mut bb = at_depth(32);
    bb.bitCount = sqInt::MAX - 765;
    assert_eq!(bb.OLDrgbDiffwith(0x00FF_FFFF, 0), 0);
    assert_eq!(bb.bitCount, sqInt::MAX);
    assert_eq!(bb.OLDrgbDiffwith(5, 5), 5);
    assert_eq!(bb.rgbDiffwith(5, 5), 5);
    assert_eq!(bb.bitCount, sqInt::MAX);
}

#[test]
fn narrow_pixels_are_tallied_whatever_the_bits_per_color() {
    let mut bb = at_depth(8);
    bb.cmFlags = COLOR_MAP_PRESENT | COLOR_MAP_INDEXED_PART;
    bb.cmMask = 0xFF;
    bb.cmLookupTable = TABLE_AT;
    bb.cmBitsPerColor = -3;
    let mut mem = Memory::new(vec![0; 0x4000]);
    assert_eq!(bb.OLDtallyIntoMapwith(&mut mem, 0, 0x0102_0202), 0x0102_0202);
    assert_eq!(long32At(&mem, TABLE_AT + 4), 1);
    assert_eq!(long32At(&mem, TABLE_AT + 8), 3);
}

#[test]
fn reversing_pixels_twice_gives_the_word_back() {
    for depth in DEPTHS {
        for w in WORDS {
            let once = merged(depth, 38, 0, w);
            assert_eq!(merged(depth, 38, 0, once), w);
            assert_eq!(part(once, 0, depth as u32), part(w, 32 - depth as u32, depth as u32));
        }
    }
}

#[test]
fn a_blend_lies_between_its_ends() {
    for s in WORDS {
        for d in WORDS {
            assert_eq!(rules::alphaBlendwith(s & 0x00FF_FFFF, d), d);
            assert_eq!(rules::alphaBlendwith(s | 0xFF00_0000, d), s | 0xFF00_0000);
            assert_eq!(rules::alphaBlendScaledwith(s | 0xFF00_0000, d), s | 0xFF00_0000);
            let half = rules::alphaBlendwith((s & 0x00FF_FFFF) | 0x8000_0000, d);
            for at in [0, 8, 16] {
                let (a, b) = (part(s, at, 8), part(d, at, 8));
                let mixed = part(half, at, 8);
                assert!(a.min(b) <= mixed && mixed <= a.max(b));
            }
            let mut bb = at_depth(32);
            bb.combinationRule = 30;
            bb.sourceAlpha = 0;
            assert_eq!(bb.mergeFnwith(&mut Memory::new(vec![]), s, d), d);
            bb.sourceAlpha = 255;
            assert_eq!(bb.mergeFnwith(&mut Memory::new(vec![]), s, d), s);
        }
    }
}

#[test]
fn widening_a_pixel_can_be_undone() {
    for p in 0..=0xFFFF {
        let wide = rules::rgbMapfromto(p, 5, 8);
        assert_eq!(wide, sqInt::from(rules::rgbMap16To32(p as u32)));
        assert_eq!(rules::rgbMapfromto(wide, 8, 5), p & 0x7FFF);
    }
}

#[test]
fn fewer_bits_keep_a_pixel_visible() {
    for p in [1, 7, 0x0700, 0x07_0000, 0x80_0000] {
        assert_ne!(rules::rgbMapfromto(p, 8, 5), 0);
        assert_ne!(rules::rgbMapfromto(p, 8, 4), 0);
    }
    assert_eq!(rules::rgbMapfromto(0, 8, 5), 0);
}

// ---- Whole blits ----------------------------------------------------------

const DEST_AT: u64 = 0x1000;
const SOURCE_AT: u64 = 0x2000;
const TABLE_AT: u64 = 0x3000;

/// A blit of 32-bit pixels onto a form of another depth, of 8 by 2 pixels.
fn onto(depth: i32, msb: bool, rule: sqInt) -> BitBlt {
    let mut bb = BitBlt::new();
    bb.combinationRule = rule;
    bb.destForm = 1;
    bb.sourceForm = 2;
    bb.destBits = DEST_AT;
    bb.destWidth = 8;
    bb.destHeight = 2;
    bb.destDepth = depth;
    bb.destMSB = msb as i32;
    bb.destPPW = (32 / depth) as sqInt;
    bb.destPitch = depth;
    bb.sourceBits = SOURCE_AT;
    bb.sourceWidth = 8;
    bb.sourceHeight = 2;
    bb.sourceDepth = 32;
    bb.sourceMSB = 1;
    bb.sourcePPW = 1;
    bb.sourcePitch = 32;
    bb.noHalftone = true;
    bb.clipWidth = 8;
    bb.clipHeight = 2;
    bb.destX = 1;
    bb.destY = 1;
    bb.width = 5;
    bb.height = 1;
    bb
}

fn pixel(mem: &Memory, depth: u32, msb: bool, x: u32, y: u32) -> u32 {
    let per_word = 32 / depth;
    let word = long32At(mem, DEST_AT + u64::from(y * depth + 4 * (x / per_word)));
    let place = x % per_word;
    let at = if msb { 32 - depth - place * depth } else { place * depth };
    part(word, at, depth) as u32
}

fn no_args() -> BlitArgs {
    BlitArgs { count: 0, first: None, second: None, gamma: None, ungamma: None }
}

/// Five source pixels: opaque, transparent and three in between.
const INK: [u32; 5] = [0xFFFF_FFFF, 0x0012_3456, 0x8040_2010, 0xFF00_0000, 0x4010_4020];

fn inked() -> Memory {
    let mut mem = Memory::new(vec![0x5A; 0x4000]);
    for (i, w) in INK.iter().enumerate() {
        long32Atput(&mut mem, SOURCE_AT + 4 * i as u64, *w);
    }
    mem
}

#[test]
fn a_blend_changes_just_the_pixels_of_its_rectangle() {
    for (depth, msb) in [(32, true), (16, true), (16, false), (8, true), (8, false)] {
        let mut bb = onto(depth, msb, 34);
        if depth == 8 {
            // the color map gives the high bits of the blue component
            bb.cmFlags = COLOR_MAP_PRESENT | COLOR_MAP_INDEXED_PART;
            bb.cmMask = 0xFF;
            bb.cmLookupTable = TABLE_AT;
        }
        let mut mem = inked();
        for i in 0..256u32 {
            long32Atput(&mut mem, TABLE_AT + 4 * u64::from(i), i / 2);
        }
        let before = mem.clone();
        assert!(bb.copyBits(&mut mem, &no_args()));
        let n = depth as u32;
        for y in 0..2 {
            for x in 0..8 {
                let old = pixel(&before, n, msb, x, y);
                let new = pixel(&mem, n, msb, x, y);
                if y != 1 || !(1..6).contains(&x) {
                    assert_eq!(new, old, "depth {depth}, pixel {x}, {y}");
                    continue;
                }
                let s = INK[x as usize - 1];
                match (depth, s >> 24) {
                    (_, 0) => assert_eq!(new, old),
                    (32, 0xFF) => assert_eq!(new, s),
                    (32, _) => assert_eq!(new, rules::alphaBlendScaledwith(s, old)),
                    (16, alpha) => {
                        let t = DITHER_MATRIX_4X4[4 + (x as usize - 1) % 4];
                        let under = rules::rgbMap16To32(old) | 0xFF00_0000;
                        let color =
                            if alpha == 0xFF { s } else { rules::alphaBlendScaledwith(s, under) };
                        assert_eq!(new, rules::dither32To16threshold(color, t).max(1));
                    }
                    _ => assert!(new < 128),
                }
            }
        }
        assert_eq!(long32At(&mem, DEST_AT + 2 * depth as u64), 0x5A5A_5A5A);
    }
}

#[test]
fn an_empty_mask_leaves_the_pixel() {
    let mut bb = onto(32, true, 41);
    let mut mem = inked();
    let args = BlitArgs { count: 1, first: Some(0x11_2233), ..no_args() };
    assert!(bb.copyBits(&mut mem, &args));
    // the fourth source pixel has no color
    assert_eq!(pixel(&mem, 32, true, 4, 1), 0x5A5A_5A5A);
    assert_eq!(pixel(&mem, 32, true, 1, 1) & 0x00FF_FFFF, 0x10_2132);
    assert_eq!(pixel(&mem, 32, true, 6, 1), 0x5A5A_5A5A);
}

#[test]
fn refused_arguments_change_nothing() {
    for (rule, args) in [
        (41, no_args()),
        (41, BlitArgs { count: 2, first: Some(1), ..no_args() }),
        (30, no_args()),
        (31, BlitArgs { count: 1, first: Some(256), ..no_args() }),
    ] {
        let mut bb = onto(32, true, rule);
        let mut mem = inked();
        assert!(!bb.copyBits(&mut mem, &args));
        for i in 0..16 {
            assert_eq!(long32At(&mem, DEST_AT + 4 * i), 0x5A5A_5A5A);
        }
    }
}

#[test]
fn a_warp_of_its_own_size_keeps_every_pixel_in_its_place() {
    for (depth, msb) in [(8, true), (8, false), (16, true), (32, true)] {
        let mut bb = onto(depth, msb, 3);
        bb.sourceDepth = depth;
        bb.sourceMSB = msb as i32;
        bb.sourcePPW = bb.destPPW;
        bb.sourcePitch = bb.destPitch;
        bb.isWarping = true;
        (bb.destX, bb.destY, bb.width, bb.height) = (-1, 0, 7, 2);
        let mut mem = Memory::new((0..0x4000).map(|i| (i * 37 / 5) as u8).collect());
        let before = mem.clone();
        let at = |v: sqInt| v << 14;
        let corners = WarpCorners {
            p1x: at(1),
            p1y: at(0),
            p2x: at(1),
            p2y: at(1),
            p3x: at(7),
            p3y: at(1),
            p4x: at(7),
            p4y: at(0),
        };
        let args = WarpArgs { count: 0, smoothing: None, map: SourceMap::Nil };
        assert!(bb.warpBits(&mut mem, &Some(corners), &args));
        let source = |x: u32, y: u32| {
            let n = depth as u32;
            let word =
                long32At(&before, SOURCE_AT + u64::from(y * n + 4 * (x / (32 / n))));
            let place = x % (32 / n);
            part(word, if msb { 32 - n - place * n } else { place * n }, n) as u32
        };
        for y in 0..2 {
            for x in 0..8 {
                let expected = if x < 6 {
                    source(x + 2, y)
                } else {
                    pixel(&before, depth as u32, msb, x, y)
                };
                assert_eq!(pixel(&mem, depth as u32, msb, x, y), expected, "{depth}: {x}, {y}");
            }
        }
    }
}

#[test]
fn an_alpha_is_filled_in_at_any_depth_that_has_one() {
    let mut bb = BitBlt::new();
    for depth in [0, 1, 13, 16, 33] {
        bb.destDepth = depth;
        assert_eq!(bb.fixAlphawith(0xAB00_0000, 0x0000_0012), 0x0000_0012);
    }
    bb.destDepth = 32;
    bb.destPPW = 7;
    assert_eq!(bb.fixAlphawith(0xAB12_3456, 0x0000_0012), 0xAB00_0012);
    assert_eq!(bb.fixAlphawith(0xAB12_3456, 0x0100_0012), 0x0100_0012);
    assert_eq!(bb.fixAlphawith(0xAB12_3456, 0), 0);
}
