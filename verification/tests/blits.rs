//! Blits from the object that describes them to the memory they change: loading,
//! locking surfaces, arguments, spans, lines, strings and single pixels.
#![allow(non_snake_case)]

use pharo_plugins::bitblt::blit::{BlitArgs, SourceMap, WarpArgs, WarpCorners};
use pharo_plugins::bitblt::load::{
    ignoreSourceOrHalftone, loadColorMapShiftOrMaskFrom, BlitObject, ColorMapObject, FormBits,
    FormObject, HalftoneObject, LoadError, SurfaceFormat, WordsObject,
};
use pharo_plugins::bitblt::memory::{long32At, long32Atput, Memory};
use pharo_plugins::bitblt::pixel::{compareColors, pixelValueAt};
use pharo_plugins::bitblt::state::{
    BitBlt, CmTable, COLOR_MAP_FIXED_PART, COLOR_MAP_INDEXED_PART, COLOR_MAP_NEW_STYLE,
    COLOR_MAP_PRESENT,
};
use pharo_plugins::bitblt::surface::{LockAction, LockEvent, LockState, SurfaceRect, Unlock};
use pharo_plugins::prim::{currentFailure, sqInt, PrimErr};

const DEST_AT: u64 = 0x1000;
const SOURCE_AT: u64 = 0x2000;
const TABLE_AT: u64 = 0x3000;

fn memory() -> Memory {
    Memory::new(vec![0; 0x4000])
}

fn form(oop: sqInt, width: sqInt, height: sqInt, depth: sqInt, bits: FormBits) -> FormObject {
    FormObject { oop, isNil: false, isForm: true, width, height, depth, bits }
}

fn bitmap(size: sqInt, address: u64) -> FormBits {
    FormBits::Bitmap { size, address }
}

fn no_form(oop: sqInt) -> FormObject {
    FormObject {
        oop,
        isNil: true,
        isForm: false,
        width: 0,
        height: 0,
        depth: 0,
        bits: FormBits::Other,
    }
}

/// A blit of a 32 by 4 source onto a 32 by 4 destination of one bit.
fn blit(rule: sqInt) -> BlitObject {
    BlitObject {
        oop: 7,
        isReceiver: true,
        numGCs: 3,
        numGCsNow: 3,
        rule: Some(rule),
        source: form(2, 32, 4, 1, bitmap(16, SOURCE_AT)),
        halftoneOop: 0,
        halftoneIsNil: true,
        halftone: HalftoneObject::Other,
        dest: form(1, 32, 4, 1, bitmap(16, DEST_AT)),
        destX: 0,
        destY: 0,
        width: Some(32),
        height: Some(4),
        placementFailed: false,
        colorMap: ColorMapObject::Nil,
        sourceX: 0,
        sourceY: 0,
        clipX: 0,
        clipY: 0,
        clipWidth: None,
        clipHeight: None,
        failed: false,
    }
}

fn load(o: &BlitObject) -> (BitBlt, Result<(), LoadError>) {
    let mut bb = BitBlt::new();
    let r = bb.loadBitBltFromwarping(&memory(), o, false);
    (bb, r)
}

fn no_args() -> BlitArgs {
    BlitArgs { count: 0, first: None, second: None, gamma: None, ungamma: None }
}

fn put(mem: &mut Memory, at: u64, words: &[u32]) {
    for (i, w) in words.iter().enumerate() {
        long32Atput(mem, at + 4 * i as u64, *w);
    }
}

fn get(mem: &Memory, at: u64, n: usize) -> Vec<u32> {
    (0..n).map(|i| long32At(mem, at + 4 * i as u64)).collect()
}

// ---- Loading --------------------------------------------------------------

#[test]
fn a_loaded_blit_has_the_geometry_of_its_forms() {
    let (bb, r) = load(&blit(3));
    assert_eq!(r, Ok(()));
    assert_eq!(bb.combinationRule, 3);
    assert_eq!((bb.destWidth, bb.destHeight, bb.destDepth, bb.destMSB), (32, 4, 1, 1));
    assert_eq!((bb.destPPW, bb.destPitch, bb.destBits), (32, 4, DEST_AT));
    assert_eq!((bb.sourcePPW, bb.sourcePitch, bb.sourceBits), (32, 4, SOURCE_AT));
    assert_eq!((bb.clipX, bb.clipY, bb.clipWidth, bb.clipHeight), (0, 0, 32, 4));
    assert!(!bb.noSource && bb.noHalftone);
}

#[test]
fn a_negative_depth_puts_the_leftmost_pixel_in_the_low_bits() {
    let mut o = blit(3);
    o.dest.depth = -8;
    o.dest.bits = bitmap(128, DEST_AT);
    let (bb, r) = load(&o);
    assert_eq!(r, Ok(()));
    assert_eq!((bb.destDepth, bb.destMSB, bb.destPPW, bb.destPitch), (8, 0, 4, 32));
}

#[test]
fn rules_that_need_no_source_ignore_it() {
    for rule in [0, 5, 10, 15] {
        let (bb, r) = load(&blit(rule));
        assert_eq!(r, Ok(()));
        assert!(bb.noSource && bb.noHalftone);
        assert!(ignoreSourceOrHalftone(rule, false));
    }
    assert!(!ignoreSourceOrHalftone(3, false));
    assert!(ignoreSourceOrHalftone(3, true));
}

#[test]
fn rules_that_do_not_exist_are_refused() {
    for rule in [-1, 16, 17, 42, 1000] {
        assert_eq!(load(&blit(rule)).1, Err(LoadError::Refused), "rule {rule}");
    }
    assert_eq!(load(&blit(41)).1, Ok(()));
    let mut o = blit(3);
    o.rule = None;
    assert_eq!(load(&o).1, Err(LoadError::Refused));
}

#[test]
fn malformed_objects_are_refused() {
    let mut o = blit(3);
    o.dest = no_form(1);
    assert_eq!(load(&o).1, Err(LoadError::Refused));
    let mut o = blit(3);
    o.dest.width = -1;
    assert_eq!(load(&o).1, Err(LoadError::Refused));
    let mut o = blit(3);
    o.dest.bits = bitmap(12, DEST_AT);
    assert_eq!(load(&o).1, Err(LoadError::Refused));
    let mut o = blit(3);
    o.source.bits = FormBits::Other;
    assert_eq!(load(&o).1, Err(LoadError::Refused));
    let mut o = blit(3);
    o.placementFailed = true;
    assert_eq!(load(&o).1, Err(LoadError::Refused));
    let mut o = blit(3);
    o.failed = true;
    assert_eq!(load(&o).1, Err(LoadError::Refused));
    let mut o = blit(3);
    o.halftoneIsNil = false;
    assert_eq!(load(&o).1, Err(LoadError::Refused));
}

#[test]
fn a_collection_while_loading_is_noticed() {
    let mut o = blit(3);
    o.numGCsNow = 4;
    assert_eq!(load(&o).1, Err(LoadError::Moved));
}

#[test]
fn a_surface_has_no_address_until_it_is_locked() {
    let mut o = blit(3);
    o.dest.bits =
        FormBits::Surface(SurfaceFormat { width: 32, height: 4, depth: 32, msb: 1 });
    let (bb, r) = load(&o);
    assert_eq!(r, Ok(()));
    assert_eq!((bb.destBits, bb.destPitch, bb.destDepth, bb.destPPW), (0, 0, 32, 1));
    let mut o = blit(3);
    o.dest.bits = FormBits::Silent(SurfaceFormat { width: 32, height: 4, depth: 32, msb: 1 });
    assert_eq!(load(&o).1, Err(LoadError::NoAnswer));
    let mut o = blit(3);
    o.dest.bits = FormBits::Unresolved;
    assert_eq!(load(&o).1, Err(LoadError::Refused));
}

#[test]
fn the_clipping_rectangle_is_cut_to_the_destination() {
    let mut o = blit(3);
    o.clipX = -5;
    o.clipY = 1;
    o.clipWidth = Some(100);
    o.clipHeight = Some(100);
    let (bb, r) = load(&o);
    assert_eq!(r, Ok(()));
    assert_eq!((bb.clipX, bb.clipY, bb.clipWidth, bb.clipHeight), (0, 1, 32, 3));
}

#[test]
fn shift_and_mask_tables_are_four_words() {
    let table = |size| WordsObject::Words { size, address: TABLE_AT };
    assert_eq!(loadColorMapShiftOrMaskFrom(WordsObject::Nil), (CmTable::Null, false));
    assert_eq!(loadColorMapShiftOrMaskFrom(table(4)), (CmTable::Image(TABLE_AT), false));
    assert_eq!(loadColorMapShiftOrMaskFrom(table(3)), (CmTable::Null, true));
    assert_eq!(loadColorMapShiftOrMaskFrom(WordsObject::Other), (CmTable::Null, true));
}

#[test]
fn color_maps_of_both_styles_are_loaded() {
    let mut o = blit(3);
    o.dest = form(1, 8, 4, 8, bitmap(32, DEST_AT));
    o.colorMap = ColorMapObject::Words { size: 2, address: TABLE_AT };
    let (bb, r) = load(&o);
    assert_eq!(r, Ok(()));
    assert_eq!(bb.cmFlags, COLOR_MAP_PRESENT | COLOR_MAP_INDEXED_PART);
    assert_eq!((bb.cmLookupTable, bb.cmMask), (TABLE_AT, 1));

    let words = |n: u64| WordsObject::Words { size: 4, address: TABLE_AT + 16 * n };
    o.colorMap = ColorMapObject::Parts {
        shifts: words(0),
        masks: words(1),
        colors: WordsObject::Words { size: 256, address: TABLE_AT + 32 },
    };
    let mut mem = memory();
    put(&mut mem, TABLE_AT, &[1, 2, 3, 4, 5, 6, 7, 8]);
    let mut bb = BitBlt::new();
    assert_eq!(bb.loadBitBltFromwarping(&mem, &o, false), Ok(()));
    assert_eq!(
        bb.cmFlags,
        COLOR_MAP_PRESENT | COLOR_MAP_NEW_STYLE | COLOR_MAP_FIXED_PART | COLOR_MAP_INDEXED_PART
    );
    assert_eq!((bb.cmShiftTable, bb.cmMaskTable), (
        CmTable::Image(TABLE_AT),
        CmTable::Image(TABLE_AT + 16),
    ));
    assert_eq!(bb.cmMask, 255);

    o.colorMap = ColorMapObject::Other;
    assert_eq!(load(&o).1, Err(LoadError::Refused));
}

// ---- Blits ----------------------------------------------------------------

#[test]
fn a_loaded_copy_moves_the_source() {
    let mut mem = memory();
    put(&mut mem, SOURCE_AT, &[0x1111_1111, 0x2222_2222, 0x3333_3333, 0x4444_4444]);
    let (mut bb, _) = load(&blit(3));
    assert!(bb.copyBits(&mut mem, &no_args()));
    assert_eq!(
        get(&mem, DEST_AT, 4),
        [0x1111_1111, 0x2222_2222, 0x3333_3333, 0x4444_4444]
    );
    assert_eq!((bb.affectedL, bb.affectedR, bb.affectedT, bb.affectedB), (0, 32, 0, 4));
    assert_eq!(bb.copyBitsAnswer(), None);
}

#[test]
fn nothing_left_after_clipping_changes_nothing() {
    let mut mem = memory();
    put(&mut mem, SOURCE_AT, &[u32::MAX; 4]);
    let mut o = blit(3);
    o.destX = 100;
    let (mut bb, _) = load(&o);
    assert!(bb.copyBits(&mut mem, &no_args()));
    assert_eq!(get(&mem, DEST_AT, 4), [0; 4]);
    assert_eq!((bb.affectedL, bb.affectedR, bb.affectedT, bb.affectedB), (0, 0, 0, 0));
}

#[test]
fn a_fill_keeps_what_is_outside_its_rectangle() {
    let mut mem = memory();
    let mut o = blit(10);
    o.destX = 4;
    o.destY = 1;
    o.width = Some(8);
    o.height = Some(2);
    let (mut bb, _) = load(&o);
    assert!(bb.copyBits(&mut mem, &no_args()));
    assert_eq!(get(&mem, DEST_AT, 4), [0, 0x0FF0_0000, 0x0FF0_0000, 0]);
    assert_eq!(get(&mem, DEST_AT - 4, 1), [0]);
    assert_eq!(get(&mem, DEST_AT + 16, 1), [0]);
}

#[test]
fn the_halftone_is_read_row_by_row() {
    let mut mem = memory();
    put(&mut mem, TABLE_AT, &[0xAAAA_AAAA, 0x5555_5555]);
    let mut o = blit(3);
    o.source = no_form(2);
    o.halftoneIsNil = false;
    o.halftoneOop = 3;
    o.halftone = HalftoneObject::Words { size: 2, address: TABLE_AT };
    let (mut bb, r) = load(&o);
    assert_eq!(r, Ok(()));
    assert!(bb.copyBits(&mut mem, &no_args()));
    assert_eq!(
        get(&mem, DEST_AT, 4),
        [0xAAAA_AAAA, 0x5555_5555, 0xAAAA_AAAA, 0x5555_5555]
    );
}

#[test]
fn a_span_is_one_row_of_a_blit() {
    let mut mem = memory();
    let mut o = blit(10);
    o.height = Some(1);
    let (mut bb, _) = load(&o);
    assert!(bb.copyBitsFromtoat(&mut mem, &no_args(), 8, 16, 2));
    assert_eq!(get(&mem, DEST_AT, 4), [0, 0, 0x00FF_0000, 0]);
    assert_eq!((bb.destX, bb.destY, bb.sourceX, bb.width), (8, 2, 8, 8));
}

#[test]
fn blends_with_a_constant_take_one_alpha() {
    let mut mem = memory();
    put(&mut mem, SOURCE_AT, &[0x00FF_0000]);
    let deep = |rule: sqInt| {
        let mut o = blit(rule);
        o.dest = form(1, 1, 1, 32, bitmap(4, DEST_AT));
        o.source = form(2, 1, 1, 32, bitmap(4, SOURCE_AT));
        load(&o).0
    };
    let alpha = |v: sqInt| BlitArgs { count: 1, first: Some(v), ..no_args() };
    let mut bb = deep(30);
    assert!(!bb.copyBits(&mut mem, &no_args()));
    assert!(!deep(30).copyBits(&mut mem, &BlitArgs { count: 1, ..no_args() }));
    assert!(!deep(30).copyBits(&mut mem, &alpha(256)));
    assert!(!deep(30).copyBits(&mut mem, &alpha(-1)));
    assert_eq!(get(&mem, DEST_AT, 1), [0]);
    assert!(deep(30).copyBits(&mut mem, &alpha(0)));
    assert_eq!(get(&mem, DEST_AT, 1), [0]);
    assert!(deep(30).copyBits(&mut mem, &alpha(128)));
    assert_eq!(get(&mem, DEST_AT, 1), [0x0080_0000]);
    assert!(deep(30).copyBits(&mut mem, &alpha(255)));
    assert_eq!(get(&mem, DEST_AT, 1), [0x00FF_0000]);
}

#[test]
fn component_alpha_takes_a_color_and_tables() {
    let mut bb = BitBlt::new();
    bb.combinationRule = 41;
    assert!(!bb.copyBitsRule41Test(&no_args()));
    assert_eq!((bb.componentAlphaModeColor, bb.componentAlphaModeAlpha), (0xFFFFFF, 0xFF));
    assert!(bb.copyBitsRule41Test(&BlitArgs { count: 1, first: Some(0x123456), ..no_args() }));
    assert_eq!((bb.componentAlphaModeColor, bb.componentAlphaModeAlpha), (0x123456, 0xFF));
    let all = BlitArgs {
        count: 4,
        first: Some(1),
        second: Some(2),
        gamma: Some(TABLE_AT),
        ungamma: Some(TABLE_AT + 256),
    };
    assert!(bb.copyBitsRule41Test(&all));
    assert_eq!((bb.componentAlphaModeColor, bb.componentAlphaModeAlpha), (1, 2));
    assert_eq!((bb.gammaLookupTable, bb.ungammaLookupTable), (TABLE_AT, TABLE_AT + 256));
    assert!(!bb.copyBitsRule41Test(&BlitArgs { count: 2, first: Some(1), ..no_args() }));
    bb.combinationRule = 3;
    assert!(bb.copyBitsRule41Test(&no_args()));
}

#[test]
fn counting_rules_answer_their_count() {
    let mut mem = memory();
    put(&mut mem, SOURCE_AT, &[0xF000_0000, 0, 0, 1]);
    let (mut bb, _) = load(&blit(32));
    assert!(bb.copyBits(&mut mem, &no_args()));
    assert_eq!(bb.copyBitsAnswer(), Some(5));
    assert_eq!(get(&mem, DEST_AT, 4), [0; 4]);
}

// ---- Surfaces -------------------------------------------------------------

fn surface_blit() -> BitBlt {
    let mut o = blit(10);
    o.dest.bits = FormBits::Surface(SurfaceFormat { width: 32, height: 4, depth: 1, msb: 1 });
    o.destX = 8;
    o.width = Some(8);
    let (mut bb, r) = load(&o);
    assert_eq!(r, Ok(()));
    assert!(bb.clipToBlit());
    bb
}

#[test]
fn a_surface_is_resolved_fetched_and_locked() {
    let mut bb = surface_blit();
    let step = bb.lockSurfaces(LockState::Start, LockEvent::Begin);
    assert_eq!(step.action, LockAction::Resolve);
    let step =
        bb.lockSurfaces(step.state, LockEvent::Resolved { query: 1, lock: 2, unlock: 3 });
    assert_eq!(step.action, LockAction::FetchDest);
    let step = bb.lockSurfaces(step.state, LockEvent::Handle { value: 99, failed: false });
    assert_eq!(
        step.action,
        LockAction::Lock {
            handle: 99,
            rect: SurfaceRect { left: 8, top: 0, width: 8, height: 4 },
        }
    );
    let step = bb.lockSurfaces(
        step.state,
        LockEvent::Locked { bits: DEST_AT, pitch: 4, moved: false },
    );
    assert_eq!(step.action, LockAction::Done(true));
    assert!(bb.hasSurfaceLock);
    assert_eq!((bb.destBits, bb.destPitch), (DEST_AT, 4));

    let mut mem = memory();
    assert!(bb.copyBitsLockedAndClipped(&mut mem, &no_args()));
    assert_eq!(get(&mem, DEST_AT, 4), [0x00FF_0000; 4]);

    let gone = bb.unlockDest(Some(99));
    let rect = SurfaceRect { left: 8, top: 0, width: 8, height: 4 };
    assert_eq!(gone, Some(Unlock { handle: 99, rect }));
    assert_eq!(bb.unlockSource(None, Some(99)), None);
    assert_eq!((bb.destBits, bb.destPitch, bb.hasSurfaceLock), (0, 0, false));
}

#[test]
fn a_surface_without_entry_points_cannot_be_locked() {
    let mut bb = surface_blit();
    let step = bb.lockSurfaces(LockState::Start, LockEvent::Begin);
    let step =
        bb.lockSurfaces(step.state, LockEvent::Resolved { query: 1, lock: 0, unlock: 3 });
    assert_eq!((step.action, step.state), (LockAction::Done(false), LockState::Ended));
}

#[test]
fn objects_that_move_while_locking_end_the_blit() {
    let mut bb = surface_blit();
    bb.setEntryPoints(1, 2, 3);
    let step = bb.lockSurfaces(LockState::Start, LockEvent::Begin);
    let step = bb.lockSurfaces(step.state, LockEvent::Handle { value: 99, failed: false });
    let step = bb.lockSurfaces(
        step.state,
        LockEvent::Locked { bits: DEST_AT, pitch: 4, moved: true },
    );
    assert_eq!(step.action, LockAction::GiveUp(PrimErr::ObjectMoved));
}

#[test]
fn addressed_forms_need_no_lock() {
    let (mut bb, _) = load(&blit(3));
    assert!(bb.clipToBlit());
    let step = bb.lockSurfaces(LockState::Start, LockEvent::Begin);
    assert_eq!(step.action, LockAction::Done(true));
    assert!(!bb.hasSurfaceLock);
    assert_eq!((bb.endOfDestination, bb.endOfSource), (DEST_AT + 16, SOURCE_AT + 16));
}

#[test]
fn entry_points_go_with_their_module() {
    let mut bb = BitBlt::new();
    assert!(bb.setEntryPoints(1, 2, 3));
    bb.moduleUnloaded(b"FilePlugin");
    assert_eq!((bb.querySurfaceFn, bb.lockSurfaceFn, bb.unlockSurfaceFn), (1, 2, 3));
    bb.moduleUnloaded(b"SurfacePlugin");
    assert_eq!((bb.querySurfaceFn, bb.lockSurfaceFn, bb.unlockSurfaceFn), (0, 0, 0));
    assert!(!bb.setEntryPoints(1, 2, 0));
}

// ---- Warps ----------------------------------------------------------------

fn corners(w: sqInt, h: sqInt) -> WarpCorners {
    let one = 0x4000;
    WarpCorners {
        p1x: 0,
        p1y: 0,
        p2x: 0,
        p2y: (h - 1) * one,
        p3x: (w - 1) * one,
        p3y: (h - 1) * one,
        p4x: (w - 1) * one,
        p4y: 0,
    }
}

#[test]
fn a_warp_onto_itself_copies() {
    let mut mem = memory();
    put(&mut mem, SOURCE_AT, &[0x0102_0304, 0x0506_0708]);
    let mut o = blit(3);
    o.dest = form(1, 4, 2, 8, bitmap(8, DEST_AT));
    o.source = form(2, 4, 2, 8, bitmap(8, SOURCE_AT));
    o.width = Some(4);
    o.height = Some(2);
    let mut bb = BitBlt::new();
    assert_eq!(bb.loadBitBltFromwarping(&mem, &o, true), Ok(()));
    let args = WarpArgs { count: 0, smoothing: None, map: SourceMap::Nil };
    assert!(bb.warpBits(&mut mem, &Some(corners(4, 2)), &args));
    assert_eq!(get(&mem, DEST_AT, 2), [0x0102_0304, 0x0506_0708]);
}

#[test]
fn a_warp_without_corners_is_refused() {
    let mut mem = memory();
    let mut bb = BitBlt::new();
    assert_eq!(bb.loadBitBltFromwarping(&mem, &blit(3), true), Ok(()));
    let args = WarpArgs { count: 0, smoothing: None, map: SourceMap::Nil };
    assert!(!bb.warpBits(&mut mem, &None, &args));
    assert_eq!(get(&mem, DEST_AT, 4), [0; 4]);
}

#[test]
fn smoothing_takes_a_map_of_any_object_that_is_large_enough() {
    let smoothed = |size: sqInt, smoothing: Option<sqInt>| {
        let mut mem = memory();
        put(&mut mem, SOURCE_AT, &[0x0102_0102, 0x0102_0102]);
        put(&mut mem, TABLE_AT, &[0, 0x0020_4060, 0x0040_6080]);
        let mut o = blit(3);
        o.dest = form(1, 2, 1, 32, bitmap(8, DEST_AT));
        o.source = form(2, 4, 2, 8, bitmap(8, SOURCE_AT));
        o.width = Some(2);
        o.height = Some(1);
        let mut bb = BitBlt::new();
        assert_eq!(bb.loadBitBltFromwarping(&mem, &o, true), Ok(()));
        let map = SourceMap::Slots { size, address: TABLE_AT };
        let args = WarpArgs { count: 2, smoothing, map };
        let ok = bb.warpBits(&mut mem, &Some(corners(4, 1)), &args);
        (ok, get(&mem, DEST_AT, 1)[0])
    };
    let (ok, average) = smoothed(256, Some(2));
    assert!(ok);
    assert_eq!(average & 0x00FF_FFFF, 0x0030_5070);
    assert!(!smoothed(255, Some(2)).0);
    assert!(!smoothed(256, Some(0)).0);
    assert!(!smoothed(256, None).0);
}

// ---- Lines ----------------------------------------------------------------

#[test]
fn a_line_is_drawn_between_its_ends() {
    let mut mem = memory();
    let mut o = blit(10);
    o.width = Some(1);
    o.height = Some(1);
    let (mut bb, _) = load(&o);
    assert!(bb.drawLoopXY(&mut mem, &no_args(), 4, 2));
    assert_eq!((bb.destX, bb.destY), (4, 2));
    assert_eq!(get(&mem, DEST_AT, 4), [0x4000_0000, 0x3000_0000, 0, 0]);
}

#[test]
fn a_steep_line_goes_down_row_by_row() {
    let mut mem = memory();
    let mut o = blit(10);
    o.destX = 5;
    o.width = Some(1);
    o.height = Some(1);
    let (mut bb, _) = load(&o);
    assert!(bb.drawLoopXY(&mut mem, &no_args(), 0, 3));
    assert_eq!((bb.destX, bb.destY), (5, 3));
    assert_eq!(get(&mem, DEST_AT, 4), [0, 0x0400_0000, 0x0400_0000, 0]);
}

#[test]
fn a_line_of_no_length_draws_nothing() {
    let mut mem = memory();
    let (mut bb, _) = load(&blit(10));
    assert!(bb.drawLoopXY(&mut mem, &no_args(), 0, 0));
    assert_eq!(get(&mem, DEST_AT, 4), [0; 4]);
}

#[test]
fn a_refused_blit_ends_the_line() {
    let mut mem = memory();
    let (mut bb, _) = load(&blit(30));
    assert!(!bb.drawLoopXY(&mut mem, &no_args(), 3, 0));
}

// ---- Strings --------------------------------------------------------------

/// Glyph 0 is two pixels wide, glyph 1 one, glyph 2 three.
fn edges() -> Vec<Option<sqInt>> {
    vec![Some(0), Some(2), Some(3), Some(6)]
}

fn glyphs() -> Vec<Option<sqInt>> {
    let mut map = vec![Some(0); 256];
    map[98] = Some(1);
    map[99] = Some(2);
    map[100] = Some(3);
    map[101] = None;
    map
}

fn string_blit() -> (BitBlt, Memory) {
    let mut mem = memory();
    put(&mut mem, SOURCE_AT, &[0b1011_0100 << 24; 4]);
    let mut o = blit(3);
    o.height = Some(1);
    let (bb, r) = load(&o);
    assert_eq!(r, Ok(()));
    (bb, mem)
}

#[test]
fn a_string_is_displayed_glyph_by_glyph() {
    let (mut bb, mut mem) = string_blit();
    let text = b"abca".to_vec();
    let r = bb.displayString(&mut mem, &text, 1, 4, &glyphs(), &edges(), 1, &no_args());
    assert_eq!(r, Ok(()));
    // 10, 1, 101, 10, one pixel apart
    assert_eq!(get(&mem, DEST_AT, 1), [0b1001_0101_0100_0000 << 16]);
    assert_eq!(bb.destX, 12);
    assert_eq!(bb.affectedL, 0);
}

#[test]
fn part_of_a_string_is_displayed() {
    let (mut bb, mut mem) = string_blit();
    let text = b"abca".to_vec();
    let r = bb.displayString(&mut mem, &text, 3, 3, &glyphs(), &edges(), 0, &no_args());
    assert_eq!(r, Ok(()));
    assert_eq!(get(&mem, DEST_AT, 1), [0b1010_0000 << 24]);
}

#[test]
fn indices_outside_the_string_are_refused() {
    let refused = Err(PrimErr::GenericFailure);
    let text = b"ab".to_vec();
    for (start, stop) in [(0, 1), (1, 3), (1, -1)] {
        let (mut bb, mut mem) = string_blit();
        let r = bb.displayString(&mut mem, &text, start, stop, &glyphs(), &edges(), 0, &no_args());
        assert_eq!(r, refused, "{start} to {stop}");
        assert_eq!(get(&mem, DEST_AT, 1), [0]);
    }
    let (mut bb, mut mem) = string_blit();
    let short = vec![Some(0); 255];
    let r = bb.displayString(&mut mem, &text, 1, 2, &short, &edges(), 0, &no_args());
    assert_eq!(r, refused);
    let (mut bb, mut mem) = string_blit();
    let r = bb.displayString(&mut mem, &text, 1, 0, &glyphs(), &edges(), 0, &no_args());
    assert_eq!(r, Ok(()));
    assert_eq!(get(&mem, DEST_AT, 1), [0]);
}

#[test]
fn bytes_without_a_glyph_end_the_string() {
    for last in [100u8, 101] {
        let (mut bb, mut mem) = string_blit();
        let text = vec![97, last, 97];
        let r = bb.displayString(&mut mem, &text, 1, 3, &glyphs(), &edges(), 0, &no_args());
        assert_eq!(r, Err(PrimErr::GenericFailure));
        assert_eq!(get(&mem, DEST_AT, 1), [0b1000_0000 << 24]);
    }
}

#[test]
fn blends_with_a_constant_display_no_strings() {
    let (mut bb, mut mem) = string_blit();
    bb.combinationRule = 30;
    let text = b"a".to_vec();
    let r = bb.displayString(&mut mem, &text, 1, 1, &glyphs(), &edges(), 0, &no_args());
    assert_eq!(r, Err(PrimErr::GenericFailure));
}

// ---- Pixels ---------------------------------------------------------------

#[test]
fn single_pixels_are_read() {
    let mut mem = memory();
    put(&mut mem, DEST_AT, &[0x0102_0304, 0x0506_0708]);
    let at = |x, y| pixelValueAt(&mem, DEST_AT, 8, 4, 2, 8, x, y);
    assert_eq!(at(0, 0), Ok(1));
    assert_eq!(at(3, 0), Ok(4));
    assert_eq!(at(1, 1), Ok(6));
    assert_eq!(at(4, 0), Ok(0));
    assert_eq!(at(0, -1), Ok(0));
    assert_eq!(pixelValueAt(&mem, DEST_AT, 4, 4, 2, 8, 0, 0), Err(PrimErr::GenericFailure));
    assert_eq!(pixelValueAt(&mem, DEST_AT, 8, 4, 2, 33, 0, 0), Err(PrimErr::GenericFailure));
    assert_eq!(pixelValueAt(&mem, DEST_AT, 8, 1, 2, 32, 0, 1), Ok(0x0506_0708));
}

#[test]
fn comparing_colors_always_fails() {
    assert_eq!(compareColors(true, true, true, 0), PrimErr::GenericFailure);
    assert_eq!(compareColors(false, true, true, 0), PrimErr::BadArgument);
    assert_eq!(compareColors(true, false, true, 0), PrimErr::BadArgument);
    assert_eq!(compareColors(true, true, false, 0), PrimErr::BadArgument);
    assert_eq!(compareColors(true, true, true, 9), PrimErr::NoMemory);
}

#[test]
fn failure_numbers_name_their_reasons() {
    for code in 1..=24 {
        assert_eq!(currentFailure(code).code(), code);
    }
    for code in [0, -1, 25] {
        assert_eq!(currentFailure(code), PrimErr::GenericFailure);
    }
}
