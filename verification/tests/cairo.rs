//! The Cairo binding: checks, handles, pins, pixels and the bridge.
use pharo_plugins::cairo::bridge::{
    bridgeContext, cairoPluginBorrowContext_v1, cairoPluginBridgeAbiVersion,
    cairoPluginCairoIdentity_v1, cairoPluginContextStatus_v1, CairoBridgeContextV1, LoadedCairo,
    BRIDGE_ABI, BRIDGE_SIZE, NO_STATUS,
};
use pharo_plugins::cairo::checks::{
    as_c_int, as_c_int_positive, cText, dashCount, dirtyRectangle, enumValue, expectSize, fontFace,
    LINE_CAP_MAX, OPERATOR_MAX, SIX_NUMBERS,
};
use pharo_plugins::cairo::ffi::{
    cairo_pattern_t, cairo_surface_t, cairo_t, check_status, format_bytes_per_pixel, isCairo,
    is_valid_format, EntryPoints, CAIRO_STATUS_NO_MEMORY, CAIRO_STATUS_NULL_POINTER,
    CAIRO_STATUS_SUCCESS,
};
use pharo_plugins::cairo::handles::decode;
use pharo_plugins::cairo::pixels::{bitmapBytes, expectRoom, imageRows, imageSurfaceArgs, Rows};
use pharo_plugins::cairo::resources::{
    adoptable, destroy_context, destroy_pattern, destroy_surface, release_all, retained_pin_count,
    with_context, with_pattern, with_surface, Context, Pattern, Pin, Resources, Surface,
    SURFACE_TAG,
};
use pharo_plugins::prim::PrimErr;

#[test]
fn status_maps_success_apart_from_every_error() {
    assert!(check_status(CAIRO_STATUS_SUCCESS).is_ok());
    assert_eq!(check_status(CAIRO_STATUS_NO_MEMORY), Err(PrimErr::NoCMemory));
    assert_eq!(
        check_status(CAIRO_STATUS_NULL_POINTER),
        Err(PrimErr::BadArgument)
    );
    assert_eq!(check_status(31), Err(PrimErr::OperationFailed));
}

#[test]
fn only_real_formats_are_accepted() {
    assert!(!is_valid_format(-1));
    for f in 0..=4 {
        assert!(is_valid_format(f), "format {f} should be accepted");
    }
    assert!(!is_valid_format(5));
}

#[test]
fn a_bad_format_is_rejected_before_it_reaches_cairo() {
    assert!(!is_valid_format(-1));
    assert!(!is_valid_format(99));
}

#[test]
fn a1_has_no_whole_byte_pixel_size() {
    assert_eq!(format_bytes_per_pixel(0), Some(4));
    assert_eq!(format_bytes_per_pixel(1), Some(4));
    assert_eq!(format_bytes_per_pixel(2), Some(1));
    assert_eq!(format_bytes_per_pixel(3), None);
    assert_eq!(format_bytes_per_pixel(4), Some(2));
    assert_eq!(format_bytes_per_pixel(9), None);
}

fn null_surface() -> Surface {
    Surface { ptr: cairo_surface_t { address: 0 }, backing: None }
}

fn null_context() -> Context {
    Context { ptr: cairo_t { address: 0 } }
}

fn null_pattern() -> Pattern {
    Pattern { ptr: cairo_pattern_t { address: 0 } }
}

#[test]
fn a_handle_from_one_registry_is_refused_by_the_others() {
    let mut all = Resources::new();
    let surface = all.surfaces.insert(null_surface()).expect("a slot");
    let context = all.contexts.insert(null_context()).expect("a slot");
    let pattern = all.patterns.insert(null_pattern()).expect("a slot");

    assert_ne!(surface, context);
    assert_ne!(surface, pattern);
    assert_ne!(context, pattern);

    for (name, wrong) in [("context", context), ("pattern", pattern)] {
        assert_eq!(
            with_surface(&all, wrong),
            Err(PrimErr::BadArgument),
            "a {name} handle must not resolve as a surface"
        );
        assert_eq!(decode(SURFACE_TAG, wrong), Err(PrimErr::BadArgument));
    }
    for (name, wrong) in [("surface", surface), ("pattern", pattern)] {
        assert_eq!(
            with_context(&all, wrong),
            Err(PrimErr::BadArgument),
            "a {name} handle must not resolve as a context"
        );
    }
    for (name, wrong) in [("surface", surface), ("context", context)] {
        assert_eq!(
            with_pattern(&all, wrong),
            Err(PrimErr::BadArgument),
            "a {name} handle must not resolve as a pattern"
        );
    }

    assert!(all.surfaces.is_live(surface));
    assert!(!all.surfaces.is_live(context));
    assert!(!all.surfaces.is_live(pattern));

    assert_eq!(with_surface(&all, surface).unwrap().address, 0);
    assert_eq!(with_context(&all, context).unwrap().address, 0);
    assert_eq!(with_pattern(&all, pattern).unwrap().address, 0);
    assert_eq!(all.live_counts(), [1, 1, 1]);

    destroy_surface(&mut all, surface).expect("still there");
    destroy_context(&mut all, context).expect("still there");
    destroy_pattern(&mut all, pattern).expect("still there");
    assert_eq!(all.live_counts(), [0, 0, 0]);
}

#[test]
fn a_destroyed_handle_is_not_found_rather_than_wrong_kind() {
    let mut all = Resources::new();
    let raw = all.contexts.insert(null_context()).expect("a slot");
    destroy_context(&mut all, raw).expect("still there");

    assert_eq!(with_context(&all, raw), Err(PrimErr::NotFound));
    assert_ne!(with_context(&all, raw), Err(PrimErr::BadArgument));
    assert!(!all.contexts.is_live(raw));
    assert_eq!(destroy_context(&mut all, raw), Err(PrimErr::NotFound));
}

#[test]
fn handles_stay_with_their_objects() {
    let mut all = Resources::new();
    let mut handles = Vec::new();
    for address in 1..=20u64 {
        let context = Context { ptr: cairo_t { address } };
        handles.push(all.contexts.insert(context).unwrap());
    }
    for i in (0..20).step_by(3) {
        let gone = destroy_context(&mut all, handles[i]).unwrap();
        assert_eq!(gone.as_ptr().address, i as u64 + 1);
    }
    let late = all.contexts.insert(Context { ptr: cairo_t { address: 99 } }).unwrap();
    assert!(!handles.contains(&late));
    for i in 0..20 {
        let found = with_context(&all, handles[i]);
        if i % 3 == 0 {
            assert_eq!(found, Err(PrimErr::NotFound));
        } else {
            assert_eq!(found, Ok(cairo_t { address: i as u64 + 1 }));
        }
    }
    assert_eq!(with_context(&all, late), Ok(cairo_t { address: 99 }));
}

#[test]
fn everything_is_released_oldest_first() {
    let mut all = Resources::new();
    for address in 5..8u64 {
        all.surfaces
            .insert(Surface { ptr: cairo_surface_t { address }, backing: Some(address * 10) })
            .unwrap();
    }
    all.contexts.insert(Context { ptr: cairo_t { address: 1 } }).unwrap();
    all.patterns.insert(Pattern { ptr: cairo_pattern_t { address: 2 } }).unwrap();
    let released = release_all(&mut all);
    let addresses: Vec<u64> = released.surfaces.iter().map(|s| s.as_ptr().address).collect();
    assert_eq!(addresses, vec![5, 6, 7]);
    assert_eq!(released.contexts[0].as_ptr().address, 1);
    assert_eq!(released.patterns[0].as_ptr().address, 2);
    assert_eq!(all.live_counts(), [0, 0, 0]);
}

#[test]
fn broken_objects_are_not_taken_in() {
    assert_eq!(adoptable(0, 0), Err(PrimErr::NoCMemory));
    assert_eq!(Surface::adopt(cairo_surface_t { address: 0 }, None, 0), Err(PrimErr::NoCMemory));
    assert_eq!(Context::adopt(cairo_t { address: 8 }, 9), Err(PrimErr::BadArgument));
    assert_eq!(Pattern::adopt(cairo_pattern_t { address: 8 }, 1), Err(PrimErr::NoCMemory));
    assert_eq!(Context::adopt(cairo_t { address: 8 }, 2), Err(PrimErr::OperationFailed));
    assert_eq!(
        Surface::adopt(cairo_surface_t { address: 8 }, Some(3), 0).map(|s| s.as_ptr().address),
        Ok(8)
    );
}

#[test]
fn a_pin_is_kept_while_something_may_still_draw() {
    let backed = Surface { ptr: cairo_surface_t { address: 8 }, backing: Some(0x1234) };
    assert_eq!(backed.release(Some(1), true), Pin::Unpin(0x1234));
    assert_eq!(backed.release(Some(2), true), Pin::Retain(0x1234));
    assert_eq!(backed.release(None, true), Pin::Retain(0x1234));
    assert_eq!(backed.release(Some(1), false), Pin::Retain(0x1234));
    assert_eq!(null_surface().release(Some(2), true), Pin::Nothing);

    let mut all = Resources::new();
    assert_eq!(retained_pin_count(&all), 0);
    all.retain(0x1234);
    assert_eq!(retained_pin_count(&all), 1);
}

#[test]
fn integers_are_narrowed_or_refused() {
    assert_eq!(as_c_int(-5), Ok(-5));
    assert_eq!(as_c_int(0x7FFF_FFFF), Ok(i32::MAX));
    assert_eq!(as_c_int(0x8000_0000), Err(PrimErr::BadArgument));
    assert_eq!(as_c_int_positive(0), Ok(0));
    assert_eq!(as_c_int_positive(-1), Err(PrimErr::BadArgument));
    assert_eq!(enumValue(2, LINE_CAP_MAX), Ok(2));
    assert_eq!(enumValue(3, LINE_CAP_MAX), Err(PrimErr::BadArgument));
    assert_eq!(enumValue(28, OPERATOR_MAX), Ok(28));
    assert_eq!(enumValue(-1, OPERATOR_MAX), Err(PrimErr::BadArgument));
    assert_eq!(fontFace(2, 1), Ok((2, 1)));
    assert_eq!(fontFace(3, 1), Err(PrimErr::BadArgument));
    assert_eq!(fontFace(0, 2), Err(PrimErr::BadArgument));
    assert_eq!(dirtyRectangle(-1, -2, 3, 4), Ok((-1, -2, 3, 4)));
    assert_eq!(dirtyRectangle(0, 0, -1, 4), Err(PrimErr::BadArgument));
}

#[test]
fn texts_and_sizes_are_checked() {
    assert_eq!(cText(b"abc".to_vec()), Ok(b"abc\0".to_vec()));
    assert_eq!(cText(b"a\0c".to_vec()), Err(PrimErr::BadArgument));
    assert_eq!(expectSize(48, SIX_NUMBERS), Ok(()));
    assert_eq!(expectSize(47, SIX_NUMBERS), Err(PrimErr::BadArgument));
    assert_eq!(dashCount(24), Ok(3));
    assert_eq!(dashCount(0), Ok(0));
    assert_eq!(dashCount(20), Err(PrimErr::BadArgument));
}

#[test]
fn surfaces_need_a_format_and_a_size() {
    assert_eq!(imageSurfaceArgs(0, 7, 9), Ok((0, 7, 9)));
    assert_eq!(imageSurfaceArgs(5, 7, 9), Err(PrimErr::BadArgument));
    assert_eq!(imageSurfaceArgs(0, -7, 9), Err(PrimErr::BadArgument));
    assert_eq!(bitmapBytes(9, 28, 28), Ok(252));
    assert_eq!(bitmapBytes(9, 24, 28), Err(PrimErr::BadArgument));
    assert_eq!(bitmapBytes(9, 24, -1), Err(PrimErr::BadArgument));
    assert_eq!(expectRoom(252, 252), Ok(()));
    assert_eq!(expectRoom(251, 252), Err(PrimErr::BadIndex));
}

#[test]
fn rows_describe_themselves() {
    assert_eq!(imageRows(2, true, 8, 5, 3), Ok(Rows { stride: 8, row: 5, height: 3 }));
    assert_eq!(imageRows(3, true, 8, 5, 3), Err(PrimErr::Unsupported));
    assert_eq!(imageRows(2, false, 8, 5, 3), Err(PrimErr::Inappropriate));
    assert_eq!(imageRows(2, true, -8, 5, 3), Err(PrimErr::OperationFailed));
}

#[test]
fn pixels_come_back_as_they_were_written() {
    let rows = imageRows(2, true, 4, 3, 2).unwrap();
    assert_eq!(rows.needed(), 6);
    let mut surface = vec![9u8; 8];
    rows.unpack(&mut surface, &[1, 2, 3, 4, 5, 6]);
    assert_eq!(surface, vec![1, 2, 3, 9, 4, 5, 6, 9]);
    assert_eq!(rows.pack(&surface), vec![1, 2, 3, 4, 5, 6]);
}

#[test]
fn entry_points_are_found_or_missing() {
    let entries = EntryPoints { found: vec![true, false, true, false] };
    assert_eq!(entries.declared_count(), 4);
    assert_eq!(entries.resolved_count(), 2);
    assert_eq!(entries.missing_entry_points(), vec![1, 3]);
    assert!(isCairo(true, true));
    assert!(!isCairo(true, false));
    assert!(!isCairo(false, true));
}

const CAIRO: Option<LoadedCairo> = Some(LoadedCairo { create: Some(0x5000), status: true });

#[test]
fn the_bridge_abi_version_is_the_one_consumers_were_written_against() {
    assert_eq!(cairoPluginBridgeAbiVersion(), 1);
    assert_eq!(BRIDGE_ABI, 1);
}

#[test]
fn the_bridge_struct_is_the_size_the_wire_format_promises() {
    assert_eq!(core::mem::size_of::<CairoBridgeContextV1>(), 32);
    assert_eq!(core::mem::align_of::<CairoBridgeContextV1>(), 8);
}

#[test]
fn borrowing_a_bogus_handle_answers_zero_without_touching_the_struct() {
    let all = Resources::new();
    let answer = cairoPluginBorrowContext_v1(&all, &CAIRO, 0, true, BRIDGE_SIZE);
    assert_eq!(answer, None, "a dead handle must not be lent out");
}

#[test]
fn a_wrong_struct_size_is_refused_rather_than_written_through() {
    let mut all = Resources::new();
    let handle = all.contexts.insert(Context { ptr: cairo_t { address: 7 } }).unwrap();
    assert_eq!(cairoPluginBorrowContext_v1(&all, &CAIRO, handle, true, 8), None);
}

#[test]
fn a_null_out_pointer_is_refused() {
    let mut all = Resources::new();
    let handle = all.contexts.insert(Context { ptr: cairo_t { address: 7 } }).unwrap();
    assert_eq!(cairoPluginBorrowContext_v1(&all, &CAIRO, handle, false, 32), None);
}

#[test]
fn the_status_of_a_dead_handle_is_minus_one() {
    let all = Resources::new();
    assert_eq!(cairoPluginContextStatus_v1(&all, &CAIRO, 0), None);
    assert_eq!(NO_STATUS, -1);
}

#[test]
fn the_cairo_identity_is_published_whenever_cairo_loaded() {
    assert_eq!(cairoPluginCairoIdentity_v1(&CAIRO), 0x5000);
    assert_eq!(cairoPluginCairoIdentity_v1(&None), 0);
    assert_eq!(
        cairoPluginCairoIdentity_v1(&Some(LoadedCairo { create: None, status: true })),
        0
    );
}

#[test]
fn a_live_context_is_lent_and_a_destroyed_one_is_not() {
    let mut all = Resources::new();
    let handle = all.contexts.insert(Context { ptr: cairo_t { address: 7 } }).unwrap();
    let (cr, identity) =
        cairoPluginBorrowContext_v1(&all, &CAIRO, handle, true, BRIDGE_SIZE).unwrap();
    assert_eq!(
        bridgeContext(cr, identity, 11),
        CairoBridgeContextV1 {
            size: 32,
            abi: 1,
            cr: 7,
            cairo_identity: 0x5000,
            status: 11,
            reserved: 0,
        }
    );
    assert_eq!(cairoPluginContextStatus_v1(&all, &CAIRO, handle), Some(cairo_t { address: 7 }));
    assert_eq!(cairoPluginBorrowContext_v1(&all, &None, handle, true, BRIDGE_SIZE), None);
    destroy_context(&mut all, handle).unwrap();
    assert_eq!(cairoPluginBorrowContext_v1(&all, &CAIRO, handle, true, BRIDGE_SIZE), None);
}
