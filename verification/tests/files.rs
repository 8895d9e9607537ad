//! File attributes: statuses, conversions, paths, sessions and attribute values.
use pharo_plugins::files::attributes::{
    accessTests, attributeAnswer, attributePlan, attributeQuery, entryAttributes, existenceTest,
    imageName, imageNameAs, nameStatus, statArray, wantsTarget, AttrFail, AttributeAnswer,
    AttributeFacts, AttributePlan, AttributeQuery, EntryAttributes, VERSION,
};
use pharo_plugins::files::codes::{
    FA_BAD_SESSION_ID, FA_CANT_ALLOCATE_MEMORY, FA_CANT_OPEN_DIR, FA_CANT_READ_DIR,
    FA_CANT_READ_LINK, FA_CANT_STAT_PATH, FA_CORRUPT_VALUE, FA_GET_ATTRIBUTES_FAILED,
    FA_INTERPRETER_ERROR, FA_INVALID_ARGUMENTS, FA_INVALID_REQUEST, FA_NO_MORE_DATA,
    FA_STAT_FAILED, FA_STRING_TOO_LONG, FA_SUCCESS, FA_TIME_CONVERSION_FAILED,
    FA_UNABLE_TO_CLOSE_DIR, FA_UNEXPECTED_ERROR, FA_UNSUPPORTED_OPERATION,
};
use pharo_plugins::files::convert::{bufferSize, convert_utf8_lossy, filled, Converters};
use pharo_plugins::files::dir::{
    decode_handle, encode_handle, validated_session_key, DirSession, HandleError, ReadEvent,
    ReadOutcome, Registry, HANDLE_BYTES, SESSION_ID,
};
use pharo_plugins::files::fapath::{primitivePathMax, FaPath};
use pharo_plugins::files::stat::{
    file_mask_values, single_attribute_value, size_value, squeak_time, stat_attribute_values,
    AttrValue, FileStat, ZoneOffsets, SQUEAK_EPOCH_OFFSET,
};
use pharo_plugins::prim::PrimErr;

const FA_PATH_MAX: usize = libc::PATH_MAX as usize;

#[test]
fn codes_match_fa_constants_h() {
    assert_eq!(FA_SUCCESS, 0);
    assert_eq!(FA_STRING_TOO_LONG, -1);
    assert_eq!(FA_STAT_FAILED, -2);
    assert_eq!(FA_CANT_STAT_PATH, -3);
    assert_eq!(FA_GET_ATTRIBUTES_FAILED, -4);
    assert_eq!(FA_TIME_CONVERSION_FAILED, -5);
    assert_eq!(FA_INVALID_ARGUMENTS, -6);
    assert_eq!(FA_CORRUPT_VALUE, -7);
    assert_eq!(FA_CANT_READ_LINK, -8);
    assert_eq!(FA_CANT_OPEN_DIR, -9);
    assert_eq!(FA_CANT_ALLOCATE_MEMORY, -10);
    assert_eq!(FA_INVALID_REQUEST, -11);
    assert_eq!(FA_UNABLE_TO_CLOSE_DIR, -12);
    assert_eq!(FA_UNSUPPORTED_OPERATION, -13);
    assert_eq!(FA_UNEXPECTED_ERROR, -14);
    assert_eq!(FA_INTERPRETER_ERROR, -15);
    assert_eq!(FA_CANT_READ_DIR, -16);
    assert_eq!(FA_BAD_SESSION_ID, -17);
    assert_eq!(FA_NO_MORE_DATA, 1);
}

fn conv(input: &[u8]) -> Vec<u8> {
    convert_utf8_lossy(input, 4096)
}

#[test]
fn ascii_is_identity() {
    assert_eq!(conv(b"/etc/passwd"), b"/etc/passwd");
}

#[test]
fn multibyte_is_identity() {
    let s = "caf\u{e9}/\u{1F600}/\u{20AC}".as_bytes();
    assert_eq!(conv(s), s);
}

#[test]
fn empty_converts_to_empty() {
    assert_eq!(conv(b""), b"");
}

#[test]
fn invalid_lead_swallows_following_byte() {
    assert_eq!(conv(&[0xC3, 0x28, b'A']), b"?A");
}

#[test]
fn three_byte_lead_swallows_two_more() {
    assert_eq!(conv(&[0xE2, 0x82, 0x41, 0x42]), b"?B");
}

#[test]
fn fe_and_ff_skip_one_byte() {
    assert_eq!(conv(&[0xFF, b'a']), b"?a");
    assert_eq!(conv(&[0xFE]), b"?");
}

#[test]
fn bare_continuation_byte_skips_one() {
    assert_eq!(conv(&[0x80, b'x']), b"?x");
}

#[test]
fn truncated_sequence_at_end_is_one_replacement() {
    assert_eq!(conv(&[b'a', 0xE2, 0x82]), b"a?");
}

#[test]
fn overlong_encoding_is_replaced() {
    assert_eq!(conv(&[0xC0, 0xAF, b'z']), b"?z");
}

#[test]
fn surrogate_is_replaced() {
    assert_eq!(conv(&[0xED, 0xA0, 0x80, b'k']), b"?k");
}

#[test]
fn full_buffer_stops_silently() {
    assert_eq!(convert_utf8_lossy(b"abcd", 3), b"abc");
    assert_eq!(convert_utf8_lossy("ab\u{20AC}".as_bytes(), 3), b"ab");
}

#[test]
fn invalid_at_full_buffer_emits_nothing() {
    assert_eq!(convert_utf8_lossy(&[b'a', 0xFF, b'b'], 1), b"a");
}

fn fallback() -> Converters {
    Converters::default()
}

#[test]
fn st_dir_appends_separator() {
    let mut fa = FaPath::new();
    fa.set_st_dir(b"/tmp/x", &fallback()).unwrap();
    assert_eq!(fa.st_path(), b"/tmp/x/");
    assert_eq!(fa.plat_path(), b"/tmp/x/");
    assert_eq!(fa.st_file(), b"");
}

#[test]
fn st_dir_keeps_existing_separator() {
    let mut fa = FaPath::new();
    fa.set_st_dir(b"/tmp/x/", &fallback()).unwrap();
    assert_eq!(fa.st_path(), b"/tmp/x/");
}

#[test]
fn empty_dir_becomes_separator() {
    let mut fa = FaPath::new();
    fa.set_st_dir(b"", &fallback()).unwrap();
    assert_eq!(fa.st_path(), b"/");
}

#[test]
fn st_dir_length_limit_matches_c() {
    let mut fa = FaPath::new();
    assert_eq!(
        fa.set_st_dir(&vec![b'a'; FA_PATH_MAX - 1], &fallback()),
        Err(FA_STRING_TOO_LONG)
    );
    assert!(fa.set_st_dir(&vec![b'a'; FA_PATH_MAX - 3], &fallback()).is_ok());
}

#[test]
fn st_path_length_limit_matches_c() {
    let mut fa = FaPath::new();
    assert_eq!(
        fa.set_st_path(&vec![b'a'; FA_PATH_MAX], &fallback()),
        Err(FA_STRING_TOO_LONG)
    );
    assert!(fa.set_st_path(&vec![b'a'; FA_PATH_MAX - 1], &fallback()).is_ok());
}

#[test]
fn empty_st_path_is_rejected() {
    let mut fa = FaPath::new();
    assert_eq!(fa.set_st_path(b"", &fallback()), Err(FA_STRING_TOO_LONG));
}

#[test]
fn plat_file_composes_both_forms() {
    let mut fa = FaPath::new();
    fa.set_st_dir(b"/tmp", &fallback()).unwrap();
    fa.set_plat_file(b"data.txt", &fallback()).unwrap();
    assert_eq!(fa.st_path(), b"/tmp/data.txt");
    assert_eq!(fa.plat_path(), b"/tmp/data.txt");
    assert_eq!(fa.st_file(), b"data.txt");
    fa.set_plat_file(b"b", &fallback()).unwrap();
    assert_eq!(fa.st_path(), b"/tmp/b");
    assert_eq!(fa.st_file(), b"b");
}

#[test]
fn plat_file_length_limit_matches_c() {
    let mut fa = FaPath::new();
    fa.set_st_dir(b"/tmp", &fallback()).unwrap();
    let room = FA_PATH_MAX - 5;
    assert_eq!(
        fa.set_plat_file(&vec![b'f'; room], &fallback()),
        Err(FA_STRING_TOO_LONG)
    );
    assert!(fa.set_plat_file(&vec![b'f'; room - 1], &fallback()).is_ok());
}

#[test]
fn plat_path_roundtrips_to_st() {
    let mut fa = FaPath::new();
    fa.set_plat_path("/tmp/caf\u{e9}".as_bytes(), &fallback()).unwrap();
    assert_eq!(fa.st_path(), "/tmp/caf\u{e9}".as_bytes());
}

#[test]
fn cstring_truncates_at_embedded_nul() {
    let mut fa = FaPath::new();
    fa.set_plat_path(b"/tmp/a\0b", &fallback()).unwrap();
    assert_eq!(fa.plat_cstring(), b"/tmp/a");
    assert_eq!(fa.st_path(), b"/tmp/a");
}

#[test]
fn handle_layout_matches_the_c_struct() {
    if usize::BITS == 64 {
        assert_eq!(HANDLE_BYTES, 16);
    } else {
        assert_eq!(HANDLE_BYTES, 8);
    }
    assert_eq!(std::mem::size_of::<i32>(), 4);
}

#[test]
fn handle_roundtrip() {
    let bytes = encode_handle(0x1234_5678);
    assert_eq!(decode_handle(&bytes), Some((SESSION_ID, 0x1234_5678)));
    assert_eq!(decode_handle(&bytes[1..]), None);
    assert_eq!(decode_handle(&[]), None);
}

#[test]
fn a_handle_holds_the_key_after_the_session() {
    let bytes = encode_handle(0x1234_5678);
    let offset = HANDLE_BYTES / 2;
    assert_eq!(bytes[..offset], vec![0u8; offset]);
    assert_eq!(bytes[offset..offset + 4], [0x78, 0x56, 0x34, 0x12]);
    assert_eq!(bytes[offset + 4..], vec![0u8; offset - 4]);
}

#[test]
fn a_handle_of_another_session_is_refused() {
    let mut bytes = encode_handle(usize::MAX - 0xABCD);
    assert_eq!(bytes.len(), HANDLE_BYTES);
    assert_eq!(validated_session_key(&bytes), Ok(usize::MAX - 0xABCD));
    bytes[0] ^= 1;
    assert_eq!(validated_session_key(&bytes), Err(HandleError::BadSession));
    assert_eq!(validated_session_key(&bytes[..HANDLE_BYTES - 1]), Err(HandleError::BadArgument));
    assert_eq!(HandleError::BadSession.failure(), (PrimErr::OSError, FA_BAD_SESSION_ID));
    assert_eq!(HandleError::BadArgument.failure(), (PrimErr::BadArgument, 0));
}

fn open_over(first: ReadEvent) -> Result<Option<DirSession>, i64> {
    let conv = Converters::default();
    let mut fa = FaPath::new();
    fa.set_st_dir(b"/tmp/x", &conv).unwrap();
    DirSession::open(fa, true, first, &conv)
}

fn entry(name: &[u8]) -> ReadEvent {
    ReadEvent::Name(name.to_vec())
}

#[test]
fn empty_directory_answers_none() {
    assert!(open_over(ReadEvent::End).unwrap().is_none());
}

#[test]
fn missing_directory_is_cant_open() {
    let conv = Converters::default();
    let mut fa = FaPath::new();
    fa.set_st_dir(b"/nope", &conv).unwrap();
    assert_eq!(
        DirSession::open(fa, false, ReadEvent::End, &conv).err(),
        Some(FA_CANT_OPEN_DIR)
    );
}

#[test]
fn a_walk_names_every_entry_in_both_forms() {
    let conv = Converters::default();
    let mut session = open_over(entry(b"a.txt")).unwrap().unwrap();
    assert_eq!(session.fa.st_file(), b"a.txt");
    assert_eq!(session.read(entry(b"b.txt"), &conv), Ok(ReadOutcome::Entry));
    assert_eq!(session.fa.st_file(), b"b.txt");
    assert_eq!(session.fa.plat_path(), b"/tmp/x/b.txt");
    assert_eq!(session.read(ReadEvent::End, &conv), Ok(ReadOutcome::NoMoreData));
    assert_eq!(session.fa.st_file(), b"b.txt");
    assert_eq!(session.read(ReadEvent::Failed, &conv), Err(FA_CANT_READ_DIR));
    session.close().unwrap();
}

#[test]
fn rewind_restarts_the_walk() {
    let conv = Converters::default();
    let mut session = open_over(entry(b"only")).unwrap().unwrap();
    assert_eq!(session.fa.st_file(), b"only");
    assert_eq!(session.read(ReadEvent::End, &conv).unwrap(), ReadOutcome::NoMoreData);
    assert_eq!(session.rewind(true, entry(b"only"), &conv).unwrap(), ReadOutcome::Entry);
    assert_eq!(session.fa.st_file(), b"only");
    assert_eq!(session.rewind(false, ReadEvent::End, &conv), Err(FA_CANT_READ_DIR));
    session.close().unwrap();
}

#[test]
fn close_twice_is_corrupt_value() {
    let conv = Converters::default();
    let mut session = open_over(entry(b"f")).unwrap().unwrap();
    session.close().unwrap();
    assert_eq!(session.close().unwrap_err(), FA_CORRUPT_VALUE);
    assert_eq!(session.read(ReadEvent::End, &conv), Err(FA_CORRUPT_VALUE));
}

#[test]
fn an_entry_can_be_named_by_another_conversion() {
    let mut session = open_over(entry(b"f")).unwrap().unwrap();
    assert_eq!(
        session.readAs(entry(&[0xE9]), "\u{e9}".as_bytes().to_vec()),
        Ok(ReadOutcome::Entry)
    );
    assert_eq!(session.fa.st_file(), "\u{e9}".as_bytes());
    assert_eq!(session.fa.plat_path(), b"/tmp/x/\xE9");
}

#[test]
fn registry_register_take_take() {
    let session = open_over(entry(b"f")).unwrap().unwrap();
    let mut registry: Registry<DirSession> = Registry::new();
    let key = registry.register(session);
    assert!(registry.take(key).is_some());
    assert!(registry.take(key).is_none(), "a closed handle no longer resolves");
}

#[test]
fn registry_keys_are_not_used_again() {
    let mut registry: Registry<u8> = Registry::new();
    let first = registry.register(1);
    let second = registry.register(2);
    assert_eq!(registry.take(first), Some(1));
    let third = registry.register(3);
    assert_ne!(third, first);
    assert_ne!(third, second);
    assert_eq!(registry.take(second), Some(2));
    assert_eq!(registry.take(third), Some(3));
}

#[test]
fn epoch_offset_is_the_known_constant() {
    assert_eq!(SQUEAK_EPOCH_OFFSET, 2_177_452_800);
}

#[test]
fn squeak_time_formula() {
    for &t in &[0i64, 1_000_000_000, 1_700_000_000] {
        for &off in &[0i64, 3_600, -18_000] {
            assert_eq!(squeak_time(t, off), t + off + SQUEAK_EPOCH_OFFSET);
        }
    }
    assert_eq!(squeak_time(1_000_000_000, 7_200), 3_177_460_000);
}

fn some_stat() -> FileStat {
    FileStat {
        mode: 0o100_644,
        ino: 0x1_0000_0001,
        dev: 42,
        nlink: 0x1_0000_0003,
        uid: 501,
        gid: 20,
        size: 3,
        atime: 10,
        mtime: 20,
        ctime: 30,
    }
}

const ZONE: ZoneOffsets = ZoneOffsets { atime: 1, mtime: 2, ctime: 3 };

#[test]
fn directory_size_is_reported_as_zero() {
    let mut fs = some_stat();
    fs.mode = 0o040_755;
    assert!(fs.is_dir());
    assert_eq!(size_value(&fs), AttrValue::P32(0));
    assert_eq!(single_attribute_value(&fs, &ZONE, 8), AttrValue::P32(0));
}

#[test]
fn file_masks_are_the_s_if_constants() {
    assert_eq!(
        file_mask_values(),
        [
            0o170_000, 0o140_000, 0o120_000, 0o100_000, 0o060_000, 0o040_000, 0o020_000,
            0o010_000,
        ]
    );
}

#[test]
fn attribute_value_table_shape() {
    let fs = some_stat();
    let values = stat_attribute_values(&fs, &ZONE);
    assert_eq!(values[0], AttrValue::P32(fs.mode));
    assert_eq!(values[1], AttrValue::P64(fs.ino));
    assert_eq!(values[2], AttrValue::P64(fs.dev));
    assert_eq!(values[3], AttrValue::P32(fs.nlink as u32));
    assert_eq!(values[4], AttrValue::P32(fs.uid));
    assert_eq!(values[5], AttrValue::P32(fs.gid));
    assert_eq!(values[6], AttrValue::P64(3));
    assert_eq!(values[7], AttrValue::S64(squeak_time(fs.atime, 1)));
    assert_eq!(values[8], AttrValue::S64(squeak_time(fs.mtime, 2)));
    assert_eq!(values[9], AttrValue::S64(squeak_time(fs.ctime, 3)));
    assert_eq!(values[10], AttrValue::Nil);
    assert_eq!(values[11], AttrValue::Nil);

    assert_eq!(single_attribute_value(&fs, &ZONE, 1), AttrValue::Nil);
    assert_eq!(single_attribute_value(&fs, &ZONE, 5), AttrValue::P64(fs.nlink));
    assert_eq!(single_attribute_value(&fs, &ZONE, 8), AttrValue::P64(3));
    assert_eq!(single_attribute_value(&fs, &ZONE, 12), AttrValue::Nil);
    assert_eq!(values[3], AttrValue::P32(3));
}

#[test]
fn a_time_that_is_not_asked_for_does_not_matter() {
    let fs = FileStat {
        mode: 0o100644,
        ino: 7,
        dev: 8,
        nlink: 3,
        uid: 9,
        gid: 10,
        size: 3,
        atime: i64::MAX,
        mtime: 0,
        ctime: i64::MIN,
    };
    assert_eq!(single_attribute_value(&fs, &ZONE, 2), AttrValue::P32(0o100644));
    assert_eq!(single_attribute_value(&fs, &ZONE, 8), AttrValue::P64(3));
    let mtime = SQUEAK_EPOCH_OFFSET + 2;
    assert_eq!(single_attribute_value(&fs, &ZONE, 10), AttrValue::S64(mtime));
}

#[test]
fn the_longest_path_is_the_platforms() {
    assert_eq!(primitivePathMax(), libc::PATH_MAX as usize);
    assert_eq!(FaPath::new().pathLimit(), FA_PATH_MAX);
    assert_eq!(FaPath::default().pathLimit(), FA_PATH_MAX);
}

#[test]
fn a_path_is_held_to_the_limit_of_its_record() {
    let conv = Converters::default();
    let mut fa = FaPath::withLimit(1024);
    assert_eq!(fa.pathLimit(), 1024);
    assert_eq!(fa.set_st_path(&vec![b'a'; 2000], &conv), Err(FA_STRING_TOO_LONG));
    assert_eq!(fa.set_plat_path(&vec![b'a'; 1024], &conv), Err(FA_STRING_TOO_LONG));
    assert_eq!(fa.st_path(), b"");
    assert_eq!(fa.set_st_path(&vec![b'a'; 1023], &conv), Ok(()));
    assert_eq!(fa.plat_path(), vec![b'a'; 1023]);
    assert_eq!(fa.set_st_dir(&vec![b'a'; 1023], &conv), Err(FA_STRING_TOO_LONG));
    assert_eq!(fa.set_st_dir(b"/tmp", &conv), Ok(()));
    assert_eq!(fa.fileRoom(), 1019);
    assert_eq!(fa.set_plat_file(&vec![b'f'; 1019], &conv), Err(FA_STRING_TOO_LONG));
    assert_eq!(fa.set_plat_file(&vec![b'f'; 1018], &conv), Ok(()));
    assert_eq!(fa.plat_path().len(), 1023);
}

#[test]
fn a_copy_of_a_path_goes_its_own_way() {
    let conv = Converters::default();
    let mut fa = FaPath::withLimit(512);
    fa.set_st_dir(b"/tmp", &conv).unwrap();
    let copy = fa.clone();
    fa.set_plat_file(b"f", &conv).unwrap();
    assert_eq!(fa.st_path(), b"/tmp/f");
    assert_eq!(copy.st_path(), b"/tmp/");
    assert_eq!(copy.plat_path(), b"/tmp/");
    assert_eq!(copy.pathLimit(), 512);
}

#[test]
fn names_are_limited_by_the_longest_path() {
    let limit = FA_PATH_MAX;
    assert_eq!(nameStatus(limit - 1, limit), Ok(()));
    assert_eq!(nameStatus(limit, limit), Err(FA_STRING_TOO_LONG));
    assert_eq!(nameStatus(1024, 1024), Err(FA_STRING_TOO_LONG));

    let conv = Converters::default();
    assert_eq!(imageName(b"caf\xC3\xA9", &conv, limit), Ok("caf\u{e9}".as_bytes().to_vec()));
    assert_eq!(imageName(b"", &conv, limit), Err(FA_INVALID_ARGUMENTS));
    assert_eq!(imageName(&vec![b'a'; limit], &conv, limit), Err(FA_STRING_TOO_LONG));
    assert_eq!(imageNameAs(b"a", vec![b'b'; limit], limit), Err(FA_STRING_TOO_LONG));
    assert_eq!(imageNameAs(b"a", b"b".to_vec(), limit), Ok(b"b".to_vec()));
}

#[test]
fn attribute_numbers_say_what_to_ask_for() {
    assert_eq!(attributeQuery(0), Err(PrimErr::BadArgument));
    assert_eq!(attributeQuery(1), Ok(AttributeQuery::Stat));
    assert_eq!(attributeQuery(12), Ok(AttributeQuery::Stat));
    assert_eq!(attributeQuery(13), Ok(AttributeQuery::Access(libc::R_OK)));
    assert_eq!(attributeQuery(14), Ok(AttributeQuery::Access(libc::W_OK)));
    assert_eq!(attributeQuery(15), Ok(AttributeQuery::Access(libc::X_OK)));
    assert_eq!(attributeQuery(16), Ok(AttributeQuery::Link));
    assert_eq!(attributeQuery(17), Err(PrimErr::BadArgument));
    assert_eq!(accessTests(), [libc::R_OK, libc::W_OK, libc::X_OK]);
    assert_eq!(existenceTest(), libc::F_OK);
}

#[test]
fn attributes_are_answered_from_what_came_back() {
    let fs = some_stat();
    let mut link = some_stat();
    link.mode = 0o120_777;
    assert_eq!(
        attributeAnswer(6, &AttributeFacts::Stat(Ok(fs)), &ZONE),
        Ok(AttributeAnswer::Value(AttrValue::P32(501)))
    );
    assert_eq!(
        attributeAnswer(6, &AttributeFacts::Stat(Err(FA_CANT_STAT_PATH)), &ZONE),
        Err(FA_CANT_STAT_PATH)
    );
    assert_eq!(
        attributeAnswer(13, &AttributeFacts::Access(true), &ZONE),
        Ok(AttributeAnswer::Truth(true))
    );
    assert_eq!(
        attributeAnswer(16, &AttributeFacts::Link(Ok(fs)), &ZONE),
        Ok(AttributeAnswer::Truth(false))
    );
    assert_eq!(
        attributeAnswer(16, &AttributeFacts::Link(Ok(link)), &ZONE),
        Ok(AttributeAnswer::Truth(true))
    );
    assert_eq!(
        attributeAnswer(16, &AttributeFacts::Link(Err(FA_CANT_STAT_PATH)), &ZONE),
        Err(FA_CANT_STAT_PATH)
    );
}

#[test]
fn a_mask_has_to_ask_for_something() {
    assert_eq!(attributePlan(0), Err(FA_INVALID_ARGUMENTS));
    assert_eq!(attributePlan(4), Err(FA_INVALID_ARGUMENTS));
    assert_eq!(
        attributePlan(1),
        Ok(AttributePlan { stats: true, access: false, lstat: false })
    );
    assert_eq!(
        attributePlan(6),
        Ok(AttributePlan { stats: false, access: true, lstat: true })
    );
    assert_eq!(attributePlan(7), Ok(AttributePlan { stats: true, access: true, lstat: true }));
}

#[test]
fn the_attribute_array_leads_with_the_target() {
    let mut fs = some_stat();
    fs.mode = 0o120_777;
    assert!(wantsTarget(true, &fs));
    assert!(!wantsTarget(false, &fs));
    assert!(!wantsTarget(true, &some_stat()));

    let array = statArray(&Ok(fs), Some((b"there".to_vec(), b"There".to_vec())), &ZONE, FA_PATH_MAX).unwrap();
    assert_eq!(array.target, Some(b"There".to_vec()));
    assert_eq!(array.values, stat_attribute_values(&fs, &ZONE));
    assert_eq!(statArray(&Ok(fs), None, &ZONE, FA_PATH_MAX).unwrap().target, None);
    assert_eq!(
        statArray(&Ok(fs), Some((b"x".to_vec(), vec![])), &ZONE, FA_PATH_MAX).err(),
        Some(AttrFail::Platform(FA_INVALID_ARGUMENTS))
    );
    assert_eq!(
        statArray(&Err(FA_CANT_STAT_PATH), None, &ZONE, FA_PATH_MAX).err(),
        Some(AttrFail::Status(FA_CANT_STAT_PATH))
    );
}

#[test]
fn an_entry_without_attributes_is_still_an_entry() {
    assert_eq!(entryAttributes(AttrFail::Status(FA_CANT_STAT_PATH)), EntryAttributes::Nil);
    assert_eq!(
        entryAttributes(AttrFail::Status(FA_INVALID_ARGUMENTS)),
        EntryAttributes::Fail(FA_INVALID_ARGUMENTS)
    );
    assert_eq!(
        entryAttributes(AttrFail::Platform(FA_CANT_STAT_PATH)),
        EntryAttributes::Fail(FA_CANT_STAT_PATH)
    );
}

#[test]
fn the_version_is_in_ascii() {
    assert_eq!(&VERSION, b"2.0.8");
}

#[test]
fn converting_twice_changes_nothing_more() {
    let once = conv(&[b'a', 0xFF, 0xC3, 0x28, b'z']);
    assert_eq!(once, b"a??z");
    assert_eq!(conv(&once), once);
    let other = fallback();
    assert_eq!(other.to_platform(b"abcd", 4), b"abc");
    assert_eq!(other.to_smalltalk(b"abcd", 0), b"");
}

#[test]
fn conversions_made_elsewhere_are_taken_as_they_are() {
    let mut fa = FaPath::new();
    assert_eq!(fa.setStDirAs(b"/d", b"/D/".to_vec()), Ok(()));
    assert_eq!(fa.st_path(), b"/d/");
    assert_eq!(fa.plat_path(), b"/D/");
    assert_eq!(fa.setPlatFileAs(b"F", b"f".to_vec()), Ok(()));
    assert_eq!(fa.st_path(), b"/d/f");
    assert_eq!(fa.plat_path(), b"/D/F");
    assert_eq!(fa.fileRoom(), FA_PATH_MAX - 3);
    assert_eq!(fa.setStPathAs(b"/p", vec![]), Err(FA_STRING_TOO_LONG));
    assert_eq!(fa.setPlatPathAs(b"/P", b"/p".to_vec()), Ok(()));
    assert_eq!(fa.st_path(), b"/p");
}

#[test]
fn a_conversion_leaves_no_more_than_its_buffer_holds() {
    assert_eq!(bufferSize(0), 1);
    assert_eq!(bufferSize(9), 9);
    assert_eq!(filled(b"abcd".to_vec(), 2, 4), b"ab");
    assert_eq!(filled(b"abcd".to_vec(), 9, 4), b"abcd");
    assert_eq!(filled(b"abcd".to_vec(), 3, 2), b"ab");
    assert_eq!(filled(b"abcd".to_vec(), -1, 4), b"");
}
