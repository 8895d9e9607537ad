//! Which attributes are asked for, and what is answered.
use vstd::prelude::*;
use crate::prim::{sqInt, PrimErr, PrimResult};
use crate::files::codes::{FA_CANT_STAT_PATH, FA_INVALID_ARGUMENTS, FA_STRING_TOO_LONG};
use crate::files::convert::{converted, room_in, Converters};
use crate::files::stat::{
    single_attribute_value, stat_attribute_values, AttrValue, FileStat, ZoneOffsets,
};

verus! {

// ---- Names ----------------------------------------------------------------

/// Why a name cannot be handed over, if it cannot: it is too long. `limit` is the
/// longest path, with its terminator.
pub fn nameStatus(size: usize, limit: usize) -> (r: Result<(), i64>)
    ensures
        r == (if size >= limit {
            Err(FA_STRING_TOO_LONG)
        } else {
            Ok(())
        }),
{
    if size >= limit {
        Err(FA_STRING_TOO_LONG)
    } else {
        Ok(())
    }
}

/// What a name of the platform becomes for the image, `st` being what it
/// converts to.
pub open spec fn image_name(plat: Seq<u8>, st: Seq<u8>, limit: int) -> Result<Seq<u8>, i64> {
    if plat.len() >= limit {
        Err(FA_STRING_TOO_LONG)
    } else if st.len() == 0 {
        Err(FA_INVALID_ARGUMENTS)
    } else if st.len() >= limit {
        Err(FA_STRING_TOO_LONG)
    } else {
        Ok(st)
    }
}

/// A result with its bytes as a sequence.
pub open spec fn bytes_of(r: Result<Vec<u8>, i64>) -> Result<Seq<u8>, i64> {
    match r {
        Ok(v) => Ok(v@),
        Err(e) => Err(e),
    }
}

/// A name of the platform for the image, given what it converts to.
pub fn imageNameAs(plat: &[u8], st: Vec<u8>, limit: usize) -> (r: Result<Vec<u8>, i64>)
    ensures
        bytes_of(r) == image_name(plat@, st@, limit as int),
{
    if plat.len() >= limit {
        return Err(FA_STRING_TOO_LONG);
    }
    if st.len() == 0 {
        return Err(FA_INVALID_ARGUMENTS);
    }
    match nameStatus(st.len(), limit) {
        Err(status) => Err(status),
        Ok(_) => Ok(st),
    }
}

/// A name of the platform for the image.
pub fn imageName(plat: &[u8], conv: &Converters, limit: usize) -> (r: Result<Vec<u8>, i64>)
    ensures
        bytes_of(r) == image_name(
            plat@,
            converted(plat@, room_in(limit as int)),
            limit as int,
        ),
{
    let st: Vec<u8> = conv.to_smalltalk(plat, limit);
    imageNameAs(plat, st, limit)
}

// ---- Single attributes ----------------------------------------------------

/// Tests for reading.
pub const ACCESS_READ: i32 = 4;

/// Tests for writing.
pub const ACCESS_WRITE: i32 = 2;

/// Tests for executing.
pub const ACCESS_EXECUTE: i32 = 1;

/// Tests for being there.
pub const ACCESS_EXISTS: i32 = 0;

/// Wraps the constant `libc::R_OK`, 4.
#[verifier::external_body]
pub(crate) fn r_ok() -> (r: i32)
    ensures
        r == ACCESS_READ,
{
    libc::R_OK
}

/// Wraps the constant `libc::W_OK`, 2.
#[verifier::external_body]
pub(crate) fn w_ok() -> (r: i32)
    ensures
        r == ACCESS_WRITE,
{
    libc::W_OK
}

/// Wraps the constant `libc::X_OK`, 1.
#[verifier::external_body]
pub(crate) fn x_ok() -> (r: i32)
    ensures
        r == ACCESS_EXECUTE,
{
    libc::X_OK
}

/// Wraps the constant `libc::F_OK`, 0.
#[verifier::external_body]
pub(crate) fn f_ok() -> (r: i32)
    ensures
        r == ACCESS_EXISTS,
{
    libc::F_OK
}

/// The test for a file being there.
pub fn existenceTest() -> (r: i32)
    ensures
        r == ACCESS_EXISTS,
{
    f_ok()
}

/// The tests whose outcomes make up the access array: read, write, execute.
pub fn accessTests() -> (r: [i32; 3])
    ensures
        r@ == seq![ACCESS_READ, ACCESS_WRITE, ACCESS_EXECUTE],
{
    let r: [i32; 3] = [r_ok(), w_ok(), x_ok()];
    assert(r@ =~= seq![ACCESS_READ, ACCESS_WRITE, ACCESS_EXECUTE]);
    r
}

/// What has to be asked of the file system for an attribute.
#[derive(Debug, Clone, Copy, PartialEq, Eq, Structural)]
pub enum AttributeQuery {
    /// The attributes of the file.
    Stat,
    /// Whether an access test passes.
    Access(i32),
    /// The attributes of the link itself.
    Link,
}

/// What came back.
#[derive(Debug, Clone, Copy)]
pub enum AttributeFacts {
    Stat(Result<FileStat, i64>),
    Access(bool),
    Link(Result<FileStat, i64>),
}

/// What an attribute is answered with.
#[derive(Debug, Clone, Copy, PartialEq, Eq, Structural)]
pub enum AttributeAnswer {
    Value(AttrValue),
    Truth(bool),
}

/// What to ask for the attribute with this number: 1 to 12 come from the
/// attributes, 13 to 15 from access tests, 16 tells a link.
pub open spec fn query_for(number: int) -> PrimResult<AttributeQuery> {
    if !(1 <= number <= 16) {
        Err(PrimErr::BadArgument)
    } else if number <= 12 {
        Ok(AttributeQuery::Stat)
    } else if number == 13 {
        Ok(AttributeQuery::Access(ACCESS_READ))
    } else if number == 14 {
        Ok(AttributeQuery::Access(ACCESS_WRITE))
    } else if number == 15 {
        Ok(AttributeQuery::Access(ACCESS_EXECUTE))
    } else {
        Ok(AttributeQuery::Link)
    }
}

/// What to ask the file system for the attribute with this number.
pub fn attributeQuery(attribute_number: sqInt) -> (r: PrimResult<AttributeQuery>)
    ensures
        r == query_for(attribute_number as int),
{
    if !(1 <= attribute_number && attribute_number <= 16) {
        return Err(PrimErr::BadArgument);
    }
    if attribute_number <= 12 {
        Ok(AttributeQuery::Stat)
    } else if attribute_number == 13 {
        Ok(AttributeQuery::Access(r_ok()))
    } else if attribute_number == 14 {
        Ok(AttributeQuery::Access(w_ok()))
    } else if attribute_number == 15 {
        Ok(AttributeQuery::Access(x_ok()))
    } else {
        Ok(AttributeQuery::Link)
    }
}

/// The answer for the attribute with this number, or the status it fails with.
pub open spec fn attribute_answer(number: int, facts: AttributeFacts, zone: ZoneOffsets) -> Result<
    AttributeAnswer,
    i64,
> {
    match facts {
        AttributeFacts::Stat(Ok(fs)) => Ok(AttributeAnswer::Value(fs.single(zone, number))),
        AttributeFacts::Stat(Err(status)) => Err(status),
        AttributeFacts::Access(ok) => Ok(AttributeAnswer::Truth(ok)),
        AttributeFacts::Link(Ok(fs)) => Ok(AttributeAnswer::Truth(fs.is_link())),
        AttributeFacts::Link(Err(status)) => Err(status),
    }
}

/// The answer for the attribute with this number.
pub fn attributeAnswer(attribute_number: sqInt, facts: &AttributeFacts, zone: &ZoneOffsets) -> (r:
    Result<AttributeAnswer, i64>)
    requires
        facts matches AttributeFacts::Stat(Ok(fs)) ==> fs.asked_time_fits(
            *zone,
            attribute_number as int,
        ),
    ensures
        r == attribute_answer(attribute_number as int, *facts, *zone),
{
    match facts {
        AttributeFacts::Stat(Ok(fs)) => Ok(
            AttributeAnswer::Value(single_attribute_value(fs, zone, attribute_number)),
        ),
        AttributeFacts::Stat(Err(status)) => Err(*status),
        AttributeFacts::Access(ok) => Ok(AttributeAnswer::Truth(*ok)),
        AttributeFacts::Link(Ok(fs)) => Ok(AttributeAnswer::Truth(fs.is_symlink())),
        AttributeFacts::Link(Err(status)) => Err(*status),
    }
}

// ---- Attribute arrays -----------------------------------------------------

/// The arrays that a mask asks for.
#[derive(Debug, Clone, Copy, PartialEq, Eq, Structural)]
pub struct AttributePlan {
    /// The attributes.
    pub stats: bool,
    /// The access tests.
    pub access: bool,
    /// The attributes of a link itself, not of what it leads to.
    pub lstat: bool,
}

/// The bits of a mask: 1 for the attributes, 2 for the access tests, 4 for the
/// link itself.
pub open spec fn plan_for(mask: sqInt) -> Result<AttributePlan, i64> {
    let stats = mask & 1 != 0;
    let access = mask & 2 != 0;
    if !stats && !access {
        Err(FA_INVALID_ARGUMENTS)
    } else {
        Ok(AttributePlan { stats, access, lstat: mask & 4 != 0 })
    }
}

/// The arrays that a mask asks for. It has to ask for one.
pub fn attributePlan(mask: sqInt) -> (r: Result<AttributePlan, i64>)
    ensures
        r == plan_for(mask),
{
    let stats: bool = mask & 1 != 0;
    let access: bool = mask & 2 != 0;
    if !stats && !access {
        return Err(FA_INVALID_ARGUMENTS);
    }
    Ok(AttributePlan { stats, access, lstat: mask & 4 != 0 })
}

/// The attribute array: the name that a link leads to, and twelve values.
#[derive(Debug)]
pub struct StatArray {
    pub target: Option<Vec<u8>>,
    pub values: [AttrValue; 12],
}

/// Whether the name that a file leads to has to be read: for links that are
/// asked about themselves.
pub fn wantsTarget(lstat: bool, fs: &FileStat) -> (r: bool)
    ensures
        r == (lstat && fs.is_link()),
{
    lstat && fs.is_symlink()
}

/// Why an attribute array could not be made.
#[derive(Debug, Clone, Copy, PartialEq, Eq, Structural)]
pub enum AttrFail {
    /// With a status, which the caller may take for no attributes.
    Status(i64),
    /// With a failure of the platform, which ends the primitive.
    Platform(i64),
}

/// Why the attribute array of a file cannot be made, if it cannot. `link` is the
/// name that it leads to, with what the name converts to.
pub open spec fn stat_array_fails(
    fs: Result<FileStat, i64>,
    link: Option<(Vec<u8>, Vec<u8>)>,
    limit: int,
) -> Option<AttrFail> {
    match fs {
        Err(status) => Some(AttrFail::Status(status)),
        Ok(_) => match link {
            None => None,
            Some((plat, st)) => match image_name(plat@, st@, limit) {
                Err(status) => Some(AttrFail::Platform(status)),
                Ok(_) => None,
            },
        },
    }
}

/// Makes the attribute array of a file. `link` is the name that it leads to,
/// with what the name converts to; without one the slot is nil. `limit` is the
/// longest path, with its terminator.
pub fn statArray(
    fs: &Result<FileStat, i64>,
    link: Option<(Vec<u8>, Vec<u8>)>,
    zone: &ZoneOffsets,
    limit: usize,
) -> (r: Result<StatArray, AttrFail>)
    requires
        fs matches Ok(s) ==> s.times_fit(*zone),
    ensures
        match r {
            Err(e) => stat_array_fails(*fs, link, limit as int) == Some(e),
            Ok(a) => {
                &&& stat_array_fails(*fs, link, limit as int) is None
                &&& a.values@ == fs->Ok_0.slots(*zone)
                &&& match link {
                    None => a.target is None,
                    Some((plat, st)) => a.target is Some && a.target->0@ == st@,
                }
            },
        },
{
    let s: FileStat = match fs {
        Err(status) => {
            return Err(AttrFail::Status(*status));
        },
        Ok(s) => *s,
    };
    let target: Option<Vec<u8>> = match link {
        None => None,
        Some((plat, st)) => {
            match imageNameAs(plat.as_slice(), st, limit) {
                Err(status) => {
                    return Err(AttrFail::Platform(status));
                },
                Ok(name) => Some(name),
            }
        },
    };
    Ok(StatArray { target, values: stat_attribute_values(&s, zone) })
}

/// What a directory walk does about attributes that could not be had.
#[derive(Debug, Clone, Copy, PartialEq, Eq, Structural)]
pub enum EntryAttributes {
    /// The entry is answered without them.
    Nil,
    /// The primitive fails with this status.
    Fail(i64),
}

/// An entry whose attributes cannot be read is answered without them: it may
/// have gone since, or lead nowhere. Anything else fails.
pub fn entryAttributes(e: AttrFail) -> (r: EntryAttributes)
    ensures
        r == (match e {
            AttrFail::Status(status) if status == FA_CANT_STAT_PATH => EntryAttributes::Nil,
            AttrFail::Status(status) => EntryAttributes::Fail(status),
            AttrFail::Platform(status) => EntryAttributes::Fail(status),
        }),
{
    match e {
        AttrFail::Status(status) => if status == FA_CANT_STAT_PATH {
            EntryAttributes::Nil
        } else {
            EntryAttributes::Fail(status)
        },
        AttrFail::Platform(status) => EntryAttributes::Fail(status),
    }
}

/// The version of these primitives, in ASCII: `2.0.8`.
pub const VERSION: [u8; 5] = [50, 46, 48, 46, 56];

} // verus!
