//! File attributes and how they cross to the image.
use vstd::prelude::*;
use crate::prim::sqInt;

verus! {

/// Seconds between the image's epoch, the start of 1901, and that of the
/// platform, the start of 1970: 52 ordinary years and 17 leap years.
pub const SQUEAK_EPOCH_OFFSET: i64 = (52 * 365 + 17 * 366) * 24 * 60 * 60;

/// The bits of a mode that tell what a file is.
pub const MODE_FORMAT: u32 = 0xF000;

pub const MODE_SOCKET: u32 = 0xC000;

pub const MODE_LINK: u32 = 0xA000;

pub const MODE_REGULAR: u32 = 0x8000;

pub const MODE_BLOCK: u32 = 0x6000;

pub const MODE_DIRECTORY: u32 = 0x4000;

pub const MODE_CHARACTER: u32 = 0x2000;

pub const MODE_FIFO: u32 = 0x1000;

/// Wraps the constant `libc::S_IFMT`, 0o170000.
#[verifier::external_body]
pub(crate) fn s_ifmt() -> (r: u32)
    ensures
        r == MODE_FORMAT,
{
    libc::S_IFMT as u32
}

/// Wraps the constant `libc::S_IFSOCK`, 0o140000.
#[verifier::external_body]
pub(crate) fn s_ifsock() -> (r: u32)
    ensures
        r == MODE_SOCKET,
{
    libc::S_IFSOCK as u32
}

/// Wraps the constant `libc::S_IFLNK`, 0o120000.
#[verifier::external_body]
pub(crate) fn s_iflnk() -> (r: u32)
    ensures
        r == MODE_LINK,
{
    libc::S_IFLNK as u32
}

/// Wraps the constant `libc::S_IFREG`, 0o100000.
#[verifier::external_body]
pub(crate) fn s_ifreg() -> (r: u32)
    ensures
        r == MODE_REGULAR,
{
    libc::S_IFREG as u32
}

/// Wraps the constant `libc::S_IFBLK`, 0o060000.
#[verifier::external_body]
pub(crate) fn s_ifblk() -> (r: u32)
    ensures
        r == MODE_BLOCK,
{
    libc::S_IFBLK as u32
}

/// Wraps the constant `libc::S_IFDIR`, 0o040000.
#[verifier::external_body]
pub(crate) fn s_ifdir() -> (r: u32)
    ensures
        r == MODE_DIRECTORY,
{
    libc::S_IFDIR as u32
}

/// Wraps the constant `libc::S_IFCHR`, 0o020000.
#[verifier::external_body]
pub(crate) fn s_ifchr() -> (r: u32)
    ensures
        r == MODE_CHARACTER,
{
    libc::S_IFCHR as u32
}

/// Wraps the constant `libc::S_IFIFO`, 0o010000.
#[verifier::external_body]
pub(crate) fn s_ififo() -> (r: u32)
    ensures
        r == MODE_FIFO,
{
    libc::S_IFIFO as u32
}

/// The attributes of a file.
#[derive(Debug, Clone, Copy, PartialEq, Eq, Structural)]
pub struct FileStat {
    pub mode: u32,
    pub ino: u64,
    pub dev: u64,
    pub nlink: u64,
    pub uid: u32,
    pub gid: u32,
    pub size: i64,
    /// Times, in seconds of the platform's epoch.
    pub atime: i64,
    pub mtime: i64,
    pub ctime: i64,
}

/// How far local time is ahead at each of the times of a file, in seconds.
#[derive(Debug, Clone, Copy, PartialEq, Eq, Structural)]
pub struct ZoneOffsets {
    pub atime: i64,
    pub mtime: i64,
    pub ctime: i64,
}

/// A value for the image, and how it is boxed.
#[derive(Debug, Clone, Copy, PartialEq, Eq, Structural)]
pub enum AttrValue {
    Nil,
    /// Unsigned, of 32 bits.
    P32(u32),
    /// Unsigned, of 64 bits.
    P64(u64),
    /// Signed, of 64 bits.
    S64(i64),
}

/// Local seconds of the image's epoch.
pub open spec fn image_time(unix_time: int, offset: int) -> int {
    unix_time + offset + SQUEAK_EPOCH_OFFSET
}

/// The time can be told in 64 bits.
pub open spec fn time_fits(unix_time: int, offset: int) -> bool {
    &&& i64::MIN <= unix_time + offset <= i64::MAX
    &&& image_time(unix_time, offset) <= i64::MAX
}

/// Local seconds of the image's epoch, where local time is `offset` seconds
/// ahead.
pub fn squeak_time(unix_time: i64, offset: i64) -> (r: i64)
    requires
        time_fits(unix_time as int, offset as int),
    ensures
        r == image_time(unix_time as int, offset as int),
{
    unix_time + offset + SQUEAK_EPOCH_OFFSET
}

impl FileStat {
    pub open spec fn is_directory(self) -> bool {
        self.mode & MODE_FORMAT == MODE_DIRECTORY
    }

    pub open spec fn is_link(self) -> bool {
        self.mode & MODE_FORMAT == MODE_LINK
    }

    /// Whether this is a directory.
    pub fn is_dir(&self) -> (r: bool)
        ensures
            r == self.is_directory(),
    {
        self.mode & s_ifmt() == s_ifdir()
    }

    /// Whether this is a symbolic link.
    pub fn is_symlink(&self) -> (r: bool)
        ensures
            r == self.is_link(),
    {
        self.mode & s_ifmt() == s_iflnk()
    }

    /// The three times can be told in 64 bits.
    pub open spec fn times_fit(self, zone: ZoneOffsets) -> bool {
        &&& time_fits(self.atime as int, zone.atime as int)
        &&& time_fits(self.mtime as int, zone.mtime as int)
        &&& time_fits(self.ctime as int, zone.ctime as int)
    }

    /// The time that the attribute with this number is, if it is one, can be told
    /// in 64 bits.
    pub open spec fn asked_time_fits(self, zone: ZoneOffsets, number: int) -> bool {
        &&& number == 9 ==> time_fits(self.atime as int, zone.atime as int)
        &&& number == 10 ==> time_fits(self.mtime as int, zone.mtime as int)
        &&& number == 11 ==> time_fits(self.ctime as int, zone.ctime as int)
    }

    /// The size that is reported: none for a directory.
    pub open spec fn reported_size(self) -> AttrValue {
        if self.is_directory() {
            AttrValue::P32(0)
        } else {
            AttrValue::P64(self.size as u64)
        }
    }

    /// The attributes in the order of the slots from 1 on.
    pub open spec fn slots(self, zone: ZoneOffsets) -> Seq<AttrValue> {
        seq![
            AttrValue::P32(self.mode),
            AttrValue::P64(self.ino),
            AttrValue::P64(self.dev),
            AttrValue::P32(self.nlink as u32),
            AttrValue::P32(self.uid),
            AttrValue::P32(self.gid),
            self.reported_size(),
            AttrValue::S64(image_time(self.atime as int, zone.atime as int) as i64),
            AttrValue::S64(image_time(self.mtime as int, zone.mtime as int) as i64),
            AttrValue::S64(image_time(self.ctime as int, zone.ctime as int) as i64),
            AttrValue::Nil,
            AttrValue::Nil,
        ]
    }

    /// The attribute with this number. The count of links is boxed in 64 bits
    /// here; there is neither a name nor a creation date.
    pub open spec fn single(self, zone: ZoneOffsets, number: int) -> AttrValue {
        if number == 5 {
            AttrValue::P64(self.nlink)
        } else if 2 <= number <= 11 {
            self.slots(zone)[number - 2]
        } else {
            AttrValue::Nil
        }
    }
}

/// The size that is reported.
pub fn size_value(fs: &FileStat) -> (r: AttrValue)
    ensures
        r == fs.reported_size(),
{
    if fs.is_dir() {
        AttrValue::P32(0)
    } else {
        AttrValue::P64(fs.size as u64)
    }
}

/// The slots of the attribute array, but for the first.
pub fn stat_attribute_values(fs: &FileStat, zone: &ZoneOffsets) -> (r: [AttrValue; 12])
    requires
        fs.times_fit(*zone),
    ensures
        r@ == fs.slots(*zone),
{
    let r: [AttrValue; 12] = [
        AttrValue::P32(fs.mode),
        AttrValue::P64(fs.ino),
        AttrValue::P64(fs.dev),
        AttrValue::P32(fs.nlink as u32),
        AttrValue::P32(fs.uid),
        AttrValue::P32(fs.gid),
        size_value(fs),
        AttrValue::S64(squeak_time(fs.atime, zone.atime)),
        AttrValue::S64(squeak_time(fs.mtime, zone.mtime)),
        AttrValue::S64(squeak_time(fs.ctime, zone.ctime)),
        AttrValue::Nil,
        AttrValue::Nil,
    ];
    assert(r@ =~= fs.slots(*zone));
    r
}

/// The masks that tell what a file is: format, socket, link, regular file, block
/// device, directory, character device, pipe.
pub fn file_mask_values() -> (r: [u32; 8])
    ensures
        r@ == seq![
            MODE_FORMAT,
            MODE_SOCKET,
            MODE_LINK,
            MODE_REGULAR,
            MODE_BLOCK,
            MODE_DIRECTORY,
            MODE_CHARACTER,
            MODE_FIFO,
        ],
{
    let r: [u32; 8] = [
        s_ifmt(),
        s_ifsock(),
        s_iflnk(),
        s_ifreg(),
        s_ifblk(),
        s_ifdir(),
        s_ifchr(),
        s_ififo(),
    ];
    assert(r@ =~= seq![
        MODE_FORMAT,
        MODE_SOCKET,
        MODE_LINK,
        MODE_REGULAR,
        MODE_BLOCK,
        MODE_DIRECTORY,
        MODE_CHARACTER,
        MODE_FIFO,
    ]);
    r
}

/// One attribute by its number.
pub fn single_attribute_value(fs: &FileStat, zone: &ZoneOffsets, attribute_number: sqInt) -> (r:
    AttrValue)
    requires
        fs.asked_time_fits(*zone, attribute_number as int),
    ensures
        r == fs.single(*zone, attribute_number as int),
{
    match attribute_number {
        2 => AttrValue::P32(fs.mode),
        3 => AttrValue::P64(fs.ino),
        4 => AttrValue::P64(fs.dev),
        5 => AttrValue::P64(fs.nlink),
        6 => AttrValue::P32(fs.uid),
        7 => AttrValue::P32(fs.gid),
        8 => size_value(fs),
        9 => AttrValue::S64(squeak_time(fs.atime, zone.atime)),
        10 => AttrValue::S64(squeak_time(fs.mtime, zone.mtime)),
        11 => AttrValue::S64(squeak_time(fs.ctime, zone.ctime)),
        _ => AttrValue::Nil,
    }
}

/// A file is one thing only: no two of the masks fit one mode.
pub proof fn lemma_kinds_exclude_each_other(fs: FileStat)
    ensures
        !(fs.is_directory() && fs.is_link()),
{
}

} // verus!
