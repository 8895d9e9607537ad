//! The statuses that operations end with. The image decodes these numbers.
use vstd::prelude::*;

verus! {

/// Operation completed.
pub const FA_SUCCESS: i64 = 0;

/// A path or file name is too long.
pub const FA_STRING_TOO_LONG: i64 = -1;

pub const FA_STAT_FAILED: i64 = -2;

/// The attributes of the path could not be read.
pub const FA_CANT_STAT_PATH: i64 = -3;

pub const FA_GET_ATTRIBUTES_FAILED: i64 = -4;

pub const FA_TIME_CONVERSION_FAILED: i64 = -5;

/// Neither attributes nor access rights were asked for.
pub const FA_INVALID_ARGUMENTS: i64 = -6;

/// A directory session no longer holds an open stream.
pub const FA_CORRUPT_VALUE: i64 = -7;

pub const FA_CANT_READ_LINK: i64 = -8;

/// A directory could not be opened.
pub const FA_CANT_OPEN_DIR: i64 = -9;

pub const FA_CANT_ALLOCATE_MEMORY: i64 = -10;

pub const FA_INVALID_REQUEST: i64 = -11;

pub const FA_UNABLE_TO_CLOSE_DIR: i64 = -12;

pub const FA_UNSUPPORTED_OPERATION: i64 = -13;

pub const FA_UNEXPECTED_ERROR: i64 = -14;

/// The interpreter knows the real error.
pub const FA_INTERPRETER_ERROR: i64 = -15;

/// A directory could not be read.
pub const FA_CANT_READ_DIR: i64 = -16;

/// A directory handle is not one of this session.
pub const FA_BAD_SESSION_ID: i64 = -17;

/// The end of a directory. The one positive status.
pub const FA_NO_MORE_DATA: i64 = 1;

} // verus!
