//! Values shared by every plugin: the machine word of the virtual machine and
//! the reasons a primitive fails with.
use vstd::prelude::*;

verus! {

/// The virtual machine's signed word, on a host with 64-bit words. Hosts with
/// 32-bit words are not covered: there sums of the blitter's coordinates leave the
/// word, and a mask of a whole 32-bit pixel has no bits above it. The handles of
/// directory walks follow the host's word all the same.
pub type sqInt = i64;

/// The virtual machine's unsigned word; also a byte address.
pub type UsqInt = u64;

/// Why a primitive failed.
#[derive(Debug, Clone, Copy, PartialEq, Eq, Structural)]
pub enum PrimErr {
    GenericFailure,
    BadReceiver,
    BadArgument,
    BadIndex,
    BadNumArgs,
    Inappropriate,
    Unsupported,
    NoModification,
    NoMemory,
    NoCMemory,
    NotFound,
    BadMethod,
    NamedInternal,
    ObjectMayMove,
    LimitExceeded,
    ObjectIsPinned,
    WritePastObject,
    ObjectMoved,
    ObjectNotPinned,
    CallbackError,
    OSError,
    FFIException,
    NeedCompaction,
    OperationFailed,
}

/// What a primitive answers.
pub type PrimResult<T> = Result<T, PrimErr>;

impl PrimErr {
    /// The number the virtual machine knows this reason by.
    pub open spec fn number(self) -> int {
        match self {
            PrimErr::GenericFailure => 1,
            PrimErr::BadReceiver => 2,
            PrimErr::BadArgument => 3,
            PrimErr::BadIndex => 4,
            PrimErr::BadNumArgs => 5,
            PrimErr::Inappropriate => 6,
            PrimErr::Unsupported => 7,
            PrimErr::NoModification => 8,
            PrimErr::NoMemory => 9,
            PrimErr::NoCMemory => 10,
            PrimErr::NotFound => 11,
            PrimErr::BadMethod => 12,
            PrimErr::NamedInternal => 13,
            PrimErr::ObjectMayMove => 14,
            PrimErr::LimitExceeded => 15,
            PrimErr::ObjectIsPinned => 16,
            PrimErr::WritePastObject => 17,
            PrimErr::ObjectMoved => 18,
            PrimErr::ObjectNotPinned => 19,
            PrimErr::CallbackError => 20,
            PrimErr::OSError => 21,
            PrimErr::FFIException => 22,
            PrimErr::NeedCompaction => 23,
            PrimErr::OperationFailed => 24,
        }
    }

    /// The number the virtual machine knows this reason by.
    pub fn code(self) -> (r: sqInt)
        ensures
            r == self.number(),
    {
        match self {
            PrimErr::GenericFailure => 1,
            PrimErr::BadReceiver => 2,
            PrimErr::BadArgument => 3,
            PrimErr::BadIndex => 4,
            PrimErr::BadNumArgs => 5,
            PrimErr::Inappropriate => 6,
            PrimErr::Unsupported => 7,
            PrimErr::NoModification => 8,
            PrimErr::NoMemory => 9,
            PrimErr::NoCMemory => 10,
            PrimErr::NotFound => 11,
            PrimErr::BadMethod => 12,
            PrimErr::NamedInternal => 13,
            PrimErr::ObjectMayMove => 14,
            PrimErr::LimitExceeded => 15,
            PrimErr::ObjectIsPinned => 16,
            PrimErr::WritePastObject => 17,
            PrimErr::ObjectMoved => 18,
            PrimErr::ObjectNotPinned => 19,
            PrimErr::CallbackError => 20,
            PrimErr::OSError => 21,
            PrimErr::FFIException => 22,
            PrimErr::NeedCompaction => 23,
            PrimErr::OperationFailed => 24,
        }
    }
}

/// The reason behind a failure number the interpreter reports. A number that
/// names no reason is a generic failure.
pub fn currentFailure(code: sqInt) -> (r: PrimErr)
    ensures
        1 <= code <= 24 ==> r.number() == code,
        !(1 <= code <= 24) ==> r == PrimErr::GenericFailure,
{
    match code {
        2 => PrimErr::BadReceiver,
        3 => PrimErr::BadArgument,
        4 => PrimErr::BadIndex,
        5 => PrimErr::BadNumArgs,
        6 => PrimErr::Inappropriate,
        7 => PrimErr::Unsupported,
        8 => PrimErr::NoModification,
        9 => PrimErr::NoMemory,
        10 => PrimErr::NoCMemory,
        11 => PrimErr::NotFound,
        12 => PrimErr::BadMethod,
        13 => PrimErr::NamedInternal,
        14 => PrimErr::ObjectMayMove,
        15 => PrimErr::LimitExceeded,
        16 => PrimErr::ObjectIsPinned,
        17 => PrimErr::WritePastObject,
        18 => PrimErr::ObjectMoved,
        19 => PrimErr::ObjectNotPinned,
        20 => PrimErr::CallbackError,
        21 => PrimErr::OSError,
        22 => PrimErr::FFIException,
        23 => PrimErr::NeedCompaction,
        24 => PrimErr::OperationFailed,
        _ => PrimErr::GenericFailure,
    }
}

/// Two reasons with the same number are the same reason.
pub proof fn lemma_reasons_have_distinct_numbers(a: PrimErr, b: PrimErr)
    ensures
        a.number() == b.number() ==> a == b,
{
}

} // verus!
