//! The blitter's registers and lookup tables.
//!
//! The width of every register matters: pixel words are 32-bit, the clipped
//! rectangle is kept in 32-bit integers and everything else in machine words,
//! and several computations rely on the truncation in between.
use vstd::prelude::*;
use crate::prim::{sqInt, UsqInt};
use crate::bitblt::memory::{
    long32At, long32Atput, valid_word, with_word, word_at, Memory,
};

verus! {

pub const ALL_ONES: u32 = 0xFFFF_FFFF;
pub const ALPHA_INDEX: usize = 3;
pub const BB_CLIP_HEIGHT_INDEX: sqInt = 13;
pub const BB_CLIP_WIDTH_INDEX: sqInt = 12;
pub const BB_CLIP_X_INDEX: sqInt = 10;
pub const BB_CLIP_Y_INDEX: sqInt = 11;
pub const BB_COLOR_MAP_INDEX: sqInt = 14;
pub const BB_DEST_FORM_INDEX: sqInt = 0;
pub const BB_DEST_X_INDEX: sqInt = 4;
pub const BB_DEST_Y_INDEX: sqInt = 5;
pub const BB_HALFTONE_FORM_INDEX: sqInt = 2;
pub const BB_HEIGHT_INDEX: sqInt = 7;
pub const BB_RULE_INDEX: sqInt = 3;
pub const BB_SOURCE_FORM_INDEX: sqInt = 1;
pub const BB_SOURCE_X_INDEX: sqInt = 8;
pub const BB_SOURCE_Y_INDEX: sqInt = 9;
pub const BB_WARP_BASE: sqInt = 15;
pub const BB_WIDTH_INDEX: sqInt = 6;
pub const BE_BIT_BLT_INDEX: sqInt = 2;
pub const BINARY_POINT: sqInt = 14;
pub const BLUE_INDEX: usize = 2;
pub const COLOR_MAP_FIXED_PART: sqInt = 2;
pub const COLOR_MAP_INDEXED_PART: sqInt = 4;
pub const COLOR_MAP_NEW_STYLE: sqInt = 8;
pub const COLOR_MAP_PRESENT: sqInt = 1;
pub const FIXED_PT1: sqInt = 0x4000;
pub const FORM_BITS_INDEX: sqInt = 0;
pub const FORM_DEPTH_INDEX: sqInt = 3;
pub const FORM_HEIGHT_INDEX: sqInt = 2;
pub const FORM_WIDTH_INDEX: sqInt = 1;
pub const GREEN_INDEX: usize = 1;
pub const OP_TABLE_SIZE: sqInt = 43;
pub const RED_INDEX: usize = 0;

/// Mask for the low `n` bits, for the widths a pixel or a color component can
/// have; 0 for every other width.
pub const MASK_TABLE: [u32; 33] = [
    0, 1, 3, 0, 15, 31, 0, 0, 255, 0, 0, 0, 0, 0, 0, 0, 65535,
    0, 0, 0, 0, 0, 0, 0, 0, 0, 0, 0, 0, 0, 0, 0, 0xFFFF_FFFF,
];

/// What [`MASK_TABLE`] holds for a width.
pub open spec fn width_mask(n: int) -> u32 {
    if n == 1 {
        1
    } else if n == 2 {
        3
    } else if n == 4 {
        15
    } else if n == 5 {
        31
    } else if n == 8 {
        255
    } else if n == 16 {
        65535
    } else if n == 32 {
        0xFFFF_FFFF
    } else {
        0
    }
}

/// Reads [`MASK_TABLE`].
pub fn maskFor(n: sqInt) -> (r: u32)
    requires
        0 <= n <= 32,
    ensures
        r == width_mask(n as int),
{
    MASK_TABLE[n as usize]
}

/// The ordered-dither thresholds of a 4 by 4 cell, row by row.
pub const DITHER_MATRIX_4X4: [i32; 16] = [0, 8, 2, 10, 12, 4, 14, 6, 3, 11, 1, 9, 15, 7, 13, 5];

/// Threshold for each value of the three bits that a 5-bit component drops.
pub const DITHER_THRESHOLDS_16: [i32; 8] = [0, 2, 4, 6, 8, 12, 14, 16];

/// Base value for each value of the five bits that a 5-bit component keeps.
pub const DITHER_VALUES_16: [i32; 32] = [
    0, 0, 1, 2, 3, 4, 5, 6, 7, 8, 9, 10, 11, 12, 13, 14,
    15, 16, 17, 18, 19, 20, 21, 22, 23, 24, 25, 26, 27, 28, 29, 30,
];

/// The default colors of 8-bit indexed pixels, as 32-bit ARGB.
pub const DEFAULT_8_TO_32_TABLE: [u32; 256] = [
    0x0, 0xFF000001, 0xFFFFFFFF, 0xFF808080, 0xFFFF0000, 0xFF00FF00, 0xFF0000FF, 0xFF00FFFF,
    0xFFFFFF00, 0xFFFF00FF, 0xFF202020, 0xFF404040, 0xFF606060, 0xFF9F9F9F, 0xFFBFBFBF, 0xFFDFDFDF,
    0xFF080808, 0xFF101010, 0xFF181818, 0xFF282828, 0xFF303030, 0xFF383838, 0xFF484848, 0xFF505050,
    0xFF585858, 0xFF686868, 0xFF707070, 0xFF787878, 0xFF878787, 0xFF8F8F8F, 0xFF979797, 0xFFA7A7A7,
    0xFFAFAFAF, 0xFFB7B7B7, 0xFFC7C7C7, 0xFFCFCFCF, 0xFFD7D7D7, 0xFFE7E7E7, 0xFFEFEFEF, 0xFFF7F7F7,
    0xFF000001, 0xFF003300, 0xFF006600, 0xFF009900, 0xFF00CC00, 0xFF00FF00, 0xFF000033, 0xFF003333,
    0xFF006633, 0xFF009933, 0xFF00CC33, 0xFF00FF33, 0xFF000066, 0xFF003366, 0xFF006666, 0xFF009966,
    0xFF00CC66, 0xFF00FF66, 0xFF000099, 0xFF003399, 0xFF006699, 0xFF009999, 0xFF00CC99, 0xFF00FF99,
    0xFF0000CC, 0xFF0033CC, 0xFF0066CC, 0xFF0099CC, 0xFF00CCCC, 0xFF00FFCC, 0xFF0000FF, 0xFF0033FF,
    0xFF0066FF, 0xFF0099FF, 0xFF00CCFF, 0xFF00FFFF, 0xFF330000, 0xFF333300, 0xFF336600, 0xFF339900,
    0xFF33CC00, 0xFF33FF00, 0xFF330033, 0xFF333333, 0xFF336633, 0xFF339933, 0xFF33CC33, 0xFF33FF33,
    0xFF330066, 0xFF333366, 0xFF336666, 0xFF339966, 0xFF33CC66, 0xFF33FF66, 0xFF330099, 0xFF333399,
    0xFF336699, 0xFF339999, 0xFF33CC99, 0xFF33FF99, 0xFF3300CC, 0xFF3333CC, 0xFF3366CC, 0xFF3399CC,
    0xFF33CCCC, 0xFF33FFCC, 0xFF3300FF, 0xFF3333FF, 0xFF3366FF, 0xFF3399FF, 0xFF33CCFF, 0xFF33FFFF,
    0xFF660000, 0xFF663300, 0xFF666600, 0xFF669900, 0xFF66CC00, 0xFF66FF00, 0xFF660033, 0xFF663333,
    0xFF666633, 0xFF669933, 0xFF66CC33, 0xFF66FF33, 0xFF660066, 0xFF663366, 0xFF666666, 0xFF669966,
    0xFF66CC66, 0xFF66FF66, 0xFF660099, 0xFF663399, 0xFF666699, 0xFF669999, 0xFF66CC99, 0xFF66FF99,
    0xFF6600CC, 0xFF6633CC, 0xFF6666CC, 0xFF6699CC, 0xFF66CCCC, 0xFF66FFCC, 0xFF6600FF, 0xFF6633FF,
    0xFF6666FF, 0xFF6699FF, 0xFF66CCFF, 0xFF66FFFF, 0xFF990000, 0xFF993300, 0xFF996600, 0xFF999900,
    0xFF99CC00, 0xFF99FF00, 0xFF990033, 0xFF993333, 0xFF996633, 0xFF999933, 0xFF99CC33, 0xFF99FF33,
    0xFF990066, 0xFF993366, 0xFF996666, 0xFF999966, 0xFF99CC66, 0xFF99FF66, 0xFF990099, 0xFF993399,
    0xFF996699, 0xFF999999, 0xFF99CC99, 0xFF99FF99, 0xFF9900CC, 0xFF9933CC, 0xFF9966CC, 0xFF9999CC,
    0xFF99CCCC, 0xFF99FFCC, 0xFF9900FF, 0xFF9933FF, 0xFF9966FF, 0xFF9999FF, 0xFF99CCFF, 0xFF99FFFF,
    0xFFCC0000, 0xFFCC3300, 0xFFCC6600, 0xFFCC9900, 0xFFCCCC00, 0xFFCCFF00, 0xFFCC0033, 0xFFCC3333,
    0xFFCC6633, 0xFFCC9933, 0xFFCCCC33, 0xFFCCFF33, 0xFFCC0066, 0xFFCC3366, 0xFFCC6666, 0xFFCC9966,
    0xFFCCCC66, 0xFFCCFF66, 0xFFCC0099, 0xFFCC3399, 0xFFCC6699, 0xFFCC9999, 0xFFCCCC99, 0xFFCCFF99,
    0xFFCC00CC, 0xFFCC33CC, 0xFFCC66CC, 0xFFCC99CC, 0xFFCCCCCC, 0xFFCCFFCC, 0xFFCC00FF, 0xFFCC33FF,
    0xFFCC66FF, 0xFFCC99FF, 0xFFCCCCFF, 0xFFCCFFFF, 0xFFFF0000, 0xFFFF3300, 0xFFFF6600, 0xFFFF9900,
    0xFFFFCC00, 0xFFFFFF00, 0xFFFF0033, 0xFFFF3333, 0xFFFF6633, 0xFFFF9933, 0xFFFFCC33, 0xFFFFFF33,
    0xFFFF0066, 0xFFFF3366, 0xFFFF6666, 0xFFFF9966, 0xFFFFCC66, 0xFFFFFF66, 0xFFFF0099, 0xFFFF3399,
    0xFFFF6699, 0xFFFF9999, 0xFFFFCC99, 0xFFFFFF99, 0xFFFF00CC, 0xFFFF33CC, 0xFFFF66CC, 0xFFFF99CC,
    0xFFFFCCCC, 0xFFFFFFCC, 0xFFFF00FF, 0xFFFF33FF, 0xFFFF66FF, 0xFFFF99FF, 0xFFFFCCFF, 0xFFFFFFFF,
];

// ---- Shifts ---------------------------------------------------------------

/// `value << n`, 0 when the count is out of range.
pub open spec fn shl_word(value: u32, n: int) -> u32 {
    if 0 <= n < 32 {
        value << (n as u32)
    } else {
        0
    }
}

/// `value >> n`, 0 when the count is out of range.
pub open spec fn shr_word(value: u32, n: int) -> u32 {
    if 0 <= n < 32 {
        value >> (n as u32)
    } else {
        0
    }
}

/// Left shift for a positive count, right shift for a negative one.
pub open spec fn shift_word(value: u32, n: int) -> u32 {
    if n < 0 {
        shr_word(value, -n)
    } else {
        shl_word(value, n)
    }
}

/// A machine-word shift, left for a positive count and logical right for a
/// negative one; 0 when the count is out of range.
pub open spec fn shift_long(value: sqInt, n: int) -> sqInt {
    if n < 0 {
        if -n >= 64 {
            0
        } else {
            ((value as UsqInt) >> ((-n) as u64)) as sqInt
        }
    } else if n >= 64 {
        0
    } else {
        ((value as UsqInt) << (n as u64)) as sqInt
    }
}

/// `value << n`, 0 when the count is out of range.
pub fn shl32(value: u32, n: sqInt) -> (r: u32)
    ensures
        r == shl_word(value, n as int),
{
    if 0 <= n && n < 32 {
        value << n
    } else {
        0
    }
}

/// `value >> n`, 0 when the count is out of range.
pub fn shr32(value: u32, n: sqInt) -> (r: u32)
    ensures
        r == shr_word(value, n as int),
{
    if 0 <= n && n < 32 {
        value >> n
    } else {
        0
    }
}

/// Left shift for a positive count, right shift for a negative one.
pub fn shift32(value: u32, n: sqInt) -> (r: u32)
    requires
        n > sqInt::MIN,
    ensures
        r == shift_word(value, n as int),
{
    if n < 0 {
        shr32(value, -n)
    } else {
        shl32(value, n)
    }
}

/// The machine-word shift, with the same rule for counts out of range.
pub fn shift_sq(value: sqInt, n: sqInt) -> (r: sqInt)
    requires
        n > sqInt::MIN,
    ensures
        r == shift_long(value, n as int),
{
    if n < 0 {
        if -n >= 64 {
            0
        } else {
            ((value as UsqInt) >> ((-n) as u64)) as sqInt
        }
    } else if n >= 64 {
        0
    } else {
        ((value as UsqInt) << (n as u64)) as sqInt
    }
}

// ---- The registers --------------------------------------------------------

/// Where a color map's shift or mask table is.
#[derive(Debug, Clone, Copy, PartialEq, Eq, Structural)]
pub enum CmTable {
    /// There is none.
    Null,
    /// Four words in memory, at this address.
    Image(UsqInt),
    /// The table held in the registers themselves.
    Local,
}

/// Every register of the blitter.
#[derive(Debug, Clone, Copy)]
pub struct BitBlt {
    /// Bottom edge of the rectangle the last blit changed.
    pub affectedB: sqInt,
    /// Left edge of that rectangle.
    pub affectedL: sqInt,
    /// Right edge of that rectangle.
    pub affectedR: sqInt,
    /// Top edge of that rectangle.
    pub affectedT: sqInt,
    /// Height of the clipped blit.
    pub bbH: i32,
    /// Width of the clipped blit.
    pub bbW: i32,
    pub bitBltIsReceiver: bool,
    pub bitBltOop: sqInt,
    /// What the difference rules have counted.
    pub bitCount: sqInt,
    pub clipHeight: sqInt,
    pub clipWidth: sqInt,
    pub clipX: sqInt,
    pub clipY: sqInt,
    pub cmBitsPerColor: sqInt,
    pub cmFlags: sqInt,
    /// Address of the color map words, 0 for none.
    pub cmLookupTable: UsqInt,
    pub cmMask: sqInt,
    pub cmMaskTable: CmTable,
    pub cmShiftTable: CmTable,
    /// Backing store of a [`CmTable::Local`] mask table.
    pub cmLocalMasks: [u32; 4],
    /// Backing store of a [`CmTable::Local`] shift table.
    pub cmLocalShifts: [i32; 4],
    pub combinationRule: sqInt,
    pub componentAlphaModeAlpha: sqInt,
    pub componentAlphaModeColor: sqInt,
    /// Address of the destination bitmap, 0 for a surface that is not locked.
    pub destBits: UsqInt,
    pub destDelta: sqInt,
    pub destDepth: i32,
    pub destForm: sqInt,
    pub destHeight: i32,
    pub destIndex: UsqInt,
    pub destMask: u32,
    /// Nonzero when the leftmost pixel is in the high bits.
    pub destMSB: i32,
    pub destPitch: i32,
    pub destPPW: sqInt,
    pub destWidth: i32,
    pub destX: sqInt,
    pub destY: sqInt,
    pub dstBitShift: sqInt,
    pub dx: i32,
    pub dy: i32,
    pub endOfDestination: UsqInt,
    pub endOfSource: UsqInt,
    /// Address of the gamma bytes, 0 for none.
    pub gammaLookupTable: UsqInt,
    pub halftoneBase: UsqInt,
    pub halftoneForm: sqInt,
    pub halftoneHeight: sqInt,
    pub hasSurfaceLock: bool,
    pub hDir: sqInt,
    pub height: sqInt,
    pub isWarping: bool,
    /// Entry point that locks a surface, 0 while unresolved.
    pub lockSurfaceFn: UsqInt,
    pub mask1: u32,
    pub mask2: u32,
    pub noHalftone: bool,
    pub noSource: bool,
    pub numGCsOnInvocation: sqInt,
    pub nWords: sqInt,
    pub preload: bool,
    /// Entry point that describes a surface, 0 while unresolved.
    pub querySurfaceFn: UsqInt,
    pub skew: sqInt,
    pub sourceAlpha: sqInt,
    /// Address of the source bitmap, 0 for a surface that is not locked.
    pub sourceBits: UsqInt,
    pub sourceDelta: sqInt,
    pub sourceDepth: i32,
    pub sourceForm: sqInt,
    pub sourceHeight: i32,
    pub sourceIndex: UsqInt,
    /// Nonzero when the leftmost pixel is in the high bits.
    pub sourceMSB: i32,
    pub sourcePitch: i32,
    pub sourcePPW: sqInt,
    pub sourceWidth: i32,
    pub sourceX: sqInt,
    pub sourceY: sqInt,
    pub srcBitShift: sqInt,
    pub sx: i32,
    pub sy: i32,
    /// Address of the inverse gamma bytes, 0 for none.
    pub ungammaLookupTable: UsqInt,
    /// Entry point that unlocks a surface, 0 while unresolved.
    pub unlockSurfaceFn: UsqInt,
    pub vDir: sqInt,
    pub warpAlignMask: sqInt,
    pub warpAlignShift: sqInt,
    pub warpBitShiftTable: [i32; 32],
    pub warpSrcMask: sqInt,
    pub warpSrcShift: sqInt,
    pub width: sqInt,
}

impl BitBlt {
    /// Every register is zero, false or null.
    pub open spec fn is_zeroed(&self) -> bool {
        &&& self.affectedB == 0
        &&& self.affectedL == 0
        &&& self.affectedR == 0
        &&& self.affectedT == 0
        &&& self.bbH == 0
        &&& self.bbW == 0
        &&& !self.bitBltIsReceiver
        &&& self.bitBltOop == 0
        &&& self.bitCount == 0
        &&& self.clipHeight == 0
        &&& self.clipWidth == 0
        &&& self.clipX == 0
        &&& self.clipY == 0
        &&& self.cmBitsPerColor == 0
        &&& self.cmFlags == 0
        &&& self.cmLookupTable == 0
        &&& self.cmMask == 0
        &&& self.cmMaskTable == CmTable::Null
        &&& self.cmShiftTable == CmTable::Null
        &&& forall|i: int| 0 <= i < 4 ==> self.cmLocalMasks[i] == 0
        &&& forall|i: int| 0 <= i < 4 ==> self.cmLocalShifts[i] == 0
        &&& self.combinationRule == 0
        &&& self.componentAlphaModeAlpha == 0
        &&& self.componentAlphaModeColor == 0
        &&& self.destBits == 0
        &&& self.destDelta == 0
        &&& self.destDepth == 0
        &&& self.destForm == 0
        &&& self.destHeight == 0
        &&& self.destIndex == 0
        &&& self.destMask == 0
        &&& self.destMSB == 0
        &&& self.destPitch == 0
        &&& self.destPPW == 0
        &&& self.destWidth == 0
        &&& self.destX == 0
        &&& self.destY == 0
        &&& self.dstBitShift == 0
        &&& self.dx == 0
        &&& self.dy == 0
        &&& self.endOfDestination == 0
        &&& self.endOfSource == 0
        &&& self.gammaLookupTable == 0
        &&& self.halftoneBase == 0
        &&& self.halftoneForm == 0
        &&& self.halftoneHeight == 0
        &&& !self.hasSurfaceLock
        &&& self.hDir == 0
        &&& self.height == 0
        &&& !self.isWarping
        &&& self.lockSurfaceFn == 0
        &&& self.mask1 == 0
        &&& self.mask2 == 0
        &&& !self.noHalftone
        &&& !self.noSource
        &&& self.numGCsOnInvocation == 0
        &&& self.nWords == 0
        &&& !self.preload
        &&& self.querySurfaceFn == 0
        &&& self.skew == 0
        &&& self.sourceAlpha == 0
        &&& self.sourceBits == 0
        &&& self.sourceDelta == 0
        &&& self.sourceDepth == 0
        &&& self.sourceForm == 0
        &&& self.sourceHeight == 0
        &&& self.sourceIndex == 0
        &&& self.sourceMSB == 0
        &&& self.sourcePitch == 0
        &&& self.sourcePPW == 0
        &&& self.sourceWidth == 0
        &&& self.sourceX == 0
        &&& self.sourceY == 0
        &&& self.srcBitShift == 0
        &&& self.sx == 0
        &&& self.sy == 0
        &&& self.ungammaLookupTable == 0
        &&& self.unlockSurfaceFn == 0
        &&& self.vDir == 0
        &&& self.warpAlignMask == 0
        &&& self.warpAlignShift == 0
        &&& forall|i: int| 0 <= i < 32 ==> self.warpBitShiftTable[i] == 0
        &&& self.warpSrcMask == 0
        &&& self.warpSrcShift == 0
        &&& self.width == 0
    }

    /// All registers zero.
    pub fn new() -> (r: Self)
        ensures
            r.is_zeroed(),
    {
        Self {
            affectedB: 0,
            affectedL: 0,
            affectedR: 0,
            affectedT: 0,
            bbH: 0,
            bbW: 0,
            bitBltIsReceiver: false,
            bitBltOop: 0,
            bitCount: 0,
            clipHeight: 0,
            clipWidth: 0,
            clipX: 0,
            clipY: 0,
            cmBitsPerColor: 0,
            cmFlags: 0,
            cmLookupTable: 0,
            cmMask: 0,
            cmMaskTable: CmTable::Null,
            cmShiftTable: CmTable::Null,
            cmLocalMasks: [0u32; 4],
            cmLocalShifts: [0i32; 4],
            combinationRule: 0,
            componentAlphaModeAlpha: 0,
            componentAlphaModeColor: 0,
            destBits: 0,
            destDelta: 0,
            destDepth: 0,
            destForm: 0,
            destHeight: 0,
            destIndex: 0,
            destMask: 0,
            destMSB: 0,
            destPitch: 0,
            destPPW: 0,
            destWidth: 0,
            destX: 0,
            destY: 0,
            dstBitShift: 0,
            dx: 0,
            dy: 0,
            endOfDestination: 0,
            endOfSource: 0,
            gammaLookupTable: 0,
            halftoneBase: 0,
            halftoneForm: 0,
            halftoneHeight: 0,
            hasSurfaceLock: false,
            hDir: 0,
            height: 0,
            isWarping: false,
            lockSurfaceFn: 0,
            mask1: 0,
            mask2: 0,
            noHalftone: false,
            noSource: false,
            numGCsOnInvocation: 0,
            nWords: 0,
            preload: false,
            querySurfaceFn: 0,
            skew: 0,
            sourceAlpha: 0,
            sourceBits: 0,
            sourceDelta: 0,
            sourceDepth: 0,
            sourceForm: 0,
            sourceHeight: 0,
            sourceIndex: 0,
            sourceMSB: 0,
            sourcePitch: 0,
            sourcePPW: 0,
            sourceWidth: 0,
            sourceX: 0,
            sourceY: 0,
            srcBitShift: 0,
            sx: 0,
            sy: 0,
            ungammaLookupTable: 0,
            unlockSurfaceFn: 0,
            vDir: 0,
            warpAlignMask: 0,
            warpAlignShift: 0,
            warpBitShiftTable: [0i32; 32],
            warpSrcMask: 0,
            warpSrcShift: 0,
            width: 0,
        }
    }

    /// The table `t` can be read.
    pub open spec fn table_ok(size: nat, t: CmTable) -> bool {
        t matches CmTable::Image(addr) ==> addr + 16 <= size
    }

    /// Entry `i` of the shift table; 0 throughout when there is none.
    pub open spec fn shift_entry(self, m: Seq<u8>, i: int) -> i32 {
        match self.cmShiftTable {
            CmTable::Image(addr) => word_at(m, addr + 4 * i) as i32,
            CmTable::Local => self.cmLocalShifts[i],
            CmTable::Null => 0,
        }
    }

    /// Entry `i` of the mask table; 0 throughout when there is none.
    pub open spec fn mask_entry(self, m: Seq<u8>, i: int) -> u32 {
        match self.cmMaskTable {
            CmTable::Image(addr) => word_at(m, addr + 4 * i),
            CmTable::Local => self.cmLocalMasks[i],
            CmTable::Null => 0,
        }
    }

    /// Reads entry `i` of the shift table.
    pub fn cmShiftAt(&self, mem: &Memory, i: usize) -> (r: i32)
        requires
            i < 4,
            Self::table_ok(mem@.len(), self.cmShiftTable),
        ensures
            r == self.shift_entry(mem@, i as int),
    {
        proof {
            mem.lemma_size();
        }
        match self.cmShiftTable {
            CmTable::Image(addr) => long32At(mem, addr + 4 * (i as UsqInt)) as i32,
            CmTable::Local => self.cmLocalShifts[i],
            CmTable::Null => 0,
        }
    }

    /// Reads entry `i` of the mask table.
    pub fn cmMaskAt(&self, mem: &Memory, i: usize) -> (r: u32)
        requires
            i < 4,
            Self::table_ok(mem@.len(), self.cmMaskTable),
        ensures
            r == self.mask_entry(mem@, i as int),
    {
        proof {
            mem.lemma_size();
        }
        match self.cmMaskTable {
            CmTable::Image(addr) => long32At(mem, addr + 4 * (i as UsqInt)),
            CmTable::Local => self.cmLocalMasks[i],
            CmTable::Null => 0,
        }
    }

    /// The color map holds an entry for every index that `cmMask` admits.
    pub open spec fn lookup_ok(self, size: nat) -> bool {
        &&& 0 <= self.cmMask
        &&& self.cmLookupTable + 4 * (self.cmMask + 1) <= size
    }

    /// Address of the color map entry for `index`.
    pub open spec fn lookup_addr(self, index: sqInt) -> int {
        self.cmLookupTable + 4 * ((index & self.cmMask) as int)
    }

    /// The color map entry for `index`.
    pub open spec fn lookup(self, m: Seq<u8>, index: sqInt) -> u32 {
        word_at(m, self.lookup_addr(index))
    }

    /// Every index leads to an entry of the color map.
    pub(crate) proof fn lemma_lookup_addr(self, m: Seq<u8>, index: sqInt)
        requires
            self.lookup_ok(m.len()),
        ensures
            self.cmLookupTable <= self.lookup_addr(index),
            self.lookup_addr(index) + 4 <= self.cmLookupTable + 4 * (self.cmMask + 1),
            valid_word(m, self.lookup_addr(index)),
    {
        let mask = self.cmMask;
        crate::bitblt::merge::lemma_and_bounds(index, mask);
    }

    /// Reads the color map entry for `index`.
    pub fn cmLookupAt(&self, mem: &Memory, index: sqInt) -> (r: u32)
        requires
            self.lookup_ok(mem@.len()),
        ensures
            r == self.lookup(mem@, index),
    {
        proof {
            mem.lemma_size();
            self.lemma_lookup_addr(mem@, index);
        }
        long32At(mem, self.cmLookupTable + 4 * ((index & self.cmMask) as UsqInt))
    }

    /// Sets the color map entry for `index`.
    pub fn cmLookupAtPut(&self, mem: &mut Memory, index: sqInt, value: u32)
        requires
            self.lookup_ok(old(mem)@.len()),
        ensures
            final(mem)@ == with_word(old(mem)@, self.lookup_addr(index), value),
    {
        proof {
            mem.lemma_size();
            self.lemma_lookup_addr(mem@, index);
        }
        long32Atput(mem, self.cmLookupTable + 4 * ((index & self.cmMask) as UsqInt), value);
    }
}

impl Default for BitBlt {
    fn default() -> (r: Self)
        ensures
            r.is_zeroed(),
    {
        Self::new()
    }
}

} // verus!
