//! Loading the registers from the object that describes a blit.
//!
//! The virtual machine's objects are handed over as plain values: what kind of
//! object a slot holds, how large it is, where its contents are.
use vstd::prelude::*;
use crate::prim::{sqInt, UsqInt};
use crate::bitblt::memory::Memory;
use crate::bitblt::state::{
    BitBlt, CmTable, COLOR_MAP_FIXED_PART, COLOR_MAP_INDEXED_PART, COLOR_MAP_NEW_STYLE,
    COLOR_MAP_PRESENT, OP_TABLE_SIZE,
};

verus! {

/// Why a blit could not be loaded.
#[derive(Debug, Clone, Copy, PartialEq, Eq, Structural)]
pub enum LoadError {
    /// Something about the object is amiss.
    Refused,
    /// A surface did not describe itself.
    NoAnswer,
    /// Objects moved while surfaces were asked.
    Moved,
}

/// An integer that fits a slot without a box.
pub open spec fn small(v: int) -> bool {
    -0x1000_0000_0000_0000 <= v < 0x1000_0000_0000_0000
}

// ---- Forms ----------------------------------------------------------------

/// What a surface says of itself.
#[derive(Debug, Clone, Copy, PartialEq, Eq, Structural)]
pub struct SurfaceFormat {
    pub width: i32,
    pub height: i32,
    pub depth: i32,
    pub msb: i32,
}

/// What the bits slot of a form holds.
#[derive(Debug, Clone, Copy, PartialEq, Eq, Structural)]
pub enum FormBits {
    /// The handle of a surface, while the surface entry points are not there.
    Unresolved,
    /// The handle of a surface that did not answer, with what it left behind.
    Silent(SurfaceFormat),
    /// The handle of a surface, with what it says of itself.
    Surface(SurfaceFormat),
    /// Words or bytes.
    Bitmap {
        /// Size in bytes.
        size: sqInt,
        address: UsqInt,
    },
    /// Anything else.
    Other,
}

/// A form.
#[derive(Debug, Clone, Copy, PartialEq, Eq, Structural)]
pub struct FormObject {
    pub oop: sqInt,
    /// The object is nil.
    pub isNil: bool,
    /// The object has the slots of a form.
    pub isForm: bool,
    pub width: sqInt,
    pub height: sqInt,
    /// Bits per pixel; negative when the leftmost pixel is in the low bits.
    pub depth: sqInt,
    pub bits: FormBits,
}

/// The registers of one of the two forms.
#[derive(Debug, Clone, Copy, PartialEq, Eq, Structural)]
pub struct FormGeometry {
    pub width: i32,
    pub height: i32,
    pub depth: i32,
    pub msb: i32,
    pub ppw: sqInt,
    pub pitch: i32,
    pub bits: UsqInt,
}

/// A depth that pixels of at least one bit, and words of at least one pixel,
/// can have.
pub open spec fn usable_depth(depth: int) -> bool {
    1 <= depth <= 32
}

fn depthUsable(depth: i32) -> (r: bool)
    ensures
        r == usable_depth(depth as int),
{
    1 <= depth && depth <= 32
}

/// Bytes from row to row of a bitmap.
pub open spec fn bitmap_pitch(width: int, ppw: int) -> int {
    (width + (ppw - 1)) / ppw * 4
}

impl FormGeometry {
    /// The geometry of a form, or what is left in the registers when the form
    /// is refused.
    pub open spec fn of_form(self, form: FormObject) -> (FormGeometry, Result<(), LoadError>) {
        let width = form.width as i32;
        let height = form.height as i32;
        let depth = form.depth as i32;
        let sized = FormGeometry { width, height, ..self };
        let deep = FormGeometry {
            depth: if depth > 0 {
                depth
            } else {
                (-depth) as i32
            },
            msb: if depth > 0 {
                1
            } else {
                0
            },
            ..sized
        };
        if !form.isForm {
            (self, Err(LoadError::Refused))
        } else if width < 0 || height < 0 {
            (sized, Err(LoadError::Refused))
        } else {
            match form.bits {
                FormBits::Unresolved => (deep, Err(LoadError::Refused)),
                FormBits::Silent(f) => (deep.of_surface(f), Err(LoadError::NoAnswer)),
                FormBits::Surface(f) => if usable_depth(f.depth as int) {
                    (
                        FormGeometry {
                            ppw: (32int / f.depth as int) as sqInt,
                            pitch: 0,
                            bits: 0,
                            ..deep.of_surface(f)
                        },
                        Ok(()),
                    )
                } else {
                    (deep.of_surface(f), Err(LoadError::Refused))
                },
                FormBits::Bitmap { size, address } => if usable_depth(deep.depth as int) {
                    let ppw = 32int / deep.depth as int;
                    let laid = FormGeometry {
                        ppw: ppw as sqInt,
                        pitch: bitmap_pitch(width as int, ppw) as i32,
                        ..deep
                    };
                    if size < laid.pitch * laid.height {
                        (laid, Err(LoadError::Refused))
                    } else {
                        (FormGeometry { bits: address, ..laid }, Ok(()))
                    }
                } else {
                    (deep, Err(LoadError::Refused))
                },
                FormBits::Other => (deep, Err(LoadError::Refused)),
            }
        }
    }

    pub open spec fn of_surface(self, f: SurfaceFormat) -> FormGeometry {
        FormGeometry { width: f.width, height: f.height, depth: f.depth, msb: f.msb, ..self }
    }

    /// Takes over the geometry of a form. Fails if anything about it is amiss.
    pub fn load(&mut self, form: &FormObject) -> (r: Result<(), LoadError>)
        requires
            form.depth as i32 != i32::MIN,
        ensures
            (*final(self), r) == old(self).of_form(*form),
    {
        if !form.isForm {
            return Err(LoadError::Refused);
        }
        self.width = form.width as i32;
        self.height = form.height as i32;
        if self.width < 0 || self.height < 0 {
            return Err(LoadError::Refused);
        }
        self.depth = form.depth as i32;
        if self.depth > 0 {
            self.msb = 1;
        } else {
            self.msb = 0;
            self.depth = -self.depth;
        }
        match form.bits {
            FormBits::Unresolved => Err(LoadError::Refused),
            FormBits::Silent(f) => {
                self.setFormat(f);
                Err(LoadError::NoAnswer)
            },
            FormBits::Surface(f) => {
                self.setFormat(f);
                if !depthUsable(self.depth) {
                    return Err(LoadError::Refused);
                }
                proof {
                    lemma_ppw(self.depth as int);
                }
                self.ppw = 32 / self.depth as sqInt;
                self.bits = 0;
                self.pitch = 0;
                Ok(())
            },
            FormBits::Bitmap { size, address } => {
                if !depthUsable(self.depth) {
                    return Err(LoadError::Refused);
                }
                proof {
                    lemma_ppw(self.depth as int);
                    lemma_pitch(self.width as int, 32int / self.depth as int);
                }
                self.ppw = 32 / self.depth as sqInt;
                self.pitch = ((self.width as sqInt + (self.ppw - 1)) / self.ppw * 4) as i32;
                proof {
                    crate::bitblt::setup::lemma_area(self.height as int, self.pitch as int);
                    assert(self.pitch * self.height == self.height * self.pitch)
                        by (nonlinear_arith);
                }
                if size < self.pitch as sqInt * self.height as sqInt {
                    return Err(LoadError::Refused);
                }
                self.bits = address;
                Ok(())
            },
            FormBits::Other => Err(LoadError::Refused),
        }
    }

    fn setFormat(&mut self, f: SurfaceFormat)
        ensures
            *final(self) == old(self).of_surface(f),
    {
        self.width = f.width;
        self.height = f.height;
        self.depth = f.depth;
        self.msb = f.msb;
    }
}

proof fn lemma_ppw(depth: int)
    requires
        1 <= depth <= 32,
    ensures
        1 <= 32int / depth <= 32,
{
    assert(1 <= 32int / depth <= 32) by (nonlinear_arith)
        requires
            1 <= depth <= 32,
    ;
}

proof fn lemma_pitch(width: int, ppw: int)
    requires
        0 <= width < 0x8000_0000,
        1 <= ppw <= 32,
    ensures
        0 <= (width + (ppw - 1)) / ppw <= width,
{
    assert(0 <= (width + (ppw - 1)) / ppw <= width) by (nonlinear_arith)
        requires
            0 <= width,
            1 <= ppw,
    ;
}

impl BitBlt {
    /// The registers of the destination form.
    pub open spec fn dest_geometry(self) -> FormGeometry {
        FormGeometry {
            width: self.destWidth,
            height: self.destHeight,
            depth: self.destDepth,
            msb: self.destMSB,
            ppw: self.destPPW,
            pitch: self.destPitch,
            bits: self.destBits,
        }
    }

    /// The registers with another destination geometry.
    pub open spec fn with_dest_geometry(self, g: FormGeometry) -> BitBlt {
        BitBlt {
            destWidth: g.width,
            destHeight: g.height,
            destDepth: g.depth,
            destMSB: g.msb,
            destPPW: g.ppw,
            destPitch: g.pitch,
            destBits: g.bits,
            ..self
        }
    }

    /// The registers of the source form.
    pub open spec fn source_geometry(self) -> FormGeometry {
        FormGeometry {
            width: self.sourceWidth,
            height: self.sourceHeight,
            depth: self.sourceDepth,
            msb: self.sourceMSB,
            ppw: self.sourcePPW,
            pitch: self.sourcePitch,
            bits: self.sourceBits,
        }
    }

    /// The registers with another source geometry.
    pub open spec fn with_source_geometry(self, g: FormGeometry) -> BitBlt {
        BitBlt {
            sourceWidth: g.width,
            sourceHeight: g.height,
            sourceDepth: g.depth,
            sourceMSB: g.msb,
            sourcePPW: g.ppw,
            sourcePitch: g.pitch,
            sourceBits: g.bits,
            ..self
        }
    }

    /// Loads the destination form.
    pub fn loadBitBltDestForm(&mut self, form: &FormObject) -> (r: Result<(), LoadError>)
        requires
            form.depth as i32 != i32::MIN,
        ensures
            r == old(self).dest_geometry().of_form(*form).1,
            *final(self) == old(self).with_dest_geometry(
                old(self).dest_geometry().of_form(*form).0,
            ),
    {
        let mut g: FormGeometry = FormGeometry {
            width: self.destWidth,
            height: self.destHeight,
            depth: self.destDepth,
            msb: self.destMSB,
            ppw: self.destPPW,
            pitch: self.destPitch,
            bits: self.destBits,
        };
        let r = g.load(form);
        self.destWidth = g.width;
        self.destHeight = g.height;
        self.destDepth = g.depth;
        self.destMSB = g.msb;
        self.destPPW = g.ppw;
        self.destPitch = g.pitch;
        self.destBits = g.bits;
        r
    }

    /// Loads the source form.
    pub fn loadBitBltSourceForm(&mut self, form: &FormObject) -> (r: Result<(), LoadError>)
        requires
            form.depth as i32 != i32::MIN,
        ensures
            r == old(self).source_geometry().of_form(*form).1,
            *final(self) == old(self).with_source_geometry(
                old(self).source_geometry().of_form(*form).0,
            ),
    {
        let mut g: FormGeometry = FormGeometry {
            width: self.sourceWidth,
            height: self.sourceHeight,
            depth: self.sourceDepth,
            msb: self.sourceMSB,
            ppw: self.sourcePPW,
            pitch: self.sourcePitch,
            bits: self.sourceBits,
        };
        let r = g.load(form);
        self.sourceWidth = g.width;
        self.sourceHeight = g.height;
        self.sourceDepth = g.depth;
        self.sourceMSB = g.msb;
        self.sourcePPW = g.ppw;
        self.sourcePitch = g.pitch;
        self.sourceBits = g.bits;
        r
    }
}

// ---- Color maps -----------------------------------------------------------

/// An object that should be words.
#[derive(Debug, Clone, Copy, PartialEq, Eq, Structural)]
pub enum WordsObject {
    Nil,
    Words {
        /// How many words.
        size: sqInt,
        address: UsqInt,
    },
    Other,
}

impl WordsObject {
    /// The words are within a memory of this size.
    pub open spec fn inside(self, size: nat) -> bool {
        match self {
            WordsObject::Words { size: n, address } => 0 <= n && address + 4 * n <= size,
            _ => true,
        }
    }
}

/// What the color map slot of a blit holds.
#[derive(Debug, Clone, Copy, PartialEq, Eq, Structural)]
pub enum ColorMapObject {
    Nil,
    /// Words alone: a map of the old style.
    Words { size: sqInt, address: UsqInt },
    /// An object with the slots of a color map.
    Parts { shifts: WordsObject, masks: WordsObject, colors: WordsObject },
    Other,
}

impl ColorMapObject {
    /// All words are within a memory of this size.
    pub open spec fn inside(self, size: nat) -> bool {
        match self {
            ColorMapObject::Words { size: n, address } => 0 <= n && address + 4 * n <= size,
            ColorMapObject::Parts { shifts, masks, colors } => {
                &&& shifts.inside(size)
                &&& masks.inside(size)
                &&& colors.inside(size)
            },
            _ => true,
        }
    }
}

/// What comes of loading a color map.
#[derive(Debug, Clone, Copy, PartialEq, Eq, Structural)]
pub struct MapOutcome {
    /// The map was accepted.
    pub ok: bool,
    /// A table of the map was malformed: the blit will fail.
    pub failed: bool,
}

/// The shift or mask table of a color map: four words, or none.
pub open spec fn map_table(t: WordsObject) -> CmTable {
    match t {
        WordsObject::Words { size, address } => if size == 4 {
            CmTable::Image(address)
        } else {
            CmTable::Null
        },
        _ => CmTable::Null,
    }
}

/// The table is there but is not four words.
pub open spec fn map_table_malformed(t: WordsObject) -> bool {
    match t {
        WordsObject::Words { size, address } => size != 4,
        WordsObject::Nil => false,
        WordsObject::Other => true,
    }
}

/// The shift or mask table of a color map, and whether it is malformed.
pub fn loadColorMapShiftOrMaskFrom(t: WordsObject) -> (r: (CmTable, bool))
    ensures
        r.0 == map_table(t),
        r.1 == map_table_malformed(t),
{
    match t {
        WordsObject::Nil => (CmTable::Null, false),
        WordsObject::Words { size, address } => if size == 4 {
            (CmTable::Image(address), false)
        } else {
            (CmTable::Null, true)
        },
        WordsObject::Other => (CmTable::Null, true),
    }
}

/// Bits per color component of a map with this many words.
pub open spec fn bits_per_color(size: int) -> int {
    if size == 512 {
        3
    } else if size == 4096 {
        4
    } else if size == 32768 {
        5
    } else {
        0
    }
}

impl BitBlt {
    /// The registers without a color map.
    pub open spec fn without_map(self) -> BitBlt {
        BitBlt {
            cmFlags: 0,
            cmMask: 0,
            cmBitsPerColor: 0,
            cmShiftTable: CmTable::Null,
            cmMaskTable: CmTable::Null,
            cmLookupTable: 0,
            ..self
        }
    }

    /// The registers once the tables of a map have been found, the number of
    /// words in its lookup table, and whether it can be used so far.
    pub open spec fn with_map_tables(self, map: ColorMapObject) -> (BitBlt, int, bool) {
        let present = BitBlt { cmFlags: COLOR_MAP_PRESENT, ..self.without_map() };
        match map {
            ColorMapObject::Nil => (self.without_map(), 0, true),
            ColorMapObject::Words { size, address } => (
                BitBlt { cmLookupTable: address, ..present },
                size as int,
                true,
            ),
            ColorMapObject::Parts { shifts, masks, colors } => {
                let tabled = BitBlt {
                    cmShiftTable: map_table(shifts),
                    cmMaskTable: map_table(masks),
                    ..present
                };
                let styled = BitBlt { cmFlags: COLOR_MAP_PRESENT | COLOR_MAP_NEW_STYLE, ..tabled };
                match colors {
                    WordsObject::Nil => (styled, 0, true),
                    WordsObject::Words { size, address } => (
                        BitBlt { cmLookupTable: address, ..styled },
                        size as int,
                        true,
                    ),
                    WordsObject::Other => (tabled, 0, false),
                }
            },
            ColorMapObject::Other => (present, 0, false),
        }
    }

    /// The registers with a lookup table of `size` words.
    pub open spec fn with_map_size(self, size: int) -> BitBlt {
        let bits = bits_per_color(size) as sqInt;
        if size == 0 {
            BitBlt { cmLookupTable: 0, cmMask: 0, cmBitsPerColor: bits, ..self }
        } else {
            BitBlt {
                cmMask: (size - 1) as sqInt,
                cmBitsPerColor: bits,
                cmFlags: self.cmFlags | COLOR_MAP_INDEXED_PART,
                ..self
            }
        }
    }

    /// The registers with the fixed part of the map dropped where it changes
    /// nothing.
    pub open spec fn with_fixed_part(self, m: Seq<u8>) -> BitBlt {
        if self.is_identity_map(m) {
            BitBlt { cmMaskTable: CmTable::Null, cmShiftTable: CmTable::Null, ..self }
        } else {
            BitBlt { cmFlags: self.cmFlags | COLOR_MAP_FIXED_PART, ..self }
        }
    }

    /// The registers after a color map was loaded, and whether it was accepted.
    /// A map has a power of two words, or none. Words alone imply a conversion
    /// of colors.
    pub open spec fn with_map(self, m: Seq<u8>, map: ColorMapObject) -> (BitBlt, bool) {
        let (found, size, usable) = self.with_map_tables(map);
        if map is Nil {
            (found, true)
        } else if !usable || (size as sqInt & (size - 1) as sqInt) != 0 {
            (found, false)
        } else {
            let sized = found.with_map_size(size);
            let implied = if map is Words {
                sized.with_implied_masks()
            } else {
                sized
            };
            (implied.with_fixed_part(m), true)
        }
    }

    /// A shift or mask table of the map is malformed. What comes after does not
    /// look at the color words.
    pub open spec fn map_malformed(map: ColorMapObject) -> bool {
        match map {
            ColorMapObject::Parts { shifts, masks, colors } => map_table_malformed(shifts)
                || map_table_malformed(masks),
            _ => false,
        }
    }

    /// Finds the tables of a map. Answers the number of words in its lookup
    /// table, and whether the map can be used so far.
    fn findMapTables(&mut self, map: ColorMapObject) -> (r: (sqInt, bool))
        ensures
            *final(self) == old(self).with_map_tables(map).0,
            r.0 == old(self).with_map_tables(map).1,
            r.1 == old(self).with_map_tables(map).2,
    {
        self.cmFlags = 0;
        self.cmMask = 0;
        self.cmBitsPerColor = 0;
        self.cmShiftTable = CmTable::Null;
        self.cmMaskTable = CmTable::Null;
        self.cmLookupTable = 0;
        match map {
            ColorMapObject::Nil => (0, true),
            ColorMapObject::Words { size, address } => {
                self.cmFlags = COLOR_MAP_PRESENT;
                self.cmLookupTable = address;
                (size, true)
            },
            ColorMapObject::Parts { shifts, masks, colors } => {
                self.cmFlags = COLOR_MAP_PRESENT;
                self.cmShiftTable = loadColorMapShiftOrMaskFrom(shifts).0;
                self.cmMaskTable = loadColorMapShiftOrMaskFrom(masks).0;
                match colors {
                    WordsObject::Nil => {
                        self.cmFlags = self.cmFlags | COLOR_MAP_NEW_STYLE;
                        (0, true)
                    },
                    WordsObject::Words { size, address } => {
                        self.cmLookupTable = address;
                        self.cmFlags = self.cmFlags | COLOR_MAP_NEW_STYLE;
                        (size, true)
                    },
                    WordsObject::Other => (0, false),
                }
            },
            ColorMapObject::Other => {
                self.cmFlags = COLOR_MAP_PRESENT;
                (0, false)
            },
        }
    }

    /// Sets the registers for a lookup table of `cmSize` words.
    fn setMapSize(&mut self, cmSize: sqInt)
        requires
            0 <= cmSize,
        ensures
            *final(self) == old(self).with_map_size(cmSize as int),
    {
        self.cmMask = cmSize - 1;
        self.cmBitsPerColor = if cmSize == 512 {
            3
        } else if cmSize == 4096 {
            4
        } else if cmSize == 32768 {
            5
        } else {
            0
        };
        if cmSize == 0 {
            self.cmLookupTable = 0;
            self.cmMask = 0;
        } else {
            self.cmFlags = self.cmFlags | COLOR_MAP_INDEXED_PART;
        }
    }

    /// Drops the fixed part of the map where it changes nothing.
    fn settleFixedPart(&mut self, mem: &Memory)
        requires
            Self::table_ok(mem@.len(), old(self).cmShiftTable),
            Self::table_ok(mem@.len(), old(self).cmMaskTable),
        ensures
            *final(self) == old(self).with_fixed_part(mem@),
    {
        if self.isIdentityMapwith(mem) {
            self.cmMaskTable = CmTable::Null;
            self.cmShiftTable = CmTable::Null;
        } else {
            self.cmFlags = self.cmFlags | COLOR_MAP_FIXED_PART;
        }
    }

    /// Loads the color map.
    pub fn loadColorMap(&mut self, mem: &Memory, map: ColorMapObject) -> (r: MapOutcome)
        requires
            map.inside(mem@.len()),
        ensures
            (*final(self), r.ok) == old(self).with_map(mem@, map),
            r.failed == BitBlt::map_malformed(map),
    {
        let failed: bool = match map {
            ColorMapObject::Parts { shifts, masks, colors } => {
                loadColorMapShiftOrMaskFrom(shifts).1 || loadColorMapShiftOrMaskFrom(masks).1
            },
            _ => false,
        };
        let (cmSize, usable) = self.findMapTables(map);
        if let ColorMapObject::Nil = map {
            return MapOutcome { ok: true, failed };
        }
        if !usable || cmSize & (cmSize - 1) != 0 {
            return MapOutcome { ok: false, failed };
        }
        self.setMapSize(cmSize);
        if let ColorMapObject::Words { size, address } = map {
            self.setupColorMasks();
        }
        self.settleFixedPart(mem);
        MapOutcome { ok: true, failed }
    }
}

// ---- Halftones ------------------------------------------------------------

/// What the halftone slot of a blit holds, when it is not nil.
#[derive(Debug, Clone, Copy, PartialEq, Eq, Structural)]
pub enum HalftoneObject {
    /// A form, of which only the bits and the height matter.
    Form { height: sqInt, bitsAreWords: bool, address: UsqInt },
    /// Words, one for each row.
    Words { size: sqInt, address: UsqInt },
    Other,
}

impl BitBlt {
    /// The registers after the halftone was loaded, and whether it was accepted.
    pub open spec fn with_halftone(self, h: HalftoneObject) -> (BitBlt, bool) {
        if self.noHalftone {
            (BitBlt { halftoneBase: 0, ..self }, true)
        } else {
            match h {
                HalftoneObject::Form { height, bitsAreWords, address } => (
                    BitBlt {
                        halftoneHeight: height,
                        noHalftone: !bitsAreWords,
                        halftoneBase: address,
                        ..self
                    },
                    bitsAreWords ==> height > 0,
                ),
                HalftoneObject::Words { size, address } => (
                    BitBlt { halftoneHeight: size, halftoneBase: address, ..self },
                    size > 0,
                ),
                HalftoneObject::Other => (self, false),
            }
        }
    }

    /// Loads the halftone.
    pub fn loadHalftoneForm(&mut self, h: HalftoneObject) -> (r: bool)
        ensures
            (*final(self), r) == old(self).with_halftone(h),
    {
        if self.noHalftone {
            self.halftoneBase = 0;
            return true;
        }
        match h {
            HalftoneObject::Form { height, bitsAreWords, address } => {
                self.halftoneHeight = height;
                if !bitsAreWords {
                    self.noHalftone = true;
                }
                self.halftoneBase = address;
            },
            HalftoneObject::Words { size, address } => {
                self.halftoneHeight = size;
                self.halftoneBase = address;
            },
            HalftoneObject::Other => {
                return false;
            },
        }
        self.noHalftone || self.halftoneHeight > 0
    }
}

// ---- Clipping rectangles --------------------------------------------------

/// An interval from `at` with the part below 0 taken off.
pub open spec fn from_zero(at: int, size: int) -> (int, int) {
    if at < 0 {
        (0, size + at)
    } else {
        (at, size)
    }
}

/// An interval cut down to what lies between 0 and `limit`.
pub open spec fn within(at: int, size: int, limit: int) -> (int, int) {
    let (a, n) = from_zero(at, size);
    if a + n > limit {
        (a, limit - a)
    } else {
        (a, n)
    }
}

/// Cuts an interval down to what lies between 0 and `limit`.
fn cutToLimit(at: sqInt, size: sqInt, limit: i32) -> (r: (sqInt, sqInt))
    requires
        small(at as int),
        small(size as int),
    ensures
        r.0 == within(at as int, size as int, limit as int).0,
        r.1 == within(at as int, size as int, limit as int).1,
{
    let mut a: sqInt = at;
    let mut n: sqInt = size;
    if a < 0 {
        n = n + a;
        a = 0;
    }
    if a + n > limit as sqInt {
        n = limit as sqInt - a;
    }
    (a, n)
}

// ---- Blits ----------------------------------------------------------------

/// The object that describes a blit.
#[derive(Debug, Clone, Copy, PartialEq, Eq, Structural)]
pub struct BlitObject {
    pub oop: sqInt,
    /// The object is the receiver of the primitive.
    pub isReceiver: bool,
    /// Collections there had been when the primitive was called, and now.
    pub numGCs: sqInt,
    pub numGCsNow: sqInt,
    /// The combination rule; nothing when it is not an integer.
    pub rule: Option<sqInt>,
    pub source: FormObject,
    pub halftoneOop: sqInt,
    pub halftoneIsNil: bool,
    pub halftone: HalftoneObject,
    pub dest: FormObject,
    pub destX: sqInt,
    pub destY: sqInt,
    /// The extent; nothing for that of the destination.
    pub width: Option<sqInt>,
    pub height: Option<sqInt>,
    /// A slot up to here did not hold what it should.
    pub placementFailed: bool,
    pub colorMap: ColorMapObject,
    pub sourceX: sqInt,
    pub sourceY: sqInt,
    pub clipX: sqInt,
    pub clipY: sqInt,
    /// The extent of the clipping rectangle; nothing for that of the
    /// destination.
    pub clipWidth: Option<sqInt>,
    pub clipHeight: Option<sqInt>,
    /// A slot did not hold what it should.
    pub failed: bool,
}

/// A slot, or what stands for it when it is nil.
pub open spec fn slot_or(slot: Option<sqInt>, default: int) -> int {
    match slot {
        Some(v) => v as int,
        None => default,
    }
}

fn slotOr(slot: Option<sqInt>, default: i32) -> (r: sqInt)
    ensures
        r == slot_or(slot, default as int),
{
    match slot {
        Some(v) => v,
        None => default as sqInt,
    }
}

impl BlitObject {
    /// What every object of the machine keeps to: integers fit their slots and
    /// words are in memory.
    pub open spec fn inv(self, size: nat) -> bool {
        &&& self.source.depth as i32 != i32::MIN
        &&& self.dest.depth as i32 != i32::MIN
        &&& self.colorMap.inside(size)
        &&& small(self.clipX as int)
        &&& small(self.clipY as int)
        &&& small(slot_or(self.clipWidth, 0))
        &&& small(slot_or(self.clipHeight, 0))
    }
}

/// A rule that needs neither source nor halftone.
pub open spec fn is_constant_rule(rule: int) -> bool {
    rule == 0 || rule == 5 || rule == 10 || rule == 15
}

/// There is a rule with this number.
pub open spec fn is_rule(rule: int) -> bool {
    0 <= rule <= OP_TABLE_SIZE - 2 && rule != 16 && rule != 17
}

/// Whether a form is left out of account: it is nil, or the rule needs none.
pub fn ignoreSourceOrHalftone(combinationRule: sqInt, isNil: bool) -> (r: bool)
    ensures
        r == (isNil || is_constant_rule(combinationRule as int)),
{
    isNil || combinationRule == 0 || combinationRule == 5 || combinationRule == 10
        || combinationRule == 15
}

impl BitBlt {
    /// The registers with the object, its rule and its forms noted.
    pub open spec fn with_object(self, o: BlitObject, warping: bool, rule: sqInt) -> BitBlt {
        BitBlt {
            bitBltOop: o.oop,
            isWarping: warping,
            bitBltIsReceiver: o.isReceiver,
            numGCsOnInvocation: o.numGCs,
            combinationRule: rule,
            ..self
        }
    }

    /// The registers with the forms noted.
    pub open spec fn with_forms(self, o: BlitObject) -> BitBlt {
        let constant = is_constant_rule(self.combinationRule as int);
        BitBlt {
            sourceForm: o.source.oop,
            noSource: o.source.isNil || constant,
            halftoneForm: o.halftoneOop,
            noHalftone: o.halftoneIsNil || constant,
            destForm: o.dest.oop,
            ..self
        }
    }

    /// The registers with the destination rectangle.
    pub open spec fn with_placement(self, o: BlitObject) -> BitBlt {
        BitBlt {
            destX: o.destX,
            destY: o.destY,
            width: slot_or(o.width, self.destWidth as int) as sqInt,
            height: slot_or(o.height, self.destHeight as int) as sqInt,
            ..self
        }
    }

    /// The registers with the clipping rectangle, cut down to the destination.
    pub open spec fn with_clip(self, o: BlitObject) -> BitBlt {
        let x = within(
            o.clipX as int,
            slot_or(o.clipWidth, self.destWidth as int),
            self.destWidth as int,
        );
        let y = within(
            o.clipY as int,
            slot_or(o.clipHeight, self.destHeight as int),
            self.destHeight as int,
        );
        BitBlt {
            clipX: x.0 as sqInt,
            clipWidth: x.1 as sqInt,
            clipY: y.0 as sqInt,
            clipHeight: y.1 as sqInt,
            ..self
        }
    }

    /// The registers with the clipping rectangle as it was found.
    pub open spec fn with_raw_clip(self, o: BlitObject) -> BitBlt {
        BitBlt {
            clipX: o.clipX,
            clipY: o.clipY,
            clipWidth: slot_or(o.clipWidth, self.destWidth as int) as sqInt,
            clipHeight: slot_or(o.clipHeight, self.destHeight as int) as sqInt,
            ..self
        }
    }

    /// The registers after the source was loaded, whether it could be, and
    /// whether a table of the color map is malformed.
    #[verifier::opaque]
    pub open spec fn with_source(self, m: Seq<u8>, o: BlitObject) -> (
        BitBlt,
        Result<(), LoadError>,
        bool,
    ) {
        if self.noSource {
            (BitBlt { sourceX: 0, sourceY: 0, ..self }, Ok(()), false)
        } else {
            let (g, found) = self.source_geometry().of_form(o.source);
            let formed = self.with_source_geometry(g);
            if found is Err {
                (formed, found, false)
            } else {
                let (mapped, ok) = formed.with_map(m, o.colorMap);
                if !ok {
                    (mapped, Err(LoadError::Refused), BitBlt::map_malformed(o.colorMap))
                } else {
                    let masked = if mapped.cmFlags & COLOR_MAP_NEW_STYLE == 0 {
                        mapped.with_implied_masks()
                    } else {
                        mapped
                    };
                    (
                        BitBlt { sourceX: o.sourceX, sourceY: o.sourceY, ..masked },
                        Ok(()),
                        BitBlt::map_malformed(o.colorMap),
                    )
                }
            }
        }
    }

    /// The registers after the halftone and the clipping rectangle were loaded,
    /// and whether the blit can go ahead.
    #[verifier::opaque]
    pub open spec fn with_rest(self, o: BlitObject, failed: bool) -> (
        BitBlt,
        Result<(), LoadError>,
    ) {
        let (toned, ok) = self.with_halftone(o.halftone);
        if !ok {
            (toned, Err(LoadError::Refused))
        } else if failed {
            (toned.with_raw_clip(o), Err(LoadError::Refused))
        } else {
            (
                toned.with_clip(o),
                if o.numGCs != o.numGCsNow {
                    Err(LoadError::Moved)
                } else {
                    Ok(())
                },
            )
        }
    }

    /// The registers after a blit was loaded, and whether it could be.
    pub open spec fn loaded(self, m: Seq<u8>, o: BlitObject, warping: bool) -> (
        BitBlt,
        Result<(), LoadError>,
    ) {
        let ruled = self.with_object(
            o,
            warping,
            match o.rule {
                Some(r) => r,
                None => 0,
            },
        );
        if o.rule is None || !is_rule(ruled.combinationRule as int) {
            (ruled, Err(LoadError::Refused))
        } else {
            let noted = ruled.with_forms(o);
            let (g, found) = noted.dest_geometry().of_form(o.dest);
            let formed = noted.with_dest_geometry(g);
            if found is Err {
                (formed, found)
            } else if o.placementFailed {
                (formed.with_placement(o), Err(LoadError::Refused))
            } else {
                let (sourced, ok, malformed) = formed.with_placement(o).with_source(m, o);
                if ok is Err {
                    (sourced, ok)
                } else {
                    sourced.with_rest(o, o.failed || malformed)
                }
            }
        }
    }

    fn loadObject(&mut self, o: &BlitObject, warping: bool) -> (r: bool)
        ensures
            *final(self) == old(self).with_object(
                *o,
                warping,
                match o.rule {
                    Some(r) => r,
                    None => 0,
                },
            ),
            r == (o.rule is Some && is_rule(o.rule->0 as int)),
    {
        self.bitBltOop = o.oop;
        self.isWarping = warping;
        self.bitBltIsReceiver = o.isReceiver;
        self.numGCsOnInvocation = o.numGCs;
        match o.rule {
            None => {
                self.combinationRule = 0;
                false
            },
            Some(rule) => {
                self.combinationRule = rule;
                0 <= rule && rule <= OP_TABLE_SIZE - 2 && rule != 16 && rule != 17
            },
        }
    }

    fn loadForms(&mut self, o: &BlitObject)
        ensures
            *final(self) == old(self).with_forms(*o),
    {
        self.sourceForm = o.source.oop;
        self.noSource = ignoreSourceOrHalftone(self.combinationRule, o.source.isNil);
        self.halftoneForm = o.halftoneOop;
        self.noHalftone = ignoreSourceOrHalftone(self.combinationRule, o.halftoneIsNil);
        self.destForm = o.dest.oop;
    }

    fn loadPlacement(&mut self, o: &BlitObject)
        ensures
            *final(self) == old(self).with_placement(*o),
    {
        self.destX = o.destX;
        self.destY = o.destY;
        self.width = slotOr(o.width, self.destWidth);
        self.height = slotOr(o.height, self.destHeight);
    }

    fn loadSource(&mut self, mem: &Memory, o: &BlitObject) -> (r: (Result<(), LoadError>, bool))
        requires
            o.inv(mem@.len()),
        ensures
            (*final(self), r.0, r.1) == old(self).with_source(mem@, *o),
    {
        reveal(BitBlt::with_source);
        if self.noSource {
            self.sourceX = 0;
            self.sourceY = 0;
            return (Ok(()), false);
        }
        let found = self.loadBitBltSourceForm(&o.source);
        if found.is_err() {
            return (found, false);
        }
        let map: MapOutcome = self.loadColorMap(mem, o.colorMap);
        if !map.ok {
            return (Err(LoadError::Refused), map.failed);
        }
        proof {
            old(self).with_source_geometry(
                old(self).source_geometry().of_form(o.source).0,
            ).lemma_map_bits(mem@, o.colorMap);
        }
        if self.cmFlags & COLOR_MAP_NEW_STYLE == 0 {
            self.setupColorMasks();
        }
        self.sourceX = o.sourceX;
        self.sourceY = o.sourceY;
        (Ok(()), map.failed)
    }

    /// A map that was accepted tells at most 5 bits per color.
    proof fn lemma_map_bits(self, m: Seq<u8>, map: ColorMapObject)
        requires
            self.with_map(m, map).1,
        ensures
            0 <= self.with_map(m, map).0.cmBitsPerColor <= 5,
    {
    }

    fn loadClip(&mut self, o: &BlitObject)
        requires
            small(o.clipX as int),
            small(o.clipY as int),
            small(slot_or(o.clipWidth, 0)),
            small(slot_or(o.clipHeight, 0)),
        ensures
            *final(self) == old(self).with_clip(*o),
    {
        let (x, w) = cutToLimit(o.clipX, slotOr(o.clipWidth, self.destWidth), self.destWidth);
        let (y, h) = cutToLimit(o.clipY, slotOr(o.clipHeight, self.destHeight), self.destHeight);
        self.clipX = x;
        self.clipWidth = w;
        self.clipY = y;
        self.clipHeight = h;
    }

    fn loadRest(&mut self, o: &BlitObject, failed: bool) -> (r: Result<(), LoadError>)
        requires
            small(o.clipX as int),
            small(o.clipY as int),
            small(slot_or(o.clipWidth, 0)),
            small(slot_or(o.clipHeight, 0)),
        ensures
            (*final(self), r) == old(self).with_rest(*o, failed),
    {
        reveal(BitBlt::with_rest);
        if !self.loadHalftoneForm(o.halftone) {
            return Err(LoadError::Refused);
        }
        if failed {
            self.clipX = o.clipX;
            self.clipY = o.clipY;
            self.clipWidth = slotOr(o.clipWidth, self.destWidth);
            self.clipHeight = slotOr(o.clipHeight, self.destHeight);
            return Err(LoadError::Refused);
        }
        self.loadClip(o);
        if o.numGCs != o.numGCsNow {
            return Err(LoadError::Moved);
        }
        Ok(())
    }

    /// Loads the registers from the object that describes a blit.
    pub fn loadBitBltFromwarping(&mut self, mem: &Memory, o: &BlitObject, warping: bool) -> (r:
        Result<(), LoadError>)
        requires
            o.inv(mem@.len()),
        ensures
            (*final(self), r) == old(self).loaded(mem@, *o, warping),
    {
        if !self.loadObject(o, warping) {
            return Err(LoadError::Refused);
        }
        self.loadForms(o);
        let found = self.loadBitBltDestForm(&o.dest);
        if found.is_err() {
            return found;
        }
        self.loadPlacement(o);
        if o.placementFailed {
            return Err(LoadError::Refused);
        }
        let (ok, malformed) = self.loadSource(mem, o);
        if ok.is_err() {
            return ok;
        }
        self.loadRest(o, o.failed || malformed)
    }
}

} // verus!
