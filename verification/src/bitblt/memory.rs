//! The memory a blit works on.
//!
//! Bitmaps, color maps, halftones and gamma tables are all byte ranges of one
//! [`Memory`], named by the address of their first byte. Source and destination
//! may therefore overlap, exactly as two forms over one bitmap do. Address 0
//! stands for "no table" or "not locked yet" wherever a table or a bitmap is
//! optional, so nothing that is optional is placed there.
use vstd::prelude::*;
use crate::prim::{sqInt, UsqInt};

verus! {

/// A flat little-endian memory.
#[derive(Debug, Clone)]
pub struct Memory {
    bytes: Vec<u8>,
}

impl View for Memory {
    type V = Seq<u8>;

    closed spec fn view(&self) -> Seq<u8> {
        self.bytes@
    }
}

/// The four bytes at `addr` exist.
pub open spec fn valid_word(m: Seq<u8>, addr: int) -> bool {
    0 <= addr && addr + 4 <= m.len()
}

/// The 32-bit word at byte address `addr`, least significant byte first.
#[verifier::opaque]
pub open spec fn word_at(m: Seq<u8>, addr: int) -> u32 {
    (m[addr] as u32) | ((m[addr + 1] as u32) << 8) | ((m[addr + 2] as u32) << 16) | ((m[addr
        + 3] as u32) << 24)
}

/// Byte `i` of a word, least significant first.
pub open spec fn word_byte(value: u32, i: int) -> u8 {
    if i == 0 {
        (value & 0xFF) as u8
    } else if i == 1 {
        ((value >> 8) & 0xFF) as u8
    } else if i == 2 {
        ((value >> 16) & 0xFF) as u8
    } else {
        ((value >> 24) & 0xFF) as u8
    }
}

/// The memory after the word at `addr` has been set to `value`.
#[verifier::opaque]
pub open spec fn with_word(m: Seq<u8>, addr: int, value: u32) -> Seq<u8> {
    Seq::new(
        m.len(),
        |i: int| if addr <= i < addr + 4 {
            word_byte(value, i - addr)
        } else {
            m[i]
        },
    )
}

/// An address after unsigned wraparound.
#[verifier::opaque]
pub open spec fn wrap_addr(x: int) -> UsqInt {
    (x % 0x1_0000_0000_0000_0000) as UsqInt
}

/// Setting a word keeps the size of the memory.
pub broadcast proof fn lemma_with_word_len(m: Seq<u8>, addr: int, value: u32)
    ensures
        #[trigger] with_word(m, addr, value).len() == m.len(),
{
    reveal(with_word);
}

/// What was written is what is read back.
pub broadcast proof fn lemma_word_read_back(m: Seq<u8>, addr: int, value: u32)
    requires
        valid_word(m, addr),
    ensures
        word_at(#[trigger] with_word(m, addr, value), addr) == value,
{
    reveal(with_word);
    reveal(word_at);
    assert(((value & 0xFF) as u8 as u32) | ((((value >> 8) & 0xFF) as u8 as u32) << 8) | ((((value
        >> 16) & 0xFF) as u8 as u32) << 16) | ((((value >> 24) & 0xFF) as u8 as u32) << 24)
        == value) by (bit_vector);
}

/// Writing a word leaves every word that shares no byte with it as it was.
pub broadcast proof fn lemma_word_elsewhere(m: Seq<u8>, addr: int, value: u32, other: int)
    requires
        valid_word(m, addr),
        valid_word(m, other),
        other + 4 <= addr || addr + 4 <= other,
    ensures
        #[trigger] word_at(with_word(m, addr, value), other) == word_at(m, other),
{
    reveal(with_word);
    reveal(word_at);
}

/// An address that exists is not changed by wraparound.
pub broadcast proof fn lemma_wrap_exact(a: int)
    requires
        0 <= a <= UsqInt::MAX,
    ensures
        #[trigger] wrap_addr(a) == a,
{
    reveal(wrap_addr);
}

/// An address `d` bytes on. Stepping an address that has wrapped around is
/// stepping the exact one.
pub fn stepped(addr: UsqInt, d: sqInt) -> (r: UsqInt)
    ensures
        r == wrap_addr(addr + d),
        forall|a: int| addr == #[trigger] wrap_addr(a) ==> r == wrap_addr(a + d),
{
    reveal(wrap_addr);
    addr.wrapping_add_signed(d)
}

/// Sizes and addresses.
pub broadcast group group_memory {
    lemma_with_word_len,
    lemma_wrap_exact,
}

impl Memory {
    /// A memory that holds `bytes`.
    pub fn new(bytes: Vec<u8>) -> (r: Memory)
        ensures
            r@ == bytes@,
    {
        Memory { bytes }
    }

    /// Every address of a byte fits a machine word.
    pub(crate) proof fn lemma_size(&self)
        ensures
            self@.len() <= usize::MAX,
    {
        assert(self.bytes@.len() == self.bytes.len());
    }

    /// How many bytes there are.
    pub fn size(&self) -> (r: usize)
        ensures
            r == self@.len(),
    {
        self.bytes.len()
    }
}

/// Reads the word at a byte address.
pub fn long32At(mem: &Memory, addr: UsqInt) -> (r: u32)
    requires
        valid_word(mem@, addr as int),
    ensures
        r == word_at(mem@, addr as int),
{
    reveal(word_at);
    proof {
        mem.lemma_size();
    }
    let i: usize = addr as usize;
    let b0: u32 = mem.bytes[i] as u32;
    let b1: u32 = mem.bytes[i + 1] as u32;
    let b2: u32 = mem.bytes[i + 2] as u32;
    let b3: u32 = mem.bytes[i + 3] as u32;
    b0 | (b1 << 8) | (b2 << 16) | (b3 << 24)
}

/// Writes the word at a byte address.
pub fn long32Atput(mem: &mut Memory, addr: UsqInt, value: u32)
    requires
        valid_word(old(mem)@, addr as int),
    ensures
        final(mem)@ == with_word(old(mem)@, addr as int, value),
{
    reveal(with_word);
    proof {
        mem.lemma_size();
    }
    let i: usize = addr as usize;
    mem.bytes[i] = (value & 0xFF) as u8;
    mem.bytes[i + 1] = ((value >> 8) & 0xFF) as u8;
    mem.bytes[i + 2] = ((value >> 16) & 0xFF) as u8;
    mem.bytes[i + 3] = ((value >> 24) & 0xFF) as u8;
}

/// Reads the byte at a byte address.
pub fn byteAtPointer(mem: &Memory, addr: UsqInt) -> (r: u8)
    requires
        addr < mem@.len(),
    ensures
        r == mem@[addr as int],
{
    proof {
        mem.lemma_size();
    }
    mem.bytes[addr as usize]
}

} // verus!
