//! Path encoding.
//!
//! Image and platform both use UTF-8. A path is passed through character by
//! character; what is not UTF-8 is replaced.
use vstd::prelude::*;
use vstd::utf8::{
    is_continuation_byte, length_of_first_scalar, pop_first_scalar, take_first_scalar, valid_utf8,
    valid_first_scalar,
};

verus! {

/// What stands for bytes that are not a character.
pub const REPLACEMENT: u8 = 0x3F;

/// How many of the highest bits of a byte are 1.
pub open spec fn leading_ones(c: u8) -> int {
    if c < 0x80 {
        0
    } else if c < 0xC0 {
        1
    } else if c < 0xE0 {
        2
    } else if c < 0xF0 {
        3
    } else if c < 0xF8 {
        4
    } else if c < 0xFC {
        5
    } else if c < 0xFE {
        6
    } else if c < 0xFF {
        7
    } else {
        8
    }
}

/// How many bytes are passed over where there is no character: as many as the
/// first byte announces, as far as there are any. The two bytes that announce
/// nothing count for one.
pub open spec fn skipped(from: Seq<u8>) -> int {
    let n = if from[0] >= 0xFE {
        1
    } else {
        leading_ones(from[0])
    };
    if n < 1 {
        1
    } else if n > from.len() {
        from.len() as int
    } else {
        n
    }
}

/// The bytes passed through, with room for `room` of them. The first character
/// that does not fit ends the conversion.
pub open spec fn converted(from: Seq<u8>, room: int) -> Seq<u8>
    decreases from.len(),
{
    if from.len() == 0 {
        Seq::empty()
    } else if valid_first_scalar(from) {
        let n = length_of_first_scalar(from);
        if n > room {
            Seq::empty()
        } else {
            take_first_scalar(from) + converted(from.subrange(n, from.len() as int), room - n)
        }
    } else {
        let rest = from.subrange(skipped(from), from.len() as int);
        if room > 0 {
            seq![REPLACEMENT] + converted(rest, room - 1)
        } else {
            converted(rest, room)
        }
    }
}

fn isContinuation(b: u8) -> (r: bool)
    ensures
        r == is_continuation_byte(b),
{
    0x80 <= b && b <= 0xBF
}

/// The length of the character at `i`, 0 where there is none.
fn characterLength(from: &[u8], i: usize) -> (r: usize)
    requires
        i < from@.len(),
    ensures
        ({
            let rest = from@.subrange(i as int, from@.len() as int);
            if valid_first_scalar(rest) {
                r == length_of_first_scalar(rest) && 1 <= r <= 4 && i + r <= from@.len()
            } else {
                r == 0
            }
        }),
{
    let ghost rest = from@.subrange(i as int, from@.len() as int);
    let size: usize = from.len();
    let left: usize = size - i;
    let b0: u8 = from[i];
    assert(rest[0] == b0);
    if b0 <= 0x7F {
        proof {
            lemma_low_bits(b0);
        }
        return 1;
    }
    if b0 < 0xC0 || b0 > 0xF7 || left < 2 {
        return 0;
    }
    let b1: u8 = from[i + 1];
    assert(rest[1] == b1);
    if !isContinuation(b1) {
        return 0;
    }
    if b0 <= 0xDF {
        let code: u32 = (((b0 & 0x1F) as u32) << 6) | ((b1 & 0x3F) as u32);
        proof {
            lemma_two_bytes(b0, b1);
        }
        return if code >= 0x80 {
            2
        } else {
            0
        };
    }
    if left < 3 {
        return 0;
    }
    let b2: u8 = from[i + 2];
    assert(rest[2] == b2);
    if !isContinuation(b2) {
        return 0;
    }
    if b0 <= 0xEF {
        let code: u32 = (((b0 & 0x0F) as u32) << 12) | (((b1 & 0x3F) as u32) << 6) | ((b2
            & 0x3F) as u32);
        return if code >= 0x800 && !(0xD800 <= code && code <= 0xDFFF) {
            3
        } else {
            0
        };
    }
    if left < 4 {
        return 0;
    }
    let b3: u8 = from[i + 3];
    assert(rest[3] == b3);
    if !isContinuation(b3) {
        return 0;
    }
    let code: u32 = (((b0 & 0x07) as u32) << 18) | (((b1 & 0x3F) as u32) << 12) | (((b2
        & 0x3F) as u32) << 6) | ((b3 & 0x3F) as u32);
    if 0x10000 <= code && code <= 0x10FFFF {
        4
    } else {
        0
    }
}

fn skipCount(from: &[u8], i: usize) -> (r: usize)
    requires
        i < from@.len(),
    ensures
        r == skipped(from@.subrange(i as int, from@.len() as int)),
        1 <= r <= from@.len() - i,
{
    let c: u8 = from[i];
    let left: usize = from.len() - i;
    let n: usize = if c >= 0xFE || c < 0xC0 {
        1
    } else if c < 0xE0 {
        2
    } else if c < 0xF0 {
        3
    } else if c < 0xF8 {
        4
    } else if c < 0xFC {
        5
    } else {
        6
    };
    if n > left {
        left
    } else {
        n
    }
}

/// Passes UTF-8 through and replaces what is not. There is room for
/// `content_cap` bytes. A byte of 0 is UTF-8 like any other and is passed through;
/// where a path ends at its first one, the path is cut there afterwards.
pub fn convert_utf8_lossy(from: &[u8], content_cap: usize) -> (r: Vec<u8>)
    ensures
        r@ == converted(from@, content_cap as int),
        r@.len() <= content_cap,
{
    let mut out: Vec<u8> = Vec::new();
    let size: usize = from.len();
    let mut i: usize = 0;
    assert(from@.subrange(0, size as int) =~= from@);
    assert(out@ + converted(from@, content_cap as int) =~= converted(from@, content_cap as int));
    while i < size
        invariant
            size == from@.len(),
            i <= size,
            out@.len() <= content_cap,
            out@ + converted(from@.subrange(i as int, size as int), content_cap - out@.len())
                == converted(from@, content_cap as int),
        decreases size - i,
    {
        let ghost rest = from@.subrange(i as int, size as int);
        let ghost before = out@;
        let room: usize = content_cap - out.len();
        let n: usize = characterLength(from, i);
        if n > 0 {
            if n > room {
                assert(before + Seq::<u8>::empty() =~= before);
                return out;
            }
            let mut k: usize = 0;
            while k < n
                invariant
                    size == from@.len(),
                    k <= n,
                    i + n <= size,
                    out@ == before + from@.subrange(i as int, i + k),
                decreases n - k,
            {
                out.push(from[i + k]);
                k = k + 1;
                assert(out@ =~= before + from@.subrange(i as int, i + k));
            }
            proof {
                assert(take_first_scalar(rest) =~= from@.subrange(i as int, i + n));
                assert(rest.subrange(n as int, rest.len() as int) =~= from@.subrange(
                    i + n,
                    size as int,
                ));
                let tail = converted(
                    from@.subrange(i + n, size as int),
                    content_cap - before.len() - n,
                );
                assert(before + (take_first_scalar(rest) + tail) =~= out@ + tail);
            }
            i = i + n;
        } else {
            let k: usize = skipCount(from, i);
            if room > 0 {
                out.push(REPLACEMENT);
            }
            proof {
                assert(rest.subrange(k as int, rest.len() as int) =~= from@.subrange(
                    i + k,
                    size as int,
                ));
                let tail = converted(
                    from@.subrange(i + k, size as int),
                    content_cap - out@.len(),
                );
                if room > 0 {
                    assert(before + (seq![REPLACEMENT] + tail) =~= out@ + tail);
                }
            }
            i = i + k;
        }
    }
    assert(from@.subrange(i as int, size as int).len() == 0);
    assert(out@ + Seq::<u8>::empty() =~= out@);
    out
}

proof fn lemma_low_bits(b: u8)
    by (bit_vector)
    ensures
        (b & 0x7F) <= 0x7F,
{
}

proof fn lemma_two_bytes(b0: u8, b1: u8)
    by (bit_vector)
    ensures
        (((b0 & 0x1F) as u32) << 6) | ((b1 & 0x3F) as u32) <= 0x7FF,
{
}

// ---- Laws -----------------------------------------------------------------

/// The result fits.
pub proof fn lemma_converted_fits(from: Seq<u8>, room: int)
    requires
        0 <= room,
    ensures
        converted(from, room).len() <= room,
    decreases from.len(),
{
    if from.len() > 0 {
        if valid_first_scalar(from) {
            let n = length_of_first_scalar(from);
            if n <= room {
                lemma_converted_fits(from.subrange(n, from.len() as int), room - n);
            }
        } else {
            let rest = from.subrange(skipped(from), from.len() as int);
            lemma_converted_fits(
                rest,
                if room > 0 {
                    room - 1
                } else {
                    room
                },
            );
        }
    }
}

/// UTF-8 that fits is passed through unchanged.
pub proof fn lemma_utf8_is_unchanged(from: Seq<u8>, room: int)
    requires
        valid_utf8(from),
        from.len() <= room,
    ensures
        converted(from, room) == from,
    decreases from.len(),
{
    if from.len() > 0 {
        let n = length_of_first_scalar(from);
        lemma_utf8_is_unchanged(pop_first_scalar(from), room - n);
        assert(take_first_scalar(from) + pop_first_scalar(from) =~= from);
    }
}

/// The result is UTF-8, whatever went in: no character is split, and nothing
/// else gets through.
pub proof fn lemma_converted_is_utf8(from: Seq<u8>, room: int)
    ensures
        valid_utf8(converted(from, room)),
    decreases from.len(),
{
    if from.len() > 0 {
        if valid_first_scalar(from) {
            let n = length_of_first_scalar(from);
            if n <= room {
                let rest = converted(from.subrange(n, from.len() as int), room - n);
                lemma_converted_is_utf8(from.subrange(n, from.len() as int), room - n);
                let whole = take_first_scalar(from) + rest;
                assert(pop_first_scalar(whole) =~= rest);
                assert(valid_first_scalar(whole));
            }
        } else {
            let rest = from.subrange(skipped(from), from.len() as int);
            lemma_converted_is_utf8(rest, room);
            if room > 0 {
                lemma_converted_is_utf8(rest, room - 1);
                let tail = converted(rest, room - 1);
                let whole = seq![REPLACEMENT] + tail;
                lemma_low_bits(REPLACEMENT);
                assert(pop_first_scalar(whole) =~= tail);
                assert(valid_first_scalar(whole));
            }
        }
    }
}

/// Converting twice is converting once.
pub proof fn lemma_convert_twice(from: Seq<u8>, room: int)
    requires
        0 <= room,
    ensures
        converted(converted(from, room), room) == converted(from, room),
{
    lemma_converted_is_utf8(from, room);
    lemma_converted_fits(from, room);
    lemma_utf8_is_unchanged(converted(from, room), room);
}

// ---- Converters -----------------------------------------------------------

/// The two conversions of paths. Both buffers end with a terminator, for which
/// one byte is set aside.
#[derive(Debug, Clone, Copy, PartialEq, Eq, Structural)]
pub struct Converters {}

/// The room that a buffer of this size leaves for what is converted.
pub open spec fn room_in(to_len: int) -> int {
    if to_len > 0 {
        to_len - 1
    } else {
        0
    }
}

impl Default for Converters {
    fn default() -> (r: Self)
        ensures
            r == (Converters {  }),
    {
        Converters {  }
    }
}

impl Converters {
    /// Converts a path of the image for the platform.
    pub fn to_platform(self, input: &[u8], to_len: usize) -> (r: Vec<u8>)
        ensures
            r@ == converted(input@, room_in(to_len as int)),
    {
        convert_utf8_lossy(
            input,
            if to_len > 0 {
                to_len - 1
            } else {
                0
            },
        )
    }

    /// Converts a path of the platform for the image.
    pub fn to_smalltalk(self, input: &[u8], to_len: usize) -> (r: Vec<u8>)
        ensures
            r@ == converted(input@, room_in(to_len as int)),
    {
        convert_utf8_lossy(
            input,
            if to_len > 0 {
                to_len - 1
            } else {
                0
            },
        )
    }
}

/// The size of the buffer that a conversion function is given: room for the
/// terminator at least.
pub fn bufferSize(to_len: usize) -> (r: usize)
    ensures
        r == if to_len > 0 {
            to_len
        } else {
            1
        },
{
    if to_len > 0 {
        to_len
    } else {
        1
    }
}

/// What a conversion function left in a buffer of `to_len` bytes, `n` being the
/// count that it answered: nothing for a negative count, and never more than
/// the buffer holds.
pub fn filled(to: Vec<u8>, n: i32, to_len: usize) -> (r: Vec<u8>)
    ensures
        r@ == to@.take(
            if n < 0 {
                0
            } else if n <= to_len && n <= to@.len() {
                n as int
            } else if to_len <= to@.len() {
                to_len as int
            } else {
                to@.len() as int
            },
        ),
{
    let count: usize = if n < 0 {
        0
    } else {
        n as usize
    };
    let kept: usize = if count < to_len {
        count
    } else {
        to_len
    };
    let mut out: Vec<u8> = to;
    if kept < out.len() {
        out.truncate(kept);
    } else {
        assert(out@ =~= out@.take(out@.len() as int));
    }
    out
}

} // verus!
