//! The SHA-1 block function.
use vstd::prelude::*;

verus! {

pub const K1: u32 = 1_518_500_249;
pub const K2: u32 = 1_859_775_393;
pub const K3: u32 = 2_400_959_708;
pub const K4: u32 = 3_395_469_782;

/// A word rotated left.
pub open spec fn rotated(x: u32, n: u32) -> u32 {
    (x << n) | (x >> ((32 - n) as u32))
}

fn rotate(x: u32, n: u32) -> (r: u32)
    requires
        0 < n < 32,
    ensures
        r == rotated(x, n),
{
    (x << n) | (x >> (32 - n))
}

/// The big-endian word at byte `4 * i` of a block.
pub open spec fn block_word(block: Seq<u8>, i: int) -> u32 {
    ((block[4 * i] as u32) << 24) | ((block[4 * i + 1] as u32) << 16) | ((block[4 * i + 2] as u32)
        << 8) | (block[4 * i + 3] as u32)
}

/// Word `i` of the message schedule: a word of the block, or the rotated
/// exclusive-or of four earlier words.
pub open spec fn schedule(block: Seq<u8>, i: int) -> u32
    decreases i,
{
    if i < 16 {
        block_word(block, i)
    } else {
        rotated(
            schedule(block, i - 3) ^ schedule(block, i - 8) ^ schedule(block, i - 14) ^ schedule(
                block,
                i - 16,
            ),
            1,
        )
    }
}

/// Expands a block of 64 bytes into the message schedule of 80 words.
pub fn expand_block(block: &[u8; 64]) -> (r: [u32; 80])
    ensures
        forall|i: int| 0 <= i < 80 ==> r[i] == schedule(block@, i),
{
    let mut w: [u32; 80] = [0u32; 80];
    let mut i: usize = 0;
    while i < 16
        invariant
            i <= 16,
            forall|j: int| 0 <= j < i ==> w[j] == schedule(block@, j),
        decreases 16 - i,
    {
        w[i] = ((block[4 * i] as u32) << 24) | ((block[4 * i + 1] as u32) << 16) | ((block[4 * i
            + 2] as u32) << 8) | (block[4 * i + 3] as u32);
        i = i + 1;
    }
    while i < 80
        invariant
            16 <= i <= 80,
            forall|j: int| 0 <= j < i ==> w[j] == schedule(block@, j),
        decreases 80 - i,
    {
        w[i] = rotate(w[i - 3] ^ w[i - 8] ^ w[i - 14] ^ w[i - 16], 1);
        i = i + 1;
    }
    w
}

/// The five words that the rounds go through.
pub struct Round {
    pub a: u32,
    pub b: u32,
    pub c: u32,
    pub d: u32,
    pub e: u32,
}

/// The constant of round `i`.
pub open spec fn round_constant(i: int) -> u32 {
    if i < 20 {
        K1
    } else if i < 40 {
        K2
    } else if i < 60 {
        K3
    } else {
        K4
    }
}

/// The function of round `i`: choose, parity, majority, parity.
pub open spec fn round_function(i: int, b: u32, c: u32, d: u32) -> u32 {
    if i < 20 {
        (b & c) | (!b & d)
    } else if i < 40 {
        b ^ c ^ d
    } else if i < 60 {
        (b & c) | (b & d) | (c & d)
    } else {
        b ^ c ^ d
    }
}

/// The words after `i` rounds.
pub open spec fn rounds(start: Round, w: Seq<u32>, i: int) -> Round
    decreases i,
{
    if i <= 0 {
        start
    } else {
        let s = rounds(start, w, i - 1);
        Round {
            a: round_constant(i - 1).wrapping_add(
                round_function(i - 1, s.b, s.c, s.d),
            ).wrapping_add(rotated(s.a, 5)).wrapping_add(s.e).wrapping_add(w[i - 1]),
            b: s.a,
            c: rotated(s.b, 30),
            d: s.c,
            e: s.d,
        }
    }
}

/// The hash state after a block: what 80 rounds make of it, added to it word by
/// word.
pub open spec fn hashed(state: [u32; 5], w: Seq<u32>) -> [u32; 5] {
    let s = rounds(
        Round { a: state[0], b: state[1], c: state[2], d: state[3], e: state[4] },
        w,
        80,
    );
    [
        state[0].wrapping_add(s.a),
        state[1].wrapping_add(s.b),
        state[2].wrapping_add(s.c),
        state[3].wrapping_add(s.d),
        state[4].wrapping_add(s.e),
    ]
}

/// Runs the rounds over an expanded block and adds the outcome into the state.
pub fn hash_block(state: &mut [u32; 5], w: &[u32; 80])
    ensures
        *final(state) == hashed(*old(state), w@),
{
    let mut a: u32 = state[0];
    let mut b: u32 = state[1];
    let mut c: u32 = state[2];
    let mut d: u32 = state[3];
    let mut e: u32 = state[4];
    let ghost start = Round { a, b, c, d, e };
    let ghost before = *state;
    let mut i: usize = 0;
    while i < 80
        invariant
            i <= 80,
            (Round { a, b, c, d, e }) == rounds(start, w@, i as int),
        decreases 80 - i,
    {
        let (k, f): (u32, u32) = if i < 20 {
            (K1, (b & c) | (!b & d))
        } else if i < 40 {
            (K2, b ^ c ^ d)
        } else if i < 60 {
            (K3, (b & c) | (b & d) | (c & d))
        } else {
            (K4, b ^ c ^ d)
        };
        let tmp: u32 = k.wrapping_add(f).wrapping_add(rotate(a, 5)).wrapping_add(e).wrapping_add(
            w[i],
        );
        e = d;
        d = c;
        c = rotate(b, 30);
        b = a;
        a = tmp;
        i = i + 1;
    }
    state[0] = state[0].wrapping_add(a);
    state[1] = state[1].wrapping_add(b);
    state[2] = state[2].wrapping_add(c);
    state[3] = state[3].wrapping_add(d);
    state[4] = state[4].wrapping_add(e);
    assert(*state =~= hashed(before, w@));
}

} // verus!
