//! The signature primitives on known answers and against separate computations.
use pharo_plugins::dsa::divide::big_divide;
use pharo_plugins::dsa::number::{big_multiply, highest_non_zero_digit_index};
use pharo_plugins::dsa::primitives::{
    primitiveBigDivide, primitiveBigMultiply, primitiveExpandBlock, primitiveHashBlock,
    primitiveHighestNonZeroDigitIndex, BytesObject, IntegerObject, WordsObject,
};
use pharo_plugins::dsa::sha::{expand_block, hash_block};
use pharo_plugins::prim::PrimErr;

fn sha1(msg: &[u8]) -> [u8; 20] {
    let mut state: [u32; 5] = [0x6745_2301, 0xEFCD_AB89, 0x98BA_DCFE, 0x1032_5476, 0xC3D2_E1F0];
    let mut data = msg.to_vec();
    data.push(0x80);
    while data.len() % 64 != 56 {
        data.push(0);
    }
    data.extend_from_slice(&((msg.len() as u64) * 8).to_be_bytes());
    for block in data.chunks_exact(64) {
        let mut b = [0u8; 64];
        b.copy_from_slice(block);
        let w = expand_block(&b);
        hash_block(&mut state, &w);
    }
    let mut out = [0u8; 20];
    for (i, s) in state.iter().enumerate() {
        out[i * 4..i * 4 + 4].copy_from_slice(&s.to_be_bytes());
    }
    out
}

fn hex(bytes: &[u8]) -> String {
    bytes.iter().map(|b| format!("{b:02x}")).collect()
}

#[test]
fn sha1_empty_message() {
    assert_eq!(hex(&sha1(b"")), "da39a3ee5e6b4b0d3255bfef95601890afd80709");
}

#[test]
fn sha1_abc() {
    assert_eq!(
        hex(&sha1(b"abc")),
        "a9993e364706816aba3e25717850c26c9cd0d89d"
    );
}

#[test]
fn sha1_two_block_message() {
    assert_eq!(
        hex(&sha1(b"abcdbcdecdefdefgefghfghighijhijkijkljklmklmnlmnomnopnopq")),
        "84983e441c3bd26ebaae4aa1f95129e5e54670f1"
    );
}

#[test]
fn sha1_million_a() {
    assert_eq!(
        hex(&sha1(&vec![b'a'; 1_000_000])),
        "34aa973cd4c4daa4f61eeb2bdbad27316534016f"
    );
}

#[test]
fn expand_block_reads_big_endian() {
    let mut block = [0u8; 64];
    block[0..4].copy_from_slice(&[0x12, 0x34, 0x56, 0x78]);
    block[60..64].copy_from_slice(&[0xDE, 0xAD, 0xBE, 0xEF]);
    let w = expand_block(&block);
    assert_eq!(w[0], 0x1234_5678);
    assert_eq!(w[15], 0xDEAD_BEEF);
}

#[test]
fn expand_block_recurrence_matches_independent_computation() {
    let mut block = [0u8; 64];
    for (i, b) in block.iter_mut().enumerate() {
        *b = (i as u8).wrapping_mul(37).wrapping_add(11);
    }
    let w = expand_block(&block);
    for i in 16..80 {
        let x = w[i - 3] ^ w[i - 8] ^ w[i - 14] ^ w[i - 16];
        assert_eq!(w[i], (x << 1) | (x >> 31), "word {i}");
    }
}

#[test]
fn hash_block_adds_into_state() {
    let w = expand_block(&[0u8; 64]);
    let mut from_zero = [0u32; 5];
    hash_block(&mut from_zero, &w);
    let mut state = [1u32, 2, 3, 4, 5];
    let before = state;
    hash_block(&mut state, &w);
    for i in 0..5 {
        assert_ne!(state[i], from_zero[i].wrapping_add(before[i]),
            "rounds must depend on the incoming state, not just the feed-forward");
    }
}

fn le_digits(v: u128, len: usize) -> Vec<u8> {
    (0..len).map(|i| (v >> (8 * i)) as u8).collect()
}

fn u128_of(digits: &[u8]) -> u128 {
    digits
        .iter()
        .rev()
        .fold(0u128, |acc, &d| (acc << 8) | u128::from(d))
}

fn reference_multiply(f1: &[u8], f2: &[u8]) -> Vec<u8> {
    let mut out = vec![0u8; f1.len() + f2.len()];
    let mut carry: u64 = 0;
    for (k, digit) in out.iter_mut().enumerate() {
        let mut acc = carry;
        for (i, &a) in f1.iter().enumerate().take(k + 1) {
            let j = k - i;
            if j < f2.len() {
                acc += u64::from(a) * u64::from(f2[j]);
            }
        }
        *digit = (acc & 0xFF) as u8;
        carry = acc >> 8;
    }
    out
}

#[test]
fn multiply_known_answers_against_u128() {
    let cases: [(u128, usize, u128, usize); 6] = [
        (0, 1, 0, 1),
        (255, 1, 255, 1),
        (0x1234, 2, 0x5678, 2),
        (0xFFFF_FFFF, 4, 0xFFFF_FFFF, 4),
        (0xDEAD_BEEF_CAFE, 6, 0x0102_0304, 4),
        (u64::MAX as u128, 8, u64::MAX as u128, 8),
    ];
    for (a, alen, b, blen) in cases {
        let f1 = le_digits(a, alen);
        let f2 = le_digits(b, blen);
        let mut prod = vec![0u8; alen + blen];
        big_multiply(&f1, &f2, &mut prod);
        assert_eq!(u128_of(&prod), a * b, "{a:#x} * {b:#x}");
    }
}

#[test]
fn multiply_with_leading_zero_digits() {
    let f1 = vec![0x00, 0xFF, 0x00, 0x00];
    let f2 = vec![0x02, 0x00, 0x00];
    let mut prod = vec![0u8; 7];
    big_multiply(&f1, &f2, &mut prod);
    assert_eq!(u128_of(&prod), 0xFF00 * 2);
}

#[test]
fn multiply_sweep_against_reference() {
    let mut s: u64 = 0x9E37_79B9_7F4A_7C15;
    let mut rand = move || {
        s ^= s << 13;
        s ^= s >> 7;
        s ^= s << 17;
        s
    };
    for _ in 0..500 {
        let alen = 1 + (rand() % 12) as usize;
        let blen = 1 + (rand() % 12) as usize;
        let f1: Vec<u8> = (0..alen).map(|_| rand() as u8).collect();
        let f2: Vec<u8> = (0..blen).map(|_| rand() as u8).collect();
        let mut prod = vec![0u8; alen + blen];
        big_multiply(&f1, &f2, &mut prod);
        assert_eq!(prod, reference_multiply(&f1, &f2));
    }
}

#[test]
fn multiply_preserves_the_c_quirks_on_prefilled_prod() {
    let mut prod = vec![0xFF, 0xFF];
    big_multiply(&[2], &[3], &mut prod);
    assert_eq!(prod, vec![0x05, 0x01]);
}

fn check_divide(a: u128, alen: usize, b: u128, blen: usize) -> u32 {
    let mut rem = le_digits(a, alen);
    let div = le_digits(b, blen);
    let mut quo = vec![0u8; alen.saturating_sub(blen)];
    let add_backs = big_divide(&mut rem, &div, &mut quo)
        .unwrap_or_else(|e| panic!("{a:#x} / {b:#x} failed: {e:?}"));
    assert_eq!(u128_of(&quo), a / b, "quotient of {a:#x} / {b:#x}");
    assert_eq!(u128_of(&rem), a % b, "remainder of {a:#x} / {b:#x}");
    add_backs
}

#[test]
fn divide_known_answers() {
    check_divide(0x1234_5678_9ABC_DEF0, 8, 0x8000, 2);
    check_divide(0x7FFF_FFFF_FFFF_FFFF, 8, 0xFF00_0001, 4);
    check_divide(0xAEAD_BEEF_0BAD_F00D_1234_5678, 12, 0xCAFE_BABE, 4);
    check_divide(u128::MAX >> 1, 16, 0x8000_0000_0000_0001, 8);
}

#[test]
fn divide_when_remainder_shorter_or_equal_is_a_no_op() {
    let mut rem = vec![0x34, 0x12];
    let mut quo = vec![0xAA];
    assert_eq!(big_divide(&mut rem, &[0x01, 0x80], &mut quo), Ok(0));
    assert_eq!(rem, vec![0x34, 0x12]);
    assert_eq!(quo, vec![0xAA]);
}

#[test]
fn divide_first_digit_equal_to_d1_caps_the_estimate() {
    check_divide(0x80FE_FFFF, 4, 0x80FF, 2);
    check_divide(0xFF12_3456_789A, 6, 0xFF80, 2);
}

#[test]
fn divide_estimate_correction_path() {
    let mut rem = le_digits(0x3F81_0000, 4);
    let div = le_digits(0x0080_FF00, 3);
    let mut quo = vec![0u8; 1];
    assert_eq!(big_divide(&mut rem, &div, &mut quo), Ok(0));
    assert_eq!(u128_of(&quo), 0x3F81_0000 / 0x80_FF00);
    assert_eq!(u128_of(&rem), 0x3F81_0000 % 0x80_FF00);
}

#[test]
fn divide_add_back_path() {
    let mut rem = le_digits(0x4000_0000, 4);
    let div = le_digits(0x0080_00FF, 3);
    let mut quo = vec![0u8; 1];
    assert_eq!(big_divide(&mut rem, &div, &mut quo), Ok(1));
    assert_eq!(u128_of(&quo), 0x4000_0000 / 0x80_00FF);
    assert_eq!(u128_of(&rem), 0x4000_0000 % 0x80_00FF);
}

#[test]
fn divide_sweep_against_u128() {
    let mut s: u64 = 0x0123_4567_89AB_CDEF;
    let mut rand = move || {
        s ^= s << 13;
        s ^= s >> 7;
        s ^= s << 17;
        s
    };
    let mut add_backs = 0u32;
    for _ in 0..2000 {
        let blen = 2 + (rand() % 5) as usize;
        let alen = blen + 1 + (rand() % (16 - blen as u64 - 1)) as usize;
        let mut div_digits: Vec<u8> = (0..blen).map(|_| rand() as u8).collect();
        *div_digits.last_mut().unwrap() |= 0x80;
        let mut a_digits: Vec<u8> = (0..alen).map(|_| rand() as u8).collect();
        *a_digits.last_mut().unwrap() &= 0x7F;
        let a = u128_of(&a_digits);
        let b = u128_of(&div_digits);
        let mut rem = a_digits.clone();
        let mut quo = vec![0u8; alen - blen];
        add_backs += big_divide(&mut rem, &div_digits, &mut quo).unwrap();
        assert_eq!(u128_of(&quo), a / b, "quotient of {a:#x} / {b:#x}");
        assert_eq!(u128_of(&rem), a % b, "remainder of {a:#x} / {b:#x}");
    }
    assert!(add_backs < 100);
}

#[test]
fn divide_rejects_what_was_undefined_in_c() {
    assert_eq!(
        big_divide(&mut [1, 2, 3], &[0x80], &mut [0, 0]),
        Err(PrimErr::BadArgument)
    );
    assert_eq!(
        big_divide(&mut [1, 2, 3], &[0xFF, 0x00], &mut [0]),
        Err(PrimErr::BadArgument)
    );
    assert_eq!(
        big_divide(&mut [1, 2, 3, 4], &[0x01, 0x80], &mut [0]),
        Err(PrimErr::BadArgument)
    );
}

#[test]
fn highest_index_matches_the_c_loop() {
    let cases: [(&[u8], usize); 8] = [
        (&[], 1),
        (&[0], 1),
        (&[0, 0], 1),
        (&[5], 1),
        (&[0, 5], 2),
        (&[5, 0], 1),
        (&[1, 2, 3, 4], 4),
        (&[1, 0, 0, 0xFF, 0, 0], 4),
    ];
    for (digits, expected) in cases {
        assert_eq!(highest_non_zero_digit_index(digits), expected, "{digits:?}");
    }
}

fn integer(digits: &[u8]) -> IntegerObject {
    IntegerObject { isLargePositive: true, immutable: false, digits: digits.to_vec() }
}

fn words(words: &[u32]) -> WordsObject {
    WordsObject { isWords: true, immutable: false, words: words.to_vec() }
}

#[test]
fn big_divide_primitive_leaves_quotient_and_remainder() {
    let mut rem = integer(&le_digits(0x1234_5678_9ABC_DEF0, 8));
    let div = integer(&le_digits(0x8000, 2));
    let mut quo = integer(&[0; 6]);
    assert_eq!(primitiveBigDivide(&mut rem, &div, &mut quo), Ok(()));
    assert_eq!(u128_of(&quo.digits), 0x1234_5678_9ABC_DEF0 / 0x8000);
    assert_eq!(u128_of(&rem.digits), 0x1234_5678_9ABC_DEF0 % 0x8000);
}

#[test]
fn big_divide_primitive_refuses_without_changing_anything() {
    let div = integer(&[1, 0x80]);
    let mut quo = integer(&[0]);

    let mut rem = integer(&[1, 2, 3]);
    rem.isLargePositive = false;
    assert_eq!(primitiveBigDivide(&mut rem, &div, &mut quo), Err(PrimErr::BadArgument));

    let mut rem = integer(&[1, 2, 3]);
    rem.immutable = true;
    assert_eq!(primitiveBigDivide(&mut rem, &div, &mut quo), Err(PrimErr::NoModification));

    let mut rem = integer(&[1, 2, 3, 4]);
    assert_eq!(primitiveBigDivide(&mut rem, &div, &mut quo), Err(PrimErr::BadArgument));
    assert_eq!(rem.digits, vec![1, 2, 3, 4]);
    assert_eq!(quo.digits, vec![0]);
}

#[test]
fn division_is_exact_digit_by_digit() {
    let mut rem = vec![0x78, 0x56, 0x34, 0x12];
    let mut quo = vec![0, 0];
    assert_eq!(big_divide(&mut rem, &[0x21, 0x83], &mut quo), Ok(0));
    assert_eq!(u128_of(&quo) * 0x8321 + u128_of(&rem), 0x1234_5678);
    assert!(u128_of(&rem) < 0x8321);
}

#[test]
fn a_product_divided_by_one_factor_gives_the_other() {
    for (q, b) in [
        (vec![0x12, 0x34, 0x56], vec![0x9A, 0xFF]),
        (vec![0, 0, 1], vec![0, 0x80]),
        (vec![0xFF; 7], vec![0xFF; 5]),
        (vec![0; 3], vec![1, 2, 0xC3]),
        (vec![], vec![7, 0x80]),
    ] {
        let mut p = vec![0; q.len() + b.len()];
        big_multiply(&q, &b, &mut p);
        let mut quo = vec![0x5A; q.len()];
        assert!(big_divide(&mut p, &b, &mut quo).is_ok());
        assert_eq!(quo, q);
        assert!(p.iter().all(|d| *d == 0));
    }
}

#[test]
fn big_multiply_primitive_checks_the_size_of_the_product() {
    let f = integer(&[0x34, 0x12]);
    let mut prod = integer(&[0; 4]);
    assert_eq!(primitiveBigMultiply(&f, &f, &mut prod), Ok(()));
    assert_eq!(u128_of(&prod.digits), 0x1234 * 0x1234);

    let mut short = integer(&[0; 3]);
    assert_eq!(primitiveBigMultiply(&f, &f, &mut short), Err(PrimErr::BadArgument));
    assert_eq!(short.digits, vec![0, 0, 0]);

    let mut fixed = integer(&[0; 4]);
    fixed.immutable = true;
    assert_eq!(primitiveBigMultiply(&f, &f, &mut fixed), Err(PrimErr::NoModification));

    let mut other = integer(&[0; 4]);
    other.isLargePositive = false;
    assert_eq!(primitiveBigMultiply(&f, &f, &mut other), Err(PrimErr::BadArgument));
}

#[test]
fn hash_primitives_hash_one_block() {
    let mut block = vec![0u8; 64];
    block[0] = b'a';
    block[1] = b'b';
    block[2] = b'c';
    block[3] = 0x80;
    block[63] = 24;
    let buf = BytesObject { isBytes: true, bytes: block };
    let mut expanded = words(&[0; 80]);
    assert_eq!(primitiveExpandBlock(&buf, &mut expanded), Ok(()));
    assert_eq!(expanded.words[0], 0x6162_6380);
    let mut state = words(&[0x6745_2301, 0xEFCD_AB89, 0x98BA_DCFE, 0x1032_5476, 0xC3D2_E1F0]);
    assert_eq!(primitiveHashBlock(&expanded, &mut state), Ok(()));
    assert_eq!(
        state.words,
        vec![0xA999_3E36, 0x4706_816A, 0xBA3E_2571, 0x7850_C26C, 0x9CD0_D89D]
    );
}

#[test]
fn hash_primitives_refuse_other_sizes_and_kinds() {
    let buf = BytesObject { isBytes: true, bytes: vec![0; 63] };
    let mut expanded = words(&[7; 80]);
    assert_eq!(primitiveExpandBlock(&buf, &mut expanded), Err(PrimErr::BadArgument));
    assert_eq!(expanded.words, vec![7; 80]);

    let buf = BytesObject { isBytes: true, bytes: vec![0; 64] };
    expanded.immutable = true;
    assert_eq!(primitiveExpandBlock(&buf, &mut expanded), Err(PrimErr::NoModification));

    let mut state = words(&[0; 4]);
    assert_eq!(primitiveHashBlock(&expanded, &mut state), Err(PrimErr::BadArgument));
    let mut state = words(&[0; 5]);
    state.immutable = true;
    assert_eq!(primitiveHashBlock(&expanded, &mut state), Err(PrimErr::NoModification));
    state.isWords = false;
    assert_eq!(primitiveHashBlock(&expanded, &mut state), Err(PrimErr::BadArgument));
}

#[test]
fn highest_digit_primitive_wants_a_large_positive_integer() {
    let mut n = integer(&[1, 2, 0]);
    assert_eq!(primitiveHighestNonZeroDigitIndex(&n), Ok(2));
    n.isLargePositive = false;
    assert_eq!(primitiveHighestNonZeroDigitIndex(&n), Err(PrimErr::BadArgument));
}

#[test]
fn the_divisor_is_added_back_at_most_once_for_each_digit() {
    for top in [0x80u8, 0x81, 0xFF] {
        for low in [0u8, 1, 0xFF] {
            let div = [low, 0xFF, 0, top];
            for fill in [0u8, 0x7F, 0x80, 0xFF] {
                let mut rem = [fill, 0, fill, 0xFE, 0, top - 1, 0, fill, top - 1];
                let mut quo = [0u8; 5];
                assert!(big_divide(&mut rem, &div, &mut quo).unwrap() <= 5);
            }
        }
    }
}
