//! The primitives: what is asked of the objects before anything is computed,
//! and what they hold afterwards.
use vstd::prelude::*;
use crate::prim::{sqInt, PrimErr, PrimResult};
use crate::dsa::divide::{
    backs_fit, big_divide, can_divide, divide_steps, quotient_size, Division,
};
use crate::dsa::number::{big_multiply, highest_non_zero_digit_index, product_rows, zero_from};
use crate::dsa::sha::{expand_block, hash_block, hashed, schedule};

verus! {

/// An object that should be a large positive integer: its digits, the least
/// significant first.
#[derive(Debug)]
pub struct IntegerObject {
    pub isLargePositive: bool,
    pub immutable: bool,
    pub digits: Vec<u8>,
}

/// An object that should be bytes.
#[derive(Debug)]
pub struct BytesObject {
    pub isBytes: bool,
    pub bytes: Vec<u8>,
}

/// An object that should be words.
#[derive(Debug)]
pub struct WordsObject {
    pub isWords: bool,
    pub immutable: bool,
    pub words: Vec<u32>,
}

/// Divides `rem` by `div`, leaving the remainder in `rem` and the quotient in
/// `quo`. Nothing changes when it fails.
pub fn primitiveBigDivide(
    rem: &mut IntegerObject,
    div: &IntegerObject,
    quo: &mut IntegerObject,
) -> (r: PrimResult<()>)
    requires
        backs_fit(old(rem).digits@, div.digits@, old(quo).digits@),
    ensures
        r == (if !(old(rem).isLargePositive && div.isLargePositive && old(quo).isLargePositive) {
            Err(PrimErr::BadArgument)
        } else if old(rem).immutable || old(quo).immutable {
            Err(PrimErr::NoModification)
        } else if !can_divide(old(rem).digits@, div.digits@, old(quo).digits@) {
            Err(PrimErr::BadArgument)
        } else {
            Ok(())
        }),
        ({
            let done = divide_steps(
                div.digits@,
                Division { rem: old(rem).digits@, quo: old(quo).digits@, backs: 0 },
                quotient_size(old(rem).digits@, div.digits@),
            );
            &&& final(rem).digits@ == (if r is Ok {
                done.rem
            } else {
                old(rem).digits@
            })
            &&& final(quo).digits@ == (if r is Ok {
                done.quo
            } else {
                old(quo).digits@
            })
        }),
        final(rem).isLargePositive == old(rem).isLargePositive,
        final(rem).immutable == old(rem).immutable,
        final(quo).isLargePositive == old(quo).isLargePositive,
        final(quo).immutable == old(quo).immutable,
{
    if !(rem.isLargePositive && div.isLargePositive && quo.isLargePositive) {
        return Err(PrimErr::BadArgument);
    }
    if rem.immutable || quo.immutable {
        return Err(PrimErr::NoModification);
    }
    match big_divide(
        rem.digits.as_mut_slice(),
        div.digits.as_slice(),
        quo.digits.as_mut_slice(),
    ) {
        Ok(_) => Ok(()),
        Err(e) => Err(e),
    }
}

/// Multiplies `f1` by `f2` into `prod`. Nothing changes when it fails.
pub fn primitiveBigMultiply(
    f1: &IntegerObject,
    f2: &IntegerObject,
    prod: &mut IntegerObject,
) -> (r: PrimResult<()>)
    ensures
        r == (if !(f1.isLargePositive && f2.isLargePositive && old(prod).isLargePositive) {
            Err(PrimErr::BadArgument)
        } else if old(prod).digits@.len() != f1.digits@.len() + f2.digits@.len() {
            Err(PrimErr::BadArgument)
        } else if old(prod).immutable {
            Err(PrimErr::NoModification)
        } else {
            Ok(())
        }),
        final(prod).digits@ == (if r is Ok {
            product_rows(
                f1.digits@,
                f2.digits@,
                old(prod).digits@,
                f1.digits@.len() as int,
            )
        } else {
            old(prod).digits@
        }),
        final(prod).isLargePositive == old(prod).isLargePositive,
        final(prod).immutable == old(prod).immutable,
{
    if !(f1.isLargePositive && f2.isLargePositive && prod.isLargePositive) {
        return Err(PrimErr::BadArgument);
    }
    let size: usize = prod.digits.len();
    if f1.digits.len() > size || f2.digits.len() != size - f1.digits.len() {
        return Err(PrimErr::BadArgument);
    }
    if prod.immutable {
        return Err(PrimErr::NoModification);
    }
    big_multiply(f1.digits.as_slice(), f2.digits.as_slice(), prod.digits.as_mut_slice());
    Ok(())
}

/// Expands a block of 64 bytes into 80 words. Nothing changes when it fails.
pub fn primitiveExpandBlock(buf: &BytesObject, expanded: &mut WordsObject) -> (r: PrimResult<()>)
    ensures
        r == (if !(old(expanded).isWords && buf.isBytes && old(expanded).words@.len() == 80
            && buf.bytes@.len() == 64) {
            Err(PrimErr::BadArgument)
        } else if old(expanded).immutable {
            Err(PrimErr::NoModification)
        } else {
            Ok(())
        }),
        r is Ok ==> final(expanded).words@ == Seq::new(80, |i: int| schedule(buf.bytes@, i)),
        r is Err ==> final(expanded).words@ == old(expanded).words@,
        final(expanded).isWords == old(expanded).isWords,
        final(expanded).immutable == old(expanded).immutable,
{
    if !(expanded.isWords && buf.isBytes && expanded.words.len() == 80 && buf.bytes.len() == 64) {
        return Err(PrimErr::BadArgument);
    }
    if expanded.immutable {
        return Err(PrimErr::NoModification);
    }
    let mut block: [u8; 64] = [0u8; 64];
    let mut i: usize = 0;
    while i < 64
        invariant
            i <= 64,
            buf.bytes@.len() == 64,
            forall|k: int| 0 <= k < i ==> block[k] == buf.bytes@[k],
        decreases 64 - i,
    {
        block[i] = buf.bytes[i];
        i = i + 1;
    }
    assert(block@ =~= buf.bytes@);
    let words: [u32; 80] = expand_block(&block);
    let mut all: Vec<u32> = Vec::new();
    let mut j: usize = 0;
    while j < 80
        invariant
            j <= 80,
            all@.len() == j,
            forall|k: int| 0 <= k < j ==> all@[k] == words[k],
        decreases 80 - j,
    {
        all.push(words[j]);
        j = j + 1;
    }
    assert(all@ =~= Seq::new(80, |i: int| schedule(buf.bytes@, i)));
    expanded.words = all;
    Ok(())
}

/// Hashes 80 words into a state of five. Nothing changes when it fails.
pub fn primitiveHashBlock(buf: &WordsObject, state: &mut WordsObject) -> (r: PrimResult<()>)
    ensures
        r == (if !(old(state).isWords && buf.isWords && old(state).words@.len() == 5
            && buf.words@.len() == 80) {
            Err(PrimErr::BadArgument)
        } else if old(state).immutable {
            Err(PrimErr::NoModification)
        } else {
            Ok(())
        }),
        r is Ok ==> final(state).words@ == hashed(
            [
                old(state).words@[0],
                old(state).words@[1],
                old(state).words@[2],
                old(state).words@[3],
                old(state).words@[4],
            ],
            buf.words@,
        )@,
        r is Err ==> final(state).words@ == old(state).words@,
        final(state).isWords == old(state).isWords,
        final(state).immutable == old(state).immutable,
{
    if !(state.isWords && buf.isWords && state.words.len() == 5 && buf.words.len() == 80) {
        return Err(PrimErr::BadArgument);
    }
    if state.immutable {
        return Err(PrimErr::NoModification);
    }
    let mut w: [u32; 80] = [0u32; 80];
    let mut i: usize = 0;
    while i < 80
        invariant
            i <= 80,
            buf.words@.len() == 80,
            forall|k: int| 0 <= k < i ==> w[k] == buf.words@[k],
        decreases 80 - i,
    {
        w[i] = buf.words[i];
        i = i + 1;
    }
    assert(w@ =~= buf.words@);
    let mut s: [u32; 5] = [
        state.words[0],
        state.words[1],
        state.words[2],
        state.words[3],
        state.words[4],
    ];
    hash_block(&mut s, &w);
    let mut all: Vec<u32> = Vec::new();
    all.push(s[0]);
    all.push(s[1]);
    all.push(s[2]);
    all.push(s[3]);
    all.push(s[4]);
    assert(all@ =~= s@);
    state.words = all;
    Ok(())
}

/// The index of the highest digit that is not 0, counted from 1.
pub fn primitiveHighestNonZeroDigitIndex(n: &IntegerObject) -> (r: PrimResult<sqInt>)
    requires
        n.digits@.len() < sqInt::MAX,
    ensures
        !n.isLargePositive ==> r == Err::<sqInt, PrimErr>(PrimErr::BadArgument),
        n.isLargePositive ==> r is Ok && {
            let i = r->Ok_0 as int;
            &&& 1 <= i
            &&& zero_from(n.digits@, i)
            &&& i <= n.digits@.len() && n.digits@[i - 1] != 0 || i == 1
        },
{
    if !n.isLargePositive {
        return Err(PrimErr::BadArgument);
    }
    let i: usize = highest_non_zero_digit_index(n.digits.as_slice());
    assert(i <= n.digits@.len() || i == 1);
    Ok(i as sqInt)
}

} // verus!
