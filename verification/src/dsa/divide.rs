//! Long division of base-256 numbers, by estimating one quotient digit at a
//! time from the highest digits.
use vstd::prelude::*;
use crate::prim::PrimErr;
use crate::dsa::number::{
    digits, lemma_digits_of_value, lemma_digits_unique, lemma_power_pos, lemma_power_sum,
    lemma_product, lemma_value_bound, lemma_value_of_digits, lemma_value_same, lemma_value_split,
    number, power, product_rows, spliced, value, zero_from,
};

verus! {

// ---- What one step does ---------------------------------------------------

/// The first estimate of a quotient digit: the two highest digits of what is
/// left by the highest of the divisor.
pub open spec fn first_guess(top: int, next: int, d1: int) -> int {
    if top == d1 {
        255
    } else {
        (top * 256 + next) / d1
    }
}

/// The estimate is too high for the three highest digits of what is left and
/// the two of the divisor.
pub open spec fn too_high(q: int, two: int, third: int, d1: int, d2: int) -> bool {
    d2 * q > (two - q * d1) * 256 + third
}

/// The estimate of the quotient digit, lowered up to twice where it is too
/// high.
pub open spec fn guess(top: int, next: int, third: int, d1: int, d2: int) -> int {
    let two = top * 256 + next;
    let q = first_guess(top, next, d1);
    if too_high(q, two, third, d1, d2) {
        if too_high(q - 1, two, third, d1, d2) {
            q - 2
        } else {
            q - 1
        }
    } else {
        q
    }
}

/// A division under way.
pub struct Division {
    /// What is left of the dividend.
    pub rem: Seq<u8>,
    pub quo: Seq<u8>,
    /// How often the divisor had to be added back.
    pub backs: int,
}

/// The estimate for the quotient digit that goes with the digits below `j`.
pub open spec fn guess_at(rem: Seq<u8>, div: Seq<u8>, j: int) -> int {
    let n = div.len() as int;
    guess(
        rem[j - 1] as int,
        rem[j - 2] as int,
        rem[j - 3] as int,
        div[n - 1] as int,
        div[n - 2] as int,
    )
}

/// One step: the estimated multiple of the divisor is taken off the digits below
/// `j`; if it was more than they stand for, the divisor is added back once.
pub open spec fn divide_step(div: Seq<u8>, s: Division, j: int) -> Division {
    let n = div.len() as int;
    let at = j - n - 1;
    let w = value(s.rem, at, n + 1);
    let q = guess_at(s.rem, div, j);
    if q * number(div) > w {
        Division {
            rem: spliced(s.rem, at, digits(w - q * number(div) + number(div), n + 1)),
            quo: s.quo.update(at, ((q - 1) % 256) as u8),
            backs: s.backs + 1,
        }
    } else {
        Division {
            rem: spliced(s.rem, at, digits(w - q * number(div), n + 1)),
            quo: s.quo.update(at, (q % 256) as u8),
            backs: s.backs,
        }
    }
}

/// The first `k` steps, from the highest digit of the dividend down.
pub open spec fn divide_steps(div: Seq<u8>, s: Division, k: int) -> Division
    decreases k,
{
    if k <= 0 {
        s
    } else {
        divide_step(div, divide_steps(div, s, k - 1), s.rem.len() - (k - 1))
    }
}

/// How many quotient digits there are.
pub open spec fn quotient_size(rem: Seq<u8>, div: Seq<u8>) -> int {
    if rem.len() > div.len() {
        rem.len() - div.len()
    } else {
        0
    }
}

/// The division can be done: the divisor has two digits or more and a highest
/// digit that is not 0, and there is room for the quotient.
pub open spec fn can_divide(rem: Seq<u8>, div: Seq<u8>, quo: Seq<u8>) -> bool {
    &&& div.len() >= 2
    &&& div[div.len() - 1] != 0
    &&& quotient_size(rem, div) <= quo.len()
}

/// If the division is done, the count of how often the divisor is added back fits
/// its 32 bits.
pub open spec fn backs_fit(rem: Seq<u8>, div: Seq<u8>, quo: Seq<u8>) -> bool {
    can_divide(rem, div, quo) ==> divide_steps(
        div,
        Division { rem, quo, backs: 0 },
        quotient_size(rem, div),
    ).backs <= u32::MAX
}

// ---- Digits modulo a power ------------------------------------------------

/// Digits do not see multiples of the next power.
proof fn lemma_digits_mod(v: int, m: int, n: int)
    requires
        0 <= n,
    ensures
        digits(v + m * power(n), n) == digits(v, n),
{
    assert forall|k: int| 0 <= k < n implies digits(v + m * power(n), n)[k] == digits(v, n)[k] by {
        lemma_power_sum(k, n - k);
        lemma_power_pos(n - k - 1);
        lemma_power_pos(k);
        let pk = power(k);
        let r = power(n - k - 1);
        assert(power(n) == pk * (256 * r));
        assert((v + m * power(n)) / pk == v / pk + (m * r) * 256) by (nonlinear_arith)
            requires
                power(n) == pk * (256 * r),
                pk >= 1,
        {
            assert(v + m * power(n) == v + ((m * r) * 256) * pk) by (nonlinear_arith)
                requires
                    power(n) == pk * (256 * r),
            ;
            assert((v + ((m * r) * 256) * pk) / pk == v / pk + (m * r) * 256) by (nonlinear_arith)
                requires
                    pk >= 1,
            ;
        }
        assert((v / pk + (m * r) * 256) % 256 == (v / pk) % 256);
    }
    assert(digits(v + m * power(n), n) =~= digits(v, n));
}

/// The digits of a number stand for it, up to multiples of the next power.
proof fn lemma_value_mod(v: int, n: int) -> (m: int)
    requires
        0 <= n,
    ensures
        value(digits(v, n), 0, n) == v + m * power(n),
{
    let p = power(n);
    lemma_power_pos(n);
    let low = v % p;
    let q = v / p;
    assert(v == q * p + low && 0 <= low < p) by (nonlinear_arith)
        requires
            1 <= p,
            low == v % p,
            q == v / p,
    ;
    lemma_digits_mod(low, q, n);
    lemma_value_of_digits(low, n);
    assert(low == v + (-q) * p) by (nonlinear_arith)
        requires
            v == q * p + low,
    ;
    -q
}

/// A window of digits that stands for a number, up to multiples of the next
/// power, holds the digits of that number.
proof fn lemma_window(before: Seq<u8>, after: Seq<u8>, at: int, n: int, v: int, m: int)
    requires
        0 <= at,
        0 <= n,
        at + n <= before.len(),
        after.len() == before.len(),
        forall|k: int| 0 <= k < before.len() && !(at <= k < at + n) ==> after[k] == before[k],
        value(after, at, n) == v + m * power(n),
    ensures
        after == spliced(before, at, digits(v, n)),
{
    lemma_digits_mod(v, m, n);
    lemma_digits_unique(after, at, n);
    assert forall|k: int| 0 <= k < after.len() implies after[k] == spliced(
        before,
        at,
        digits(v, n),
    )[k] by {
        if at <= k < at + n {
            assert(digits(value(after, at, n), n)[k - at] == after[at + (k - at)]);
        }
    }
    assert(after =~= spliced(before, at, digits(v, n)));
}

/// What a spliced window stands for.
proof fn lemma_spliced_value(s: Seq<u8>, at: int, n: int, v: int) -> (m: int)
    requires
        0 <= at,
        0 <= n,
        at + n <= s.len(),
    ensures
        value(spliced(s, at, digits(v, n)), at, n) == v + m * power(n),
        0 <= v < power(n) ==> value(spliced(s, at, digits(v, n)), at, n) == v,
{
    let t = spliced(s, at, digits(v, n));
    assert forall|k: int| 0 <= k < n implies t[at + k] == #[trigger] digits(v, n)[0 + k] by {}
    lemma_value_same(t, at, digits(v, n), 0, n);
    if 0 <= v < power(n) {
        lemma_value_of_digits(v, n);
    }
    lemma_value_mod(v, n)
}

// ---- The two passes over the digits ---------------------------------------

/// Takes `q` times the divisor off the digits from `at`. Answers whether that
/// was more than they stand for.
fn subtractMultiple(rem: &mut [u8], div: &[u8], q: i64, at: usize) -> (r: bool)
    requires
        at + div@.len() < old(rem)@.len(),
        0 <= q <= 0xFFFF,
    ensures
        final(rem)@ == spliced(
            old(rem)@,
            at as int,
            digits(
                value(old(rem)@, at as int, div@.len() as int + 1) - q * number(div@),
                div@.len() as int + 1,
            ),
        ),
        r == (q * number(div@) > value(old(rem)@, at as int, div@.len() as int + 1)),
{
    let ghost before = rem@;
    let n: usize = div.len();
    let total: usize = rem.len();
    let mut borrow: i64 = 0;
    let mut i: usize = 0;
    assert(q * 0 == 0);
    while i < n
        invariant
            n == div@.len(),
            before == old(rem)@,
            total == before.len(),
            at + n < total,
            rem@.len() == before.len(),
            0 <= q <= 0xFFFF,
            i <= n,
            0 <= borrow <= 0x1_0000,
            forall|k: int|
                0 <= k < before.len() && !(at <= k < at + i) ==> rem@[k] == before[k],
            value(rem@, at as int, i as int) - borrow * power(i as int) == value(
                before,
                at as int,
                i as int,
            ) - q * value(div@, 0, i as int),
        decreases n - i,
    {
        let ghost now = rem@;
        let ghost old_borrow = borrow as int;
        assert(0 <= div[i as int] * q <= 255 * 0xFFFF) by (nonlinear_arith)
            requires
                0 <= div[i as int] <= 255,
                0 <= q <= 0xFFFF,
        ;
        let prod: i64 = (div[i] as i64) * q + borrow;
        borrow = prod / 256;
        let mut result: i64 = (rem[at + i] as i64) - prod % 256;
        if result < 0 {
            result = result + 256;
            borrow = borrow + 1;
        }
        rem[at + i] = result as u8;
        proof {
            lemma_value_same(now, at as int, rem@, at as int, i as int);
            assert(rem@[at + (i + 1) - 1] == result);
            assert(before[at + (i + 1) - 1] == now[at + i]);
            lemma_subtract_step(
                value(now, at as int, i as int),
                value(before, at as int, i as int),
                value(div@, 0, i as int),
                q as int,
                div@[i as int] as int,
                now[at + i] as int,
                old_borrow,
                result as int,
                borrow as int,
                power(i as int),
            );
            lemma_power_pos(i as int);
        }
        i = i + 1;
    }
    let ghost now = rem@;
    let top: i64 = rem[at + n] as i64;
    let tooBig: bool = top < borrow;
    let left: i64 = if tooBig {
        (top - borrow + 0x1_0100) % 256
    } else {
        top - borrow
    };
    rem[at + n] = left as u8;
    proof {
        let p = power(n as int);
        lemma_value_same(now, at as int, rem@, at as int, n as int);
        lemma_value_bound(now, at as int, n as int);
        lemma_power_pos(n as int);
        let low = value(now, at as int, n as int);
        let w = value(before, at as int, n + 1);
        let m: int = if tooBig {
            (left - (top - borrow)) / 256
        } else {
            0
        };
        assert(left == top - borrow + m * 256);
        assert(before[at + (n + 1) - 1] == top);
        assert(rem@[at + (n + 1) - 1] == left);
        assert(w - q * number(div@) == low + (top - borrow) * p) by (nonlinear_arith)
            requires
                w == value(before, at as int, n as int) + top * p,
                low - borrow * p == value(before, at as int, n as int) - q * number(div@),
        ;
        assert(low + left * p == (low + (top - borrow) * p) + m * (256 * p)) by (nonlinear_arith)
            requires
                left == top - borrow + m * 256,
        ;
        lemma_window(before, rem@, at as int, n + 1, w - q * number(div@), m);
        assert(top < borrow ==> low + (top - borrow) * p < 0) by (nonlinear_arith)
            requires
                0 <= low < p,
        ;
        assert(top >= borrow ==> low + (top - borrow) * p >= 0) by (nonlinear_arith)
            requires
                0 <= low < p,
        ;
    }
    tooBig
}

/// One more digit of a subtraction.
proof fn lemma_subtract_step(
    done: int,
    before: int,
    factor: int,
    q: int,
    d: int,
    old_digit: int,
    borrow: int,
    result: int,
    next: int,
    p: int,
)
    requires
        done - borrow * p == before - q * factor,
        old_digit - (d * q + borrow) == result - 256 * next,
    ensures
        done + result * p - next * (256 * p) == before + old_digit * p - q * (factor + d * p),
{
    assert((result - 256 * next) * p == (old_digit - (d * q + borrow)) * p);
    assert((result - 256 * next) * p == result * p - next * (256 * p)) by (nonlinear_arith);
    assert((old_digit - (d * q + borrow)) * p == old_digit * p - d * q * p - borrow * p)
        by (nonlinear_arith);
    assert(q * (factor + d * p) == q * factor + d * q * p) by (nonlinear_arith);
}

/// Adds the divisor to the digits from `at`.
fn addBack(rem: &mut [u8], div: &[u8], at: usize)
    requires
        at + div@.len() < old(rem)@.len(),
    ensures
        final(rem)@ == spliced(
            old(rem)@,
            at as int,
            digits(
                value(old(rem)@, at as int, div@.len() as int + 1) + number(div@),
                div@.len() as int + 1,
            ),
        ),
{
    let ghost before = rem@;
    let n: usize = div.len();
    let total: usize = rem.len();
    let mut carry: i64 = 0;
    let mut i: usize = 0;
    while i < n
        invariant
            n == div@.len(),
            before == old(rem)@,
            total == before.len(),
            at + n < total,
            rem@.len() == before.len(),
            i <= n,
            0 <= carry <= 1,
            forall|k: int|
                0 <= k < before.len() && !(at <= k < at + i) ==> rem@[k] == before[k],
            value(rem@, at as int, i as int) + carry * power(i as int) == value(
                before,
                at as int,
                i as int,
            ) + value(div@, 0, i as int),
        decreases n - i,
    {
        let ghost now = rem@;
        let ghost old_carry = carry as int;
        let sum: i64 = (rem[at + i] as i64) + (div[i] as i64) + carry;
        let low: i64 = sum % 256;
        carry = sum / 256;
        rem[at + i] = low as u8;
        proof {
            lemma_value_same(now, at as int, rem@, at as int, i as int);
            assert(rem@[at + (i + 1) - 1] == low);
            assert(before[at + (i + 1) - 1] == now[at + i]);
            let p = power(i as int);
            assert((-old_carry) * p == -(old_carry * p)) by (nonlinear_arith);
            lemma_subtract_step(
                value(now, at as int, i as int),
                value(before, at as int, i as int),
                value(div@, 0, i as int),
                -1,
                div@[i as int] as int,
                now[at + i] as int,
                -old_carry,
                low as int,
                -(carry as int),
                power(i as int),
            );
            lemma_power_pos(i as int);
            assert((-(carry as int)) * (256 * p) == -(carry * (256 * p))) by (nonlinear_arith);
        }
        i = i + 1;
    }
    let ghost now = rem@;
    let sum: i64 = (rem[at + n] as i64) + carry;
    let low: i64 = sum % 256;
    rem[at + n] = low as u8;
    proof {
        let p = power(n as int);
        lemma_value_same(now, at as int, rem@, at as int, n as int);
        lemma_power_pos(n as int);
        let w = value(before, at as int, n + 1);
        let m = -(sum as int / 256);
        assert(before[at + (n + 1) - 1] == now[at + n]);
        assert(rem@[at + (n + 1) - 1] == low);
        assert(value(rem@, at as int, n + 1) == w + number(div@) + m * (256 * p))
            by (nonlinear_arith)
            requires
                value(rem@, at as int, n + 1) == value(now, at as int, n as int) + low * p,
                w == value(before, at as int, n as int) + (sum - carry) * p,
                value(now, at as int, n as int) + carry * p == value(before, at as int, n as int)
                    + number(div@),
                low == sum + m * 256,
        ;
        lemma_window(before, rem@, at as int, n + 1, w + number(div@), m);
    }
}

// ---- Division -------------------------------------------------------------

/// The estimate is not negative and not too large for the passes.
proof fn lemma_guess_range(top: int, next: int, third: int, d1: int, d2: int)
    requires
        0 <= top <= 255,
        0 <= next <= 255,
        0 <= third <= 255,
        1 <= d1 <= 255,
        0 <= d2 <= 255,
    ensures
        0 <= guess(top, next, third, d1, d2) <= first_guess(top, next, d1) <= 0xFFFF,
        first_guess(top, next, d1) * d1 <= top * 256 + next,
{
    let two = top * 256 + next;
    let q = first_guess(top, next, d1);
    if top != d1 {
        assert(0 <= two / d1 <= 0xFFFF && (two / d1) * d1 <= two) by (nonlinear_arith)
            requires
                0 <= two <= 0xFFFF,
                1 <= d1,
        ;
    } else {
        assert(255 * d1 <= two);
    }
    assert(0 <= (two - q * d1) * 256 + third);
    assert(q == 0 ==> d2 * q == 0) by (nonlinear_arith);
    assert(q == 1 ==> d2 * (q - 1) == 0) by (nonlinear_arith);
    assert((q - 1) * d1 == q * d1 - d1) by (nonlinear_arith);
}

fn guessDigit(top: i64, next: i64, third: i64, d1: i64, d2: i64) -> (r: i64)
    requires
        0 <= top <= 255,
        0 <= next <= 255,
        0 <= third <= 255,
        1 <= d1 <= 255,
        0 <= d2 <= 255,
    ensures
        r == guess(top as int, next as int, third as int, d1 as int, d2 as int),
        0 <= r <= 0xFFFF,
{
    proof {
        lemma_guess_range(top as int, next as int, third as int, d1 as int, d2 as int);
    }
    let two: i64 = top * 256 + next;
    let mut q: i64 = if top == d1 {
        0xFF
    } else {
        two / d1
    };
    proof {
        assert(0 <= d2 * q <= 255 * 0xFFFF && 0 <= q * d1 <= 0xFFFF * 255) by (nonlinear_arith)
            requires
                0 <= d2 <= 255,
                1 <= d1 <= 255,
                0 <= q <= 0xFFFF,
        ;
        assert((q - 1) * d1 == q * d1 - d1 && d2 * (q - 1) == d2 * q - d2) by (nonlinear_arith);
    }
    if d2 * q > (two - q * d1) * 256 + third {
        q = q - 1;
        if d2 * q > (two - q * d1) * 256 + third {
            q = q - 1;
        }
    }
    q
}

/// One step of a division, at the digits below `j`.
fn divideStep(rem: &mut [u8], div: &[u8], quo: &mut [u8], j: usize, backs: u32) -> (r: u32)
    requires
        div@.len() >= 2,
        div@[div@.len() - 1] != 0,
        div@.len() < j <= old(rem)@.len(),
        j - div@.len() <= old(quo)@.len(),
        divide_step(
            div@,
            Division { rem: old(rem)@, quo: old(quo)@, backs: backs as int },
            j as int,
        ).backs <= u32::MAX,
    ensures
        (Division { rem: final(rem)@, quo: final(quo)@, backs: r as int }) == divide_step(
            div@,
            Division { rem: old(rem)@, quo: old(quo)@, backs: backs as int },
            j as int,
        ),
{
    let ghost before = rem@;
    let n: usize = div.len();
    let at: usize = j - n - 1;
    let ghost w = value(before, at as int, n + 1);
    let ghost d = number(div@);
    let mut q: i64 = guessDigit(
        rem[j - 1] as i64,
        rem[j - 2] as i64,
        rem[j - 3] as i64,
        div[n - 1] as i64,
        div[n - 2] as i64,
    );
    let ghost q0 = q as int;
    let tooBig: bool = subtractMultiple(rem, div, q, at);
    let mut count: u32 = backs;
    if tooBig {
        count = count + 1;
        let ghost mid = rem@;
        addBack(rem, div, at);
        proof {
            lemma_value_bound(before, at as int, n + 1);
            assert(q0 == 0 ==> q0 * d == 0) by (nonlinear_arith);
            let m = lemma_spliced_value(before, at as int, n + 1, w - q0 * d);
            let x = w - q0 * d + d;
            lemma_digits_mod(x, m, n + 1);
            assert(value(mid, at as int, n + 1) + d == x + m * power(n + 1));
            assert(rem@ =~= spliced(before, at as int, digits(x, n + 1)));
        }
        q = q - 1;
    }
    quo[at] = (q % 256) as u8;
    count
}

/// Each further step adds the divisor back once or not at all.
proof fn lemma_more_backs(div: Seq<u8>, s: Division, k: int, n: int)
    requires
        0 <= k <= n,
    ensures
        0 <= divide_steps(div, s, n).backs - divide_steps(div, s, k).backs <= n - k,
    decreases n,
{
    if k < n {
        lemma_more_backs(div, s, k, n - 1);
    }
}

/// Divides `rem` by `div`: what is left stays in `rem`, the quotient goes into
/// the low digits of `quo`. Answers how often the divisor had to be added back.
/// Refuses a divisor of fewer than two digits, one whose highest digit is 0, and
/// a quotient that is too short.
pub fn big_divide(rem: &mut [u8], div: &[u8], quo: &mut [u8]) -> (r: Result<u32, PrimErr>)
    requires
        backs_fit(old(rem)@, div@, old(quo)@),
    ensures
        match r {
            Err(e) => {
                &&& !can_divide(old(rem)@, div@, old(quo)@)
                &&& e == PrimErr::BadArgument
                &&& final(rem)@ == old(rem)@
                &&& final(quo)@ == old(quo)@
            },
            Ok(backs) => {
                &&& can_divide(old(rem)@, div@, old(quo)@)
                &&& (Division { rem: final(rem)@, quo: final(quo)@, backs: backs as int })
                    == divide_steps(
                    div@,
                    Division { rem: old(rem)@, quo: old(quo)@, backs: 0 },
                    quotient_size(old(rem)@, div@),
                )
            },
        },
{
    let ghost start = Division { rem: rem@, quo: quo@, backs: 0 };
    let dn: usize = div.len();
    let rn: usize = rem.len();
    if dn < 2 {
        return Err(PrimErr::BadArgument);
    }
    if div[dn - 1] == 0 {
        return Err(PrimErr::BadArgument);
    }
    if rn > dn && quo.len() < rn - dn {
        return Err(PrimErr::BadArgument);
    }
    let mut backs: u32 = 0;
    let mut j: usize = rn;
    while j > dn
        invariant
            dn == div@.len(),
            rn == start.rem.len(),
            backs_fit(start.rem, div@, start.quo),
            start == (Division { rem: old(rem)@, quo: old(quo)@, backs: 0 }),
            can_divide(start.rem, div@, start.quo),
            j <= rn,
            rn > dn ==> dn <= j,
            rn <= dn ==> j == rn,
            rem@.len() == rn,
            quo@.len() == start.quo.len(),
            (Division { rem: rem@, quo: quo@, backs: backs as int }) == divide_steps(
                div@,
                start,
                rn - j,
            ),
        decreases j,
    {
        proof {
            lemma_more_backs(div@, start, rn - j + 1, quotient_size(start.rem, div@));
        }
        backs = divideStep(rem, div, quo, j, backs);
        j = j - 1;
    }
    assert(rn - j == quotient_size(start.rem, div@));
    Ok(backs)
}

// ---- Laws -----------------------------------------------------------------

/// The divisor is added back at most once for each quotient digit, so that the
/// count fits wherever the number of quotient digits does.
pub proof fn lemma_backs_fit(div: Seq<u8>, rem: Seq<u8>, quo: Seq<u8>)
    ensures
        ({
            let n = quotient_size(rem, div);
            let t = divide_steps(div, Division { rem, quo, backs: 0 }, n);
            &&& 0 <= t.backs <= n
            &&& n <= u32::MAX ==> backs_fit(rem, div, quo)
        }),
{
    let s = Division { rem, quo, backs: 0 };
    lemma_more_backs(div, s, 0, quotient_size(rem, div));
}

/// The estimate is the quotient digit or one more, where the divisor's highest
/// digit is 128 or more and the quotient is one digit. `w` is what is to be
/// divided and `d` the divisor; `low` and `small` are what their highest digits
/// leave, `p` is the weight of the divisor's second digit.
proof fn lemma_guess(
    w: int,
    d: int,
    top: int,
    next: int,
    third: int,
    d1: int,
    d2: int,
    low: int,
    small: int,
    p: int,
)
    requires
        1 <= p,
        0 <= low < p,
        0 <= small < p,
        0 <= top <= 255,
        0 <= next <= 255,
        0 <= third <= 255,
        128 <= d1 <= 255,
        0 <= d2 <= 255,
        w == (top * 65536 + next * 256 + third) * p + low,
        d == (d1 * 256 + d2) * p + small,
        w < 256 * d,
    ensures
        w / d <= guess(top, next, third, d1, d2) <= w / d + 1,
        0 <= w / d <= 255,
{
    let two = top * 256 + next;
    let three = two * 256 + third;
    let v = d1 * 256 + d2;
    let q = w / d;
    let g = first_guess(top, next, d1);
    assert(0 < d) by (nonlinear_arith)
        requires
            d == v * p + small,
            v >= 1,
            p >= 1,
            small >= 0,
    ;
    assert(0 <= w) by (nonlinear_arith)
        requires
            w == three * p + low,
            three >= 0,
            p >= 1,
            low >= 0,
    ;
    assert(q * d <= w < (q + 1) * d && 0 <= q <= 255) by (nonlinear_arith)
        requires
            0 < d,
            0 <= w < 256 * d,
            q == w / d,
    ;
    lemma_guess_range(top, next, third, d1, d2);
    assert(g <= 255) by {
        if top != d1 {
            assert(top < d1) by {
                if top > d1 {
                    assert(false) by (nonlinear_arith)
                        requires
                            top >= d1 + 1,
                            w == (top * 65536 + next * 256 + third) * p + low,
                            d == (d1 * 256 + d2) * p + small,
                            w < 256 * d,
                            0 <= next,
                            0 <= third,
                            0 <= low,
                            small < p,
                            d2 <= 255,
                            1 <= p,
                    {
                        assert(w >= (d1 + 1) * 65536 * p) by (nonlinear_arith)
                            requires
                                top >= d1 + 1,
                                w == (top * 65536 + next * 256 + third) * p + low,
                                0 <= next,
                                0 <= third,
                                0 <= low,
                                1 <= p,
                        ;
                        assert(d <= (d1 * 256 + 255) * p + p) by (nonlinear_arith)
                            requires
                                d == (d1 * 256 + d2) * p + small,
                                small < p,
                                d2 <= 255,
                                1 <= p,
                        ;
                        assert((d1 * 256 + 255) * p + p == (d1 + 1) * 256 * p) by (nonlinear_arith);
                    }
                }
            }
            assert(two / d1 <= 255) by (nonlinear_arith)
                requires
                    two == top * 256 + next,
                    top + 1 <= d1,
                    0 <= top,
                    0 <= next <= 255,
            ;
        }
    }
    // The first estimate is not too low.
    assert(two < (g + 1) * d1 || g == 255) by (nonlinear_arith)
        requires
            g == first_guess(top, next, d1),
            top != d1 ==> g == two / d1,
            top == d1 ==> g == 255,
            d1 >= 1,
    ;
    assert(q <= g) by {
        if g < q {
            assert(g + 1 <= q);
            assert(false) by (nonlinear_arith)
                requires
                    two < (g + 1) * d1,
                    g + 1 <= q,
                    q * d <= w,
                    d == (d1 * 256 + d2) * p + small,
                    w == (two * 256 + third) * p + low,
                    0 <= low < p,
                    0 <= small,
                    0 <= d2,
                    0 <= third <= 255,
                    1 <= p,
                    1 <= d1,
                    0 <= g,
            {
                assert(q * d >= (g + 1) * (d1 * 256 * p)) by (nonlinear_arith)
                    requires
                        g + 1 <= q,
                        0 <= g,
                        d >= d1 * 256 * p,
                        1 <= d1,
                        1 <= p,
                        d == (d1 * 256 + d2) * p + small,
                        0 <= small,
                        0 <= d2,
                ;
                assert((g + 1) * (d1 * 256 * p) == ((g + 1) * d1) * (256 * p)) by (nonlinear_arith);
                assert(((g + 1) * d1) * (256 * p) >= (two + 1) * (256 * p)) by (nonlinear_arith)
                    requires
                        two + 1 <= (g + 1) * d1,
                        1 <= p,
                ;
                assert((two + 1) * (256 * p) >= (two * 256 + third) * p + p) by (nonlinear_arith)
                    requires
                        third <= 255,
                        1 <= p,
                ;
            }
        }
    }
    // An estimate that is too high for the highest digits is too high.
    assert forall|x: int| too_high(x, two, third, d1, d2) && 0 <= x implies q < x by {
        lemma_too_high(w, d, x, two, third, d1, d2, low, small, p);
        if x <= q {
            assert(x * d <= q * d) by (nonlinear_arith)
                requires
                    x <= q,
                    0 < d,
            ;
        }
    }
    // The first estimate is at most two too high.
    assert(g <= q + 2) by {
        lemma_first_guess_close(w, d, g, q, two, d1, d2, third, low, small, p);
    }
    // An estimate that is not too high for the highest digits is at most one
    // too high.
    assert forall|x: int| !too_high(x, two, third, d1, d2) && 0 <= x <= 255 implies x <= q + 1 by {
        lemma_close(w, d, x, q, two, third, d1, d2, low, small, p);
    }
}

/// What is too high for the highest digits is too high for all of them.
proof fn lemma_too_high(
    w: int,
    d: int,
    x: int,
    two: int,
    third: int,
    d1: int,
    d2: int,
    low: int,
    small: int,
    p: int,
)
    requires
        1 <= p,
        0 <= low < p,
        0 <= small,
        0 <= x,
        w == (two * 256 + third) * p + low,
        d == (d1 * 256 + d2) * p + small,
        too_high(x, two, third, d1, d2),
    ensures
        x * d > w,
{
    let v = d1 * 256 + d2;
    let three = two * 256 + third;
    assert(x * v > three) by (nonlinear_arith)
        requires
            d2 * x > (two - x * d1) * 256 + third,
            v == d1 * 256 + d2,
            three == two * 256 + third,
    ;
    assert(x * d >= (three + 1) * p) by (nonlinear_arith)
        requires
            x * v >= three + 1,
            d == v * p + small,
            0 <= small,
            0 <= x,
            1 <= p,
    {
        assert(x * d == (x * v) * p + x * small) by (nonlinear_arith)
            requires
                d == v * p + small,
        ;
        assert((x * v) * p >= (three + 1) * p) by (nonlinear_arith)
            requires
                x * v >= three + 1,
                1 <= p,
        ;
        assert(x * small >= 0) by (nonlinear_arith)
            requires
                0 <= x,
                0 <= small,
        ;
    }
    assert((three + 1) * p == three * p + p) by (nonlinear_arith);
}

/// What is not too high for the highest digits cannot be two too high.
proof fn lemma_close(
    w: int,
    d: int,
    x: int,
    q: int,
    two: int,
    third: int,
    d1: int,
    d2: int,
    low: int,
    small: int,
    p: int,
)
    requires
        1 <= p,
        0 <= low < p,
        0 <= small < p,
        128 <= d1,
        0 <= d2,
        0 <= q,
        0 <= x <= 255,
        w == (two * 256 + third) * p + low,
        d == (d1 * 256 + d2) * p + small,
        w < (q + 1) * d,
        !too_high(x, two, third, d1, d2),
    ensures
        x <= q + 1,
{
    if x > q + 1 {
        let v = d1 * 256 + d2;
        let three = two * 256 + third;
        assert(x * v <= three) by (nonlinear_arith)
            requires
                d2 * x <= (two - x * d1) * 256 + third,
                v == d1 * 256 + d2,
                three == two * 256 + third,
        ;
        assert((x * v) * p <= w) by (nonlinear_arith)
            requires
                x * v <= three,
                w == three * p + low,
                0 <= low,
                1 <= p,
        ;
        assert(d < (v + 1) * p) by (nonlinear_arith)
            requires
                d == v * p + small,
                small < p,
        ;
        assert((q + 1) * d <= (x - 1) * d) by (nonlinear_arith)
            requires
                q + 1 <= x - 1,
                0 <= d,
                d == v * p + small,
                0 <= small,
                1 <= p,
                0 <= v,
        {
            assert(v * p >= 0) by (nonlinear_arith)
                requires
                    0 <= v,
                    1 <= p,
            ;
        }
        assert((x - 1) * d <= (x - 1) * ((v + 1) * p)) by (nonlinear_arith)
            requires
                d <= (v + 1) * p,
                1 <= x,
        ;
        assert((x - 1) * ((v + 1) * p) == (x * v + x - v - 1) * p) by (nonlinear_arith);
        assert((x * v + x - v - 1) * p <= (x * v) * p) by (nonlinear_arith)
            requires
                x - v - 1 <= 0,
                1 <= p,
        ;
    }
}

/// The first estimate cannot be three too high.
proof fn lemma_first_guess_close(
    w: int,
    d: int,
    g: int,
    q: int,
    two: int,
    d1: int,
    d2: int,
    third: int,
    low: int,
    small: int,
    p: int,
)
    requires
        1 <= p,
        0 <= low,
        0 <= small < p,
        0 <= third,
        128 <= d1,
        0 <= d2 <= 255,
        0 <= q,
        g <= 255,
        g * d1 <= two,
        w == (two * 256 + third) * p + low,
        d == (d1 * 256 + d2) * p + small,
        w < (q + 1) * d,
    ensures
        g <= q + 2,
{
    if g > q + 2 {
        let b = 256 * p;
        assert((g * d1) * b <= w) by (nonlinear_arith)
            requires
                g * d1 <= two,
                w == (two * 256 + third) * p + low,
                0 <= third,
                0 <= low,
                1 <= p,
                b == 256 * p,
        {
            assert((two * 256 + third) * p == two * (256 * p) + third * p) by (nonlinear_arith);
            assert(third * p >= 0) by (nonlinear_arith)
                requires
                    0 <= third,
                    1 <= p,
            ;
            assert((g * d1) * b <= two * b) by (nonlinear_arith)
                requires
                    g * d1 <= two,
                    1 <= b,
            ;
        }
        assert(d <= (d1 + 1) * b) by (nonlinear_arith)
            requires
                d == (d1 * 256 + d2) * p + small,
                small < p,
                d2 <= 255,
                1 <= p,
                b == 256 * p,
        ;
        assert(0 <= d) by (nonlinear_arith)
            requires
                d == (d1 * 256 + d2) * p + small,
                0 <= small,
                0 <= d2,
                0 <= d1,
                1 <= p,
        ;
        assert((q + 1) * d <= (g - 2) * d) by (nonlinear_arith)
            requires
                q + 1 <= g - 2,
                0 <= d,
        ;
        assert((g - 2) * d <= (g - 2) * ((d1 + 1) * b)) by (nonlinear_arith)
            requires
                d <= (d1 + 1) * b,
                2 <= g,
        ;
        assert((g - 2) * ((d1 + 1) * b) == (g * d1 + g - 2 * d1 - 2) * b) by (nonlinear_arith);
        assert((g * d1 + g - 2 * d1 - 2) * b <= (g * d1) * b) by (nonlinear_arith)
            requires
                g - 2 * d1 - 2 <= 0,
                1 <= b,
        ;
    }
}

/// The weights of the highest digits.
proof fn lemma_top_digits(s: Seq<u8>, at: int, n: int)
    requires
        3 <= n,
    ensures
        value(s, at, n) == (s[at + n - 1] * 65536 + s[at + n - 2] * 256 + s[at + n - 3]) * power(
            n - 3,
        ) + value(s, at, n - 3),
        value(s, at, n - 1) == (s[at + n - 2] * 256 + s[at + n - 3]) * power(n - 3) + value(
            s,
            at,
            n - 3,
        ),
{
    let p = power(n - 3);
    let (a, b, c) = (s[at + n - 1] as int, s[at + n - 2] as int, s[at + n - 3] as int);
    assert(power(n - 2) == 256 * p && power(n - 1) == 256 * power(n - 2));
    assert(value(s, at, n - 2) == value(s, at, n - 3) + c * p);
    assert(value(s, at, n - 1) == value(s, at, n - 2) + b * (256 * p));
    assert(value(s, at, n) == value(s, at, n - 1) + a * (65536 * p));
    assert((a * 65536 + b * 256 + c) * p == a * (65536 * p) + b * (256 * p) + c * p)
        by (nonlinear_arith);
    assert((b * 256 + c) * p == b * (256 * p) + c * p) by (nonlinear_arith);
}

/// One step finds the right digit, where the divisor's highest digit is 128 or
/// more and the digits below `j` stand for less than 256 times the divisor.
proof fn lemma_step_exact(div: Seq<u8>, s: Division, j: int)
    requires
        div.len() >= 2,
        div[div.len() - 1] >= 128,
        div.len() < j <= s.rem.len(),
        value(s.rem, j - div.len() - 1, div.len() as int + 1) < 256 * number(div),
    ensures
        ({
            let n = div.len() as int;
            let at = j - n - 1;
            let w = value(s.rem, at, n + 1);
            let t = divide_step(div, s, j);
            &&& t.rem == spliced(s.rem, at, digits(w % number(div), n + 1))
            &&& t.quo == s.quo.update(at, (w / number(div)) as u8)
            &&& 0 <= w / number(div) <= 255
            &&& 0 < number(div)
            &&& 0 <= w % number(div) < number(div)
            &&& w == (w / number(div)) * number(div) + w % number(div)
        }),
{
    let n = div.len() as int;
    let at = j - n - 1;
    let w = value(s.rem, at, n + 1);
    let d = number(div);
    lemma_top_digits(s.rem, at, n + 1);
    lemma_divisor_digits(div);
    lemma_value_bound(s.rem, at, n - 2);
    lemma_value_bound(div, 0, n - 2);
    lemma_power_pos(n - 2);
    assert(at + (n + 1) - 1 == j - 1 && at + (n + 1) - 2 == j - 2 && at + (n + 1) - 3 == j - 3);
    lemma_guess(
        w,
        d,
        s.rem[j - 1] as int,
        s.rem[j - 2] as int,
        s.rem[j - 3] as int,
        div[n - 1] as int,
        div[n - 2] as int,
        value(s.rem, at, n - 2),
        value(div, 0, n - 2),
        power(n - 2),
    );
    lemma_value_bound(s.rem, at, n + 1);
    let q = w / d;
    let x = guess_at(s.rem, div, j);
    assert(0 < d) by (nonlinear_arith)
        requires
            0 <= w < 256 * d,
    ;
    assert(w == q * d + w % d && 0 <= w % d < d) by (nonlinear_arith)
        requires
            0 < d,
            q == w / d,
    ;
    assert((q + 1) * d == q * d + d) by (nonlinear_arith);
    assert(x == q || x == q + 1);
}

/// The highest two digits of a divisor and the rest.
proof fn lemma_divisor_digits(div: Seq<u8>)
    requires
        div.len() >= 2,
    ensures
        ({
            let n = div.len() as int;
            number(div) == (div[n - 1] * 256 + div[n - 2]) * power(n - 2) + value(div, 0, n - 2)
        }),
{
    let n = div.len() as int;
    let p = power(n - 2);
    let (a, b) = (div[n - 1] as int, div[n - 2] as int);
    assert(power(n - 1) == 256 * p);
    assert(value(div, 0, n - 1) == value(div, 0, n - 2) + b * p);
    assert(number(div) == value(div, 0, n - 1) + a * (256 * p));
    assert((a * 256 + b) * p == a * (256 * p) + b * p) by (nonlinear_arith);
}

/// After `k` steps of a division by a divisor whose highest digit is 128 or
/// more: what is left and the quotient digits found so far account for the
/// dividend, and what is left is small enough for the digits still to come.
proof fn lemma_divide_steps(div: Seq<u8>, s: Division, k: int)
    requires
        can_divide(s.rem, div, s.quo),
        div[div.len() - 1] >= 128,
        number(s.rem) < number(div) * power(quotient_size(s.rem, div)),
        0 <= k <= quotient_size(s.rem, div),
    ensures
        ({
            let size = quotient_size(s.rem, div);
            let t = divide_steps(div, s, k);
            &&& t.rem.len() == s.rem.len()
            &&& t.quo.len() == s.quo.len()
            &&& number(t.rem) < number(div) * power(size - k)
            &&& number(s.rem) == number(t.rem) + number(div) * (value(t.quo, size - k, k) * power(
                size - k,
            ))
            &&& forall|i: int| 0 <= i < size - k || size <= i < s.quo.len() ==> t.quo[i] == s.quo[i]
        }),
    decreases k,
{
    let size = quotient_size(s.rem, div);
    let d = number(div);
    if k == 0 {
        assert(d * (0 * power(size)) == 0) by (nonlinear_arith);
    } else {
        lemma_divide_steps(div, s, k - 1);
        let t = divide_steps(div, s, k - 1);
        let u = divide_steps(div, s, k);
        let n = div.len() as int;
        let len = s.rem.len() as int;
        let j = len - (k - 1);
        let at = j - n - 1;
        let w = value(t.rem, at, n + 1);
        assert(at == size - k);
        lemma_power_pos(at);
        lemma_power_pos(j);
        lemma_value_bound(div, 0, n);
        lemma_value_bound(t.rem, 0, at);
        // The digits from `j` on are zero.
        lemma_value_split(t.rem, 0, j, len - j);
        lemma_value_bound(t.rem, j, len - j);
        lemma_value_bound(t.rem, 0, j);
        lemma_power_sum(n, at + 1);
        let high = value(t.rem, j, len - j);
        assert(d * power(at + 1) < power(n) * power(at + 1)) by (nonlinear_arith)
            requires
                d < power(n),
                power(at + 1) >= 1,
        ;
        assert(high == 0) by (nonlinear_arith)
            requires
                value(t.rem, 0, j) + high * power(j) < power(j),
                0 <= value(t.rem, 0, j),
                0 <= high,
                1 <= power(j),
        ;
        assert(0 * power(j) == 0);
        lemma_value_split(t.rem, 0, at, n + 1);
        assert(number(t.rem) == value(t.rem, 0, at) + w * power(at));
        assert(w < 256 * d) by (nonlinear_arith)
            requires
                value(t.rem, 0, at) + w * power(at) < d * (256 * power(at)),
                0 <= value(t.rem, 0, at),
                1 <= power(at),
        ;
        lemma_step_exact(div, t, j);
        let q = w / d;
        let r = w % d;
        lemma_value_bound(t.rem, at, n + 1);
        assert(r < power(n + 1)) by {
            lemma_power_pos(n);
        }
        let m = lemma_spliced_value(t.rem, at, n + 1, r);
        assert(value(u.rem, at, n + 1) == r);
        assert forall|i: int| 0 <= i < at implies t.rem[0 + i] == #[trigger] u.rem[0 + i] by {}
        lemma_value_same(t.rem, 0, u.rem, 0, at);
        assert forall|i: int| 0 <= i < len - j implies t.rem[j + i] == #[trigger] u.rem[j + i] by {}
        lemma_value_same(t.rem, j, u.rem, j, len - j);
        lemma_value_split(u.rem, 0, j, len - j);
        lemma_value_split(u.rem, 0, at, n + 1);
        let left = value(t.rem, 0, at);
        assert(number(u.rem) == left + r * power(at));
        assert(left + r * power(at) < d * power(at)) by (nonlinear_arith)
            requires
                left < power(at),
                r + 1 <= d,
                1 <= power(at),
        ;
        // The new digit goes below those found before.
        lemma_value_split(u.quo, at, 1, k - 1);
        assert(value(u.quo, at, 1) == q) by {
            assert(value(u.quo, at, 0) == 0);
            assert(power(0) == 1);
        }
        assert forall|i: int| 0 <= i < k - 1 implies t.quo[at + 1 + i] == #[trigger] u.quo[at + 1
            + i] by {}
        lemma_value_same(t.quo, at + 1, u.quo, at + 1, k - 1);
        assert(power(1) == 256) by {
            assert(power(0) == 1);
        }
        let found = value(t.quo, at + 1, k - 1);
        assert(value(u.quo, at, k) == q + found * 256);
        assert(number(s.rem) == left + r * power(at) + d * ((q + found * 256) * power(at)))
            by (nonlinear_arith)
            requires
                number(s.rem) == left + w * power(at) + d * (found * (256 * power(at))),
                w == q * d + r,
        ;
    }
}

/// Dividing by a divisor whose highest digit is 128 or more leaves the remainder
/// and the quotient, if the quotient fits its digits. Higher digits of the
/// quotient are left as they were.
pub proof fn lemma_division_is_exact(div: Seq<u8>, rem: Seq<u8>, quo: Seq<u8>)
    requires
        can_divide(rem, div, quo),
        div[div.len() - 1] >= 128,
        number(rem) < number(div) * power(quotient_size(rem, div)),
    ensures
        ({
            let size = quotient_size(rem, div);
            let t = divide_steps(div, Division { rem, quo, backs: 0 }, size);
            &&& 0 < number(div)
            &&& number(t.rem) == number(rem) % number(div)
            &&& value(t.quo, 0, size) == number(rem) / number(div)
            &&& forall|i: int| size <= i < quo.len() ==> t.quo[i] == quo[i]
        }),
{
    let size = quotient_size(rem, div);
    let s = Division { rem, quo, backs: 0 };
    lemma_divide_steps(div, s, size);
    let t = divide_steps(div, s, size);
    let d = number(div);
    let q = value(t.quo, 0, size);
    assert(power(0) == 1);
    lemma_value_bound(t.rem, 0, t.rem.len() as int);
    assert(number(rem) == q * d + number(t.rem)) by (nonlinear_arith)
        requires
            number(rem) == number(t.rem) + d * (q * 1),
    ;
    assert(number(t.rem) < d) by (nonlinear_arith)
        requires
            number(t.rem) < d * 1,
    ;
    lemma_quotient_unique(number(rem), d, q, number(t.rem));
}

/// Dividing a product by one of its factors gives the other back and leaves
/// nothing, for a divisor whose highest digit is 128 or more.
pub proof fn lemma_product_divided(q: Seq<u8>, b: Seq<u8>, prod: Seq<u8>, quo: Seq<u8>)
    requires
        b.len() >= 2,
        b[b.len() - 1] >= 128,
        zero_from(prod, 0),
        prod.len() == q.len() + b.len(),
        quo.len() == q.len(),
    ensures
        ({
            let p = product_rows(q, b, prod, q.len() as int);
            let n = quotient_size(p, b);
            let t = divide_steps(b, Division { rem: p, quo, backs: 0 }, n);
            &&& can_divide(p, b, quo)
            &&& n == q.len()
            &&& q.len() <= u32::MAX ==> backs_fit(p, b, quo)
            &&& t.quo == q
            &&& t.rem.len() == p.len()
            &&& zero_from(t.rem, 0)
        }),
{
    let k = q.len() as int;
    let n = b.len() as int;
    let p = product_rows(q, b, prod, k);
    let s = Division { rem: p, quo, backs: 0 };
    let t = divide_steps(b, s, k);
    lemma_product(q, b, prod, k);
    lemma_backs_fit(b, p, quo);
    lemma_value_bound(q, 0, k);
    lemma_value_bound(b, 0, n - 1);
    lemma_power_pos(n - 1);
    let (a, d) = (number(q), number(b));
    assert(d > 0) by (nonlinear_arith)
        requires
            d == value(b, 0, n - 1) + b[n - 1] as int * power(n - 1),
            0 <= value(b, 0, n - 1),
            128 <= b[n - 1] as int,
            1 <= power(n - 1),
    ;
    assert(a * d < d * power(k)) by (nonlinear_arith)
        requires
            a < power(k),
            0 < d,
    ;
    lemma_divide_steps(b, s, k);
    lemma_division_is_exact(b, p, quo);
    lemma_quotient_unique(a * d, d, a, 0);
    assert(t.quo =~= q) by {
        assert forall|i: int| 0 <= i < k implies t.quo[i] == q[i] by {
            lemma_digits_of_value(t.quo, 0, k, i);
            lemma_digits_of_value(q, 0, k, i);
        }
    }
    assert forall|i: int| 0 <= i < t.rem.len() implies t.rem[i] == 0 by {
        lemma_digits_of_value(t.rem, 0, t.rem.len() as int, i);
        lemma_power_pos(i);
        assert(0int / power(i) == 0) by (nonlinear_arith)
            requires
                1 <= power(i),
        ;
    }
}

/// There is one quotient and one remainder.
proof fn lemma_quotient_unique(a: int, d: int, q: int, r: int)
    requires
        0 < d,
        a == q * d + r,
        0 <= r < d,
    ensures
        a / d == q,
        a % d == r,
{
    assert(a / d == q && a % d == r) by (nonlinear_arith)
        requires
            0 < d,
            a == q * d + r,
            0 <= r < d,
    ;
}

} // verus!
