//! Numbers as base-256 digits, the least significant first.
use vstd::prelude::*;

verus! {

/// 256 to the power of `n`.
pub open spec fn power(n: int) -> int
    decreases n,
{
    if n <= 0 {
        1
    } else {
        256 * power(n - 1)
    }
}

/// The number that `n` digits from `at` stand for.
pub open spec fn value(s: Seq<u8>, at: int, n: int) -> int
    decreases n,
{
    if n <= 0 {
        0
    } else {
        value(s, at, n - 1) + s[at + n - 1] * power(n - 1)
    }
}

/// The number that digits stand for.
pub open spec fn number(s: Seq<u8>) -> int {
    value(s, 0, s.len() as int)
}

/// The `n` low digits of a number.
pub open spec fn digits(v: int, n: int) -> Seq<u8> {
    Seq::new(n as nat, |k: int| ((v / power(k)) % 256) as u8)
}

/// The sequence with another in place of its part from `at`.
pub open spec fn spliced(s: Seq<u8>, at: int, part: Seq<u8>) -> Seq<u8> {
    Seq::new(
        s.len(),
        |k: int|
            if at <= k < at + part.len() {
                part[k - at]
            } else {
                s[k]
            },
    )
}

pub(crate) proof fn lemma_power_pos(n: int)
    ensures
        power(n) >= 1,
        n >= 0 ==> power(n + 1) == 256 * power(n),
    decreases n,
{
    if n > 0 {
        lemma_power_pos(n - 1);
    }
}

/// Powers add up.
pub(crate) proof fn lemma_power_sum(a: int, b: int)
    requires
        0 <= a,
        0 <= b,
    ensures
        power(a + b) == power(a) * power(b),
    decreases b,
{
    if b > 0 {
        lemma_power_sum(a, b - 1);
        assert(power(a) * (256 * power(b - 1)) == 256 * (power(a) * power(b - 1)))
            by (nonlinear_arith);
    } else {
        assert(power(a) * 1 == power(a));
    }
}

/// `n` digits stand for less than the next power.
pub(crate) proof fn lemma_value_bound(s: Seq<u8>, at: int, n: int)
    ensures
        0 <= value(s, at, n) < power(n),
    decreases n,
{
    if n > 0 {
        lemma_value_bound(s, at, n - 1);
        lemma_power_pos(n - 1);
        let d = s[at + n - 1] as int;
        let p = power(n - 1);
        assert(0 <= d * p <= 255 * p) by (nonlinear_arith)
            requires
                0 <= d <= 255,
                1 <= p,
        ;
    }
}

/// The same digits stand for the same number.
pub(crate) proof fn lemma_value_same(s: Seq<u8>, at: int, t: Seq<u8>, bt: int, n: int)
    requires
        forall|k: int| 0 <= k < n ==> s[at + k] == #[trigger] t[bt + k],
    ensures
        value(s, at, n) == value(t, bt, n),
    decreases n,
{
    if n > 0 {
        assert(s[at + (n - 1)] == t[bt + (n - 1)]);
        lemma_value_same(s, at, t, bt, n - 1);
    }
}

/// Digits from one place and the digits after them.
pub(crate) proof fn lemma_value_split(s: Seq<u8>, at: int, a: int, b: int)
    requires
        0 <= a,
        0 <= b,
    ensures
        value(s, at, a + b) == value(s, at, a) + value(s, at + a, b) * power(a),
    decreases b,
{
    if b > 0 {
        lemma_value_split(s, at, a, b - 1);
        lemma_power_sum(a, b - 1);
        let d = s[at + a + b - 1] as int;
        let v = value(s, at + a, b - 1);
        assert((v + d * power(b - 1)) * power(a) == v * power(a) + d * (power(a) * power(b - 1)))
            by (nonlinear_arith);
    } else {
        assert(0 * power(a) == 0);
    }
}

/// Zero digits stand for 0.
pub(crate) proof fn lemma_value_zero(s: Seq<u8>, at: int, n: int)
    requires
        forall|k: int| at <= k < at + n ==> s[k] == 0,
    ensures
        value(s, at, n) == 0,
    decreases n,
{
    if n > 0 {
        lemma_value_zero(s, at, n - 1);
        assert(0 * power(n - 1) == 0);
    }
}

/// Digits are what their number says: no two sequences of one length stand for
/// one number.
pub(crate) proof fn lemma_digits_of_value(s: Seq<u8>, at: int, n: int, k: int)
    requires
        0 <= k < n,
    ensures
        (value(s, at, n) / power(k)) % 256 == s[at + k],
{
    lemma_value_split(s, at, k, n - k);
    lemma_value_split(s, at + k, 1, n - k - 1);
    lemma_value_bound(s, at, k);
    lemma_power_pos(k);
    let low = value(s, at, k);
    let high = value(s, at + k, n - k);
    let rest = value(s, at + k + 1, n - k - 1);
    let p = power(k);
    assert(value(s, at + k, 1) == s[at + k]) by {
        assert(value(s, at + k, 0) == 0);
        assert(power(0) == 1);
    }
    assert(power(1) == 256) by {
        assert(power(0) == 1);
    }
    assert(high == s[at + k] + rest * 256);
    assert((low + high * p) / p == high) by (nonlinear_arith)
        requires
            0 <= low < p,
    ;
    assert((s[at + k] as int + rest * 256) % 256 == s[at + k] as int);
}

/// Digits put together again.
pub(crate) proof fn lemma_digits_unique(s: Seq<u8>, at: int, n: int)
    requires
        0 <= n,
    ensures
        forall|k: int| 0 <= k < n ==> #[trigger] digits(value(s, at, n), n)[k] == s[at + k],
{
    assert forall|k: int| 0 <= k < n implies #[trigger] digits(value(s, at, n), n)[k] == s[at
        + k] by {
        lemma_digits_of_value(s, at, n, k);
    }
}

/// A number that fits `n` digits is what its digits stand for.
pub(crate) proof fn lemma_value_of_digits(v: int, n: int)
    requires
        0 <= n,
        0 <= v < power(n),
    ensures
        value(digits(v, n), 0, n) == v,
    decreases n,
{
    if n > 0 {
        let p = power(n - 1);
        lemma_power_pos(n - 1);
        let low = v % p;
        let top = v / p;
        assert(v == top * p + low && 0 <= low < p && 0 <= top < 256) by (nonlinear_arith)
            requires
                0 <= v < 256 * p,
                1 <= p,
                low == v % p,
                top == v / p,
        ;
        lemma_value_of_digits(low, n - 1);
        assert forall|k: int| 0 <= k < n - 1 implies digits(low, n - 1)[0 + k] == #[trigger] digits(
            v,
            n,
        )[0 + k] by {
            lemma_power_sum(k, n - 1 - k);
            lemma_power_sum(1, n - 2 - k);
            lemma_power_pos(k);
            let pk = power(k);
            let r = power(n - 2 - k);
            assert(power(1) == 256) by {
                assert(power(0) == 1);
            }
            assert(power(n - 1 - k) == 256 * r) by {
                assert(1 + (n - 2 - k) == n - 1 - k);
            }
            assert(v / pk == low / pk + (top * r) * 256) by (nonlinear_arith)
                requires
                    v == top * p + low,
                    p == pk * (256 * r),
                    pk >= 1,
            {
                assert(v == low + ((top * r) * 256) * pk) by (nonlinear_arith)
                    requires
                        v == top * p + low,
                        p == pk * (256 * r),
                ;
                assert((low + ((top * r) * 256) * pk) / pk == low / pk + (top * r) * 256)
                    by (nonlinear_arith)
                    requires
                        pk >= 1,
                ;
            }
            assert((low / pk + (top * r) * 256) % 256 == (low / pk) % 256);
        }
        lemma_value_same(digits(low, n - 1), 0, digits(v, n), 0, n - 1);
        assert(digits(v, n)[n - 1] == top as u8);
    }
}

// ---- The highest digit ----------------------------------------------------

/// Digits from `i` on are all 0.
pub open spec fn zero_from(s: Seq<u8>, i: int) -> bool {
    forall|k: int| i <= k < s.len() ==> s[k] == 0
}

/// The index of the highest digit that is not 0, counted from 1. A number
/// without such a digit has it at 1 too.
pub fn highest_non_zero_digit_index(digits: &[u8]) -> (r: usize)
    ensures
        1 <= r,
        zero_from(digits@, r as int),
        r <= digits@.len() && digits@[r - 1] != 0 || r == 1,
{
    let mut i: usize = digits.len();
    while i > 0
        invariant_except_break
            zero_from(digits@, i as int),
        invariant
            i <= digits@.len(),
        ensures
            i <= digits@.len(),
            zero_from(digits@, i + 1),
            i < digits@.len() && digits@[i as int] != 0 || i == 0,
        decreases i,
    {
        i = i - 1;
        if digits[i] != 0 {
            break;
        }
    }
    i + 1
}

// ---- Multiplication -------------------------------------------------------

/// The product after the row of digit `i` of the first factor. A digit of 0 has
/// no row. Any other adds its multiple of the second factor to the digits from
/// `i`; the carry replaces the digit after them.
pub open spec fn product_row(f1: Seq<u8>, f2: Seq<u8>, prod: Seq<u8>, i: int) -> Seq<u8> {
    let n = f2.len() as int;
    if f1[i] == 0 {
        prod
    } else {
        spliced(prod, i, digits(value(prod, i, n) + f1[i] * number(f2), n + 1))
    }
}

/// The product after `i` rows.
pub open spec fn product_rows(f1: Seq<u8>, f2: Seq<u8>, prod: Seq<u8>, i: int) -> Seq<u8>
    decreases i,
{
    if i <= 0 {
        prod
    } else {
        product_row(f1, f2, product_rows(f1, f2, prod, i - 1), i - 1)
    }
}

/// One row of a multiplication.
fn multiplyRow(digit: u8, f2: &[u8], prod: &mut [u8], i: usize)
    requires
        i + f2@.len() < old(prod)@.len(),
    ensures
        final(prod)@ == spliced(
            old(prod)@,
            i as int,
            digits(
                value(old(prod)@, i as int, f2@.len() as int) + digit * number(f2@),
                f2@.len() as int + 1,
            ),
        ),
{
    let ghost before = prod@;
    let n: usize = f2.len();
    let total: usize = prod.len();
    let mut carry: u64 = 0;
    let mut j: usize = 0;
    assert(digit * 0 == 0);
    while j < n
        invariant
            n == f2@.len(),
            before == old(prod)@,
            i + n < total,
            total == before.len(),
            prod@.len() == before.len(),
            j <= n,
            carry <= 0xFF,
            forall|k: int|
                0 <= k < before.len() && !(i <= k < i + j) ==> prod@[k] == before[k],
            value(prod@, i as int, j as int) + carry * power(j as int) == value(
                before,
                i as int,
                j as int,
            ) + digit * value(f2@, 0, j as int),
        decreases n - j,
    {
        let ghost now = prod@;
        assert(f2[j as int] * digit <= 255 * 255) by (nonlinear_arith)
            requires
                f2[j as int] <= 255,
                digit <= 255,
        ;
        let sum: u64 = (f2[j] as u64) * (digit as u64) + (prod[i + j] as u64) + carry;
        let low: u8 = (sum % 256) as u8;
        let ghost old_carry = carry as int;
        carry = sum / 256;
        prod[i + j] = low;
        proof {
            let p = power(j as int);
            lemma_value_same(now, i as int, prod@, i as int, j as int);
            assert(prod@[i + (j + 1) - 1] == low);
            assert(before[i + (j + 1) - 1] == now[i + j]);
            lemma_row_step(
                value(now, i as int, j as int),
                value(before, i as int, j as int),
                value(f2@, 0, j as int),
                digit as int,
                f2@[j as int] as int,
                now[i + j] as int,
                old_carry,
                low as int,
                carry as int,
                p,
            );
            lemma_power_pos(j as int);
        }
        j = j + 1;
    }
    let ghost now = prod@;
    prod[i + n] = carry as u8;
    proof {
        lemma_value_same(now, i as int, prod@, i as int, n as int);
        let v = value(before, i as int, n as int) + digit * number(f2@);
        assert(value(prod@, i as int, n + 1) == v);
        lemma_digits_unique(prod@, i as int, n + 1);
        assert forall|k: int| 0 <= k < prod@.len() implies prod@[k] == spliced(
            before,
            i as int,
            digits(v, n + 1),
        )[k] by {
            if i <= k < i + n + 1 {
                assert(digits(v, n + 1)[k - i] == prod@[i + (k - i)]);
            }
        }
        assert(prod@ =~= spliced(before, i as int, digits(v, n + 1)));
    }
}

/// One more digit of a row.
proof fn lemma_row_step(
    done: int,
    before: int,
    factor: int,
    digit: int,
    d: int,
    old_digit: int,
    carry: int,
    low: int,
    next: int,
    p: int,
)
    requires
        done + carry * p == before + digit * factor,
        d * digit + old_digit + carry == 256 * next + low,
    ensures
        done + low * p + next * (256 * p) == before + old_digit * p + digit * (factor + d * p),
{
    assert(done + low * p + next * (256 * p) == before + old_digit * p + digit * (factor + d * p))
        by (nonlinear_arith)
        requires
            done + carry * p == before + digit * factor,
            d * digit + old_digit + carry == 256 * next + low,
    {
        assert((256 * next + low) * p == (d * digit + old_digit + carry) * p);
        assert((d * digit + old_digit + carry) * p == d * digit * p + old_digit * p + carry * p)
            by (nonlinear_arith);
        assert((256 * next + low) * p == next * (256 * p) + low * p) by (nonlinear_arith);
        assert(digit * (factor + d * p) == digit * factor + d * digit * p) by (nonlinear_arith);
    }
}

/// Multiplies two numbers into a product that has as many digits as both
/// together.
pub fn big_multiply(f1: &[u8], f2: &[u8], prod: &mut [u8])
    requires
        old(prod)@.len() == f1@.len() + f2@.len(),
    ensures
        final(prod)@ == product_rows(f1@, f2@, old(prod)@, f1@.len() as int),
        zero_from(old(prod)@, 0) ==> number(final(prod)@) == number(f1@) * number(f2@),
{
    let ghost before = prod@;
    let n: usize = f1.len();
    let mut i: usize = 0;
    while i < n
        invariant
            n == f1@.len(),
            before == old(prod)@,
            before.len() == f1@.len() + f2@.len(),
            prod@.len() == before.len(),
            i <= n,
            prod@ == product_rows(f1@, f2@, before, i as int),
        decreases n - i,
    {
        if f1[i] != 0 {
            multiplyRow(f1[i], f2, prod, i);
        }
        i = i + 1;
    }
    proof {
        if zero_from(before, 0) {
            lemma_product(f1@, f2@, before, n as int);
        }
    }
}

/// Into a product of zeros, the rows add up to the product.
pub proof fn lemma_product(f1: Seq<u8>, f2: Seq<u8>, prod: Seq<u8>, i: int)
    requires
        zero_from(prod, 0),
        prod.len() == f1.len() + f2.len(),
        0 <= i <= f1.len(),
    ensures
        product_rows(f1, f2, prod, i).len() == prod.len(),
        value(product_rows(f1, f2, prod, i), 0, i + f2.len()) == value(f1, 0, i) * number(f2),
        zero_from(product_rows(f1, f2, prod, i), i + f2.len()),
        i == f1.len() ==> number(product_rows(f1, f2, prod, i)) == number(f1) * number(f2),
    decreases i,
{
    let n = f2.len() as int;
    if i <= 0 {
        lemma_value_zero(prod, 0, n);
        assert(0 * number(f2) == 0);
    } else {
        lemma_product(f1, f2, prod, i - 1);
        let p = product_rows(f1, f2, prod, i - 1);
        let q = product_rows(f1, f2, prod, i);
        let d = f1[i - 1] as int;
        let w = power(i - 1);
        if d == 0 {
            assert(p[i + n - 1] == 0);
            assert(value(p, 0, i + n) == value(p, 0, i - 1 + n) + 0 * power(i + n - 1));
            assert(0 * power(i + n - 1) == 0 && 0 * w == 0);
        } else {
            let v = value(p, i - 1, n) + d * number(f2);
            lemma_value_bound(p, i - 1, n);
            lemma_value_bound(f2, 0, n);
            lemma_power_pos(n);
            assert(0 <= v < 256 * power(n)) by (nonlinear_arith)
                requires
                    0 <= value(p, i - 1, n) < power(n),
                    0 <= number(f2) < power(n),
                    0 <= d <= 255,
                    v == value(p, i - 1, n) + d * number(f2),
            ;
            lemma_value_of_digits(v, n + 1);
            assert forall|k: int| 0 <= k < n + 1 implies q[i - 1 + k] == #[trigger] digits(
                v,
                n + 1,
            )[0 + k] by {}
            lemma_value_same(q, i - 1, digits(v, n + 1), 0, n + 1);
            lemma_value_split(q, 0, i - 1, n + 1);
            lemma_value_split(p, 0, i - 1, n);
            assert forall|k: int| 0 <= k < i - 1 implies p[0 + k] == #[trigger] q[0 + k] by {}
            lemma_value_same(p, 0, q, 0, i - 1);
            let a = value(p, 0, i - 1);
            let b = value(p, i - 1, n);
            let f = value(f1, 0, i - 1);
            let g = number(f2);
            assert(a + v * w == (f + d * w) * g) by (nonlinear_arith)
                requires
                    a + b * w == f * g,
                    v == b + d * g,
            ;
            assert(i - 1 + (n + 1) == i + n);
            assert(i - 1 + n == i + n - 1);
        }
    }
}

} // verus!
