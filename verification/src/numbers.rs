//! Byte strings as numbers, which say without speaking of bits what they hold.
use vstd::arithmetic::div_mod::{
    lemma_fundamental_div_mod, lemma_fundamental_div_mod_converse, lemma_hoist_over_denominator,
};
use vstd::arithmetic::power2::{
    lemma2_to64, lemma_pow2_adds, lemma_pow2_pos, lemma_pow2_unfold, pow2,
};
use vstd::prelude::*;

use crate::bits::{bit, byte_bit, int_bit, lemma_pattern_bit};

verus! {

/// The number that a byte string is in little-endian order.
pub open spec fn number(bytes: Seq<u8>) -> int
    decreases bytes.len(),
{
    if bytes.len() == 0 {
        0
    } else {
        bytes[0] + 256 * number(bytes.skip(1))
    }
}

/// A number without its lowest `at` binary digits, cut to `n` binary digits.
pub open spec fn digits(x: int, at: int, n: int) -> int {
    (x / (pow2(at as nat) as int)) % (pow2(n as nat) as int)
}

/// The integer that `n` binary digits of a number stand for: in two's complement, if
/// it has a sign.
pub open spec fn integer_at(x: int, at: int, n: int, signed: bool) -> int {
    let low = digits(x, at, n);
    if signed && low >= pow2((n - 1) as nat) {
        low - pow2(n as nat)
    } else {
        low
    }
}

/// Dividing twice divides by the product, negative numbers included.
proof fn lemma_div_twice(x: int, c: int, d: int)
    requires
        c > 0,
        d > 0,
    ensures
        c * d > 0,
        x / (c * d) == (x / c) / d,
{
    let q = x / c;
    let r = x % c;
    let q2 = q / d;
    let r2 = q % d;
    lemma_fundamental_div_mod(x, c);
    lemma_fundamental_div_mod(q, d);
    assert(c * d > 0) by (nonlinear_arith)
        requires
            c > 0,
            d > 0,
    ;
    assert(x == q2 * (c * d) + (c * r2 + r)) by (nonlinear_arith)
        requires
            x == c * q + r,
            q == d * q2 + r2,
    ;
    assert(0 <= c * r2 + r < c * d) by (nonlinear_arith)
        requires
            0 <= r < c,
            0 <= r2 < d,
            c > 0,
    ;
    lemma_fundamental_div_mod_converse(x, c * d, q2, c * r2 + r);
}

/// A multiple of `2^k` above a number leaves its digits below `k` alone, and is
/// what is left when those are dropped.
proof fn lemma_drop_low(low: int, high: int, at: int, k: int)
    requires
        0 <= k <= at,
        0 <= low < pow2(k as nat),
    ensures
        (low + pow2(k as nat) * high) / (pow2(at as nat) as int) == high / (pow2(
            (at - k) as nat,
        ) as int),
{
    let d = pow2(k as nat) as int;
    let e = pow2((at - k) as nat) as int;
    let x = low + d * high;
    lemma_pow2_pos(k as nat);
    lemma_pow2_pos((at - k) as nat);
    lemma_pow2_adds(k as nat, (at - k) as nat);
    lemma_div_twice(x, d, e);
    assert(x == high * d + low) by (nonlinear_arith)
        requires
            x == low + d * high,
    ;
    lemma_fundamental_div_mod_converse(x, d, high, low);
}

/// Adding a multiple of `2^(k + 1)` leaves binary digit `k` alone.
pub proof fn lemma_bit_below(x: int, high: int, k: int, at: int)
    requires
        0 <= k < at,
    ensures
        int_bit(x + pow2(at as nat) * high, k) == int_bit(x, k),
{
    let d = pow2(k as nat) as int;
    let e = pow2((at - k) as nat) as int;
    let h = pow2((at - k - 1) as nat) as int;
    lemma_pow2_pos(k as nat);
    lemma_pow2_adds(k as nat, (at - k) as nat);
    lemma_pow2_unfold((at - k) as nat);
    let j = e * high;
    assert(pow2(at as nat) * high == j * d) by (nonlinear_arith)
        requires
            pow2(at as nat) == d * e,
            j == e * high,
    ;
    lemma_hoist_over_denominator(x, j, d as nat);
    assert(j == 2 * (h * high)) by (nonlinear_arith)
        requires
            j == e * high,
            e == 2 * h,
    ;
    assert((x / d + 2 * (h * high)) % 2 == (x / d) % 2);
}

/// The bits of a byte string are the binary digits of its number, which has no
/// others.
pub proof fn lemma_number(bytes: Seq<u8>)
    ensures
        0 <= number(bytes) < pow2((8 * bytes.len()) as nat),
        forall|p: int| 0 <= p < 8 * bytes.len() ==> #[trigger] bit(bytes, p) == int_bit(
            number(bytes),
            p,
        ),
    decreases bytes.len(),
{
    lemma2_to64();
    if bytes.len() > 0 {
        let rest = bytes.skip(1);
        let b = bytes[0];
        let x = number(bytes);
        let y = number(rest);
        lemma_number(rest);
        lemma_pow2_adds(8, (8 * rest.len()) as nat);
        assert(x < 256 * pow2((8 * rest.len()) as nat));
        assert forall|p: int| 0 <= p < 8 * bytes.len() implies #[trigger] bit(bytes, p) == int_bit(
            x,
            p,
        ) by {
            if p < 8 {
                lemma_bit_below(b as int, y, p, 8);
                lemma_byte_digit(b, p);
            } else {
                lemma_drop_low(b as int, y, p, 8);
                assert(bit(rest, p - 8) == int_bit(y, p - 8));
                assert(rest[(p - 8) / 8] == bytes[p / 8]);
            }
        }
    }
}

/// The bits of a byte are the binary digits of its number.
proof fn lemma_byte_digit(b: u8, k: int)
    requires
        0 <= k < 8,
    ensures
        byte_bit(b, k) == int_bit(b as int, k),
{
    let x = b as u64;
    let i = k as u8;
    let j = k as u64;
    assert(((b >> i) & 1u8 == 1u8) == ((x >> j) & 1u64 == 1u64)) by (bit_vector)
        requires
            x == b,
            i < 8,
            j == i,
    ;
    lemma_pattern_bit(b as int, x, k);
}

/// Equal binary digits make equal numbers.
pub proof fn lemma_same_digits(a: int, i: int, b: int, j: int, n: int)
    requires
        0 <= i,
        0 <= j,
        0 <= n,
        forall|k: int| 0 <= k < n ==> #[trigger] int_bit(a, i + k) == int_bit(b, j + k),
    ensures
        digits(a, i, n) == digits(b, j, n),
    decreases n,
{
    lemma2_to64();
    if n > 0 {
        lemma_same_digits(a, i, b, j, n - 1);
        lemma_one_more_digit(a, i, n - 1);
        lemma_one_more_digit(b, j, n - 1);
        assert(int_bit(a, i + (n - 1)) == int_bit(b, j + (n - 1)));
    }
}

proof fn lemma_one_more_digit(a: int, i: int, n: int)
    requires
        0 <= i,
        0 <= n,
    ensures
        digits(a, i, n + 1) == digits(a, i, n) + (if int_bit(a, i + n) {
            pow2(n as nat) as int
        } else {
            0
        }),
{
    let x = a / (pow2(i as nat) as int);
    let d = pow2(n as nat) as int;
    lemma_pow2_pos(i as nat);
    lemma_pow2_pos(n as nat);
    lemma_pow2_adds(i as nat, n as nat);
    lemma_div_twice(a, pow2(i as nat) as int, d);
    let q = x / d;
    lemma_fundamental_div_mod(x, d);
    lemma_fundamental_div_mod(q, 2);
    lemma_pow2_unfold((n + 1) as nat);
    let low = x % d;
    let top = q % 2;
    assert(x == (q / 2) * (2 * d) + (low + d * top)) by (nonlinear_arith)
        requires
            x == d * q + low,
            q == 2 * (q / 2) + top,
    ;
    assert(0 <= low + d * top < 2 * d) by (nonlinear_arith)
        requires
            0 <= low < d,
            0 <= top < 2,
    ;
    lemma_fundamental_div_mod_converse(x, 2 * d, q / 2, low + d * top);
    assert(top == 0 || top == 1);
    assert(d * top == (if top == 1 {
        d
    } else {
        0
    })) by (nonlinear_arith)
        requires
            top == 0 || top == 1,
    ;
    assert(q == a / (pow2((i + n) as nat) as int));
}

/// A number without binary digits from `at` up to its bound lies below `2^at`.
pub proof fn lemma_no_high_digits(x: int, at: int, bound: int)
    requires
        0 <= at <= bound,
        0 <= x < pow2(bound as nat),
        forall|k: int| at <= k < bound ==> !#[trigger] int_bit(x, k),
    ensures
        x < pow2(at as nat),
{
    let n = bound - at;
    let d = pow2(at as nat) as int;
    let e = pow2(n as nat) as int;
    lemma_pow2_pos(at as nat);
    lemma_pow2_pos(n as nat);
    lemma_pow2_adds(at as nat, n as nat);
    assert forall|k: int| 0 <= k < n implies #[trigger] int_bit(x, at + k) == int_bit(0, 0 + k) by {
        lemma_zero_digit(k);
        assert(!int_bit(x, at + k));
    }
    lemma_same_digits(x, at, 0, 0, n);
    lemma2_to64();
    assert(digits(0, 0, n) == 0) by {
        lemma_fundamental_div_mod_converse(0, e, 0, 0);
    }
    lemma_fundamental_div_mod(x, d);
    let q = x / d;
    assert(0 <= q < e) by (nonlinear_arith)
        requires
            x == d * q + x % d,
            0 <= x % d < d,
            0 <= x < d * e,
            d > 0,
    ;
    lemma_fundamental_div_mod_converse(q, e, 0, q);
    assert(digits(x, at, n) == q);
    assert(q == 0);
    assert(d * q == 0) by (nonlinear_arith)
        requires
            q == 0,
    ;
}

/// Zero has no binary digits.
pub proof fn lemma_zero_digit(k: int)
    requires
        0 <= k,
    ensures
        !int_bit(0, k),
{
    lemma_pow2_pos(k as nat);
    lemma_fundamental_div_mod_converse(0, pow2(k as nat) as int, 0, 0);
}

/// The digits from the lowest on.
pub proof fn lemma_lowest_digits(x: int, n: int)
    ensures
        digits(x, 0, n) == x % (pow2(n as nat) as int),
{
    lemma2_to64();
    assert(x / (pow2(0) as int) == x);
}

/// Cutting digits out of a number moves them down.
pub proof fn lemma_digits_moved(x: int, at: int, n: int, k: int)
    requires
        0 <= at,
        0 <= k < n,
    ensures
        int_bit(digits(x, at, n), k) == int_bit(x, at + k),
{
    let c = pow2(at as nat) as int;
    let d = pow2(k as nat) as int;
    let e = pow2(n as nat) as int;
    let y = x / c;
    lemma_pow2_pos(at as nat);
    lemma_pow2_pos(k as nat);
    lemma_pow2_pos(n as nat);
    lemma_pow2_adds(at as nat, k as nat);
    lemma_div_twice(x, c, d);
    lemma_fundamental_div_mod(y, e);
    assert(y % e == y + e * (-(y / e))) by (nonlinear_arith)
        requires
            y == e * (y / e) + y % e,
    ;
    lemma_bit_below(y, -(y / e), k, n);
}

/// The integer at some digits has those digits, and lies in the range that they give.
pub proof fn lemma_integer_at(x: int, at: int, n: int, signed: bool)
    requires
        0 <= at,
        1 <= n,
    ensures
        ({
            let v = integer_at(x, at, n, signed);
            &&& signed ==> -pow2((n - 1) as nat) <= v < pow2((n - 1) as nat)
            &&& !signed ==> 0 <= v < pow2(n as nat)
            &&& forall|k: int| 0 <= k < n ==> #[trigger] int_bit(v, k) == int_bit(x, at + k)
        }),
{
    let low = digits(x, at, n);
    let v = integer_at(x, at, n, signed);
    lemma_pow2_pos(n as nat);
    lemma_pow2_unfold(n as nat);
    assert forall|k: int| 0 <= k < n implies #[trigger] int_bit(v, k) == int_bit(x, at + k) by {
        lemma_digits_moved(x, at, n, k);
        lemma_bit_below(low, -1, k, n);
    }
}

} // verus!
