//! Two's-complement arithmetic helpers: wrapping `i32` sums, arithmetic
//! shifts read as floor division, and 16-bit sign extension.
use vstd::arithmetic::power2;
use vstd::prelude::*;

verus! {

/// The `i32` congruent to `x` modulo 2^32.
pub open spec fn wrap32(x: int) -> i32 {
    ((x + 0x8000_0000) % 0x1_0000_0000 - 0x8000_0000) as i32
}

/// The low 16 bits of `x`, read as a signed number.
pub open spec fn low16(x: int) -> int {
    (x + 0x8000) % 0x1_0000 - 0x8000
}

/// The high 16 bits of a 32-bit number, read as a signed number.
pub open spec fn high16(x: i32) -> int {
    x as int / 0x1_0000
}

pub open spec fn max_int(a: int, b: int) -> int {
    if a >= b {
        a
    } else {
        b
    }
}

pub open spec fn min_int(a: int, b: int) -> int {
    if a <= b {
        a
    } else {
        b
    }
}

/// Wrapping addition and subtraction agree with [`wrap32`].
pub proof fn lemma_wrapping(a: i32, b: i32)
    ensures
        a.wrapping_add(b) == wrap32(a + b),
        a.wrapping_sub(b) == wrap32(a - b),
        wrap32(a as int) == a,
{
}

/// Wrapping multiplication agrees with [`wrap32`].
pub proof fn lemma_wrapping_mul(a: i32, b: i32)
    ensures
        a.wrapping_mul(b) == wrap32(a * b),
{
}

/// Wrapping early does not change where a sum lands.
pub proof fn lemma_wrap_twice(x: int, d: int)
    ensures
        wrap32(wrap32(x) + d) == wrap32(x + d),
{
    let m: int = 0x1_0000_0000;
    let y = x + 0x8000_0000;
    let q = y / m;
    assert(wrap32(x) as int == x - q * m) by (nonlinear_arith)
        requires
            wrap32(x) as int == y % m - 0x8000_0000,
            y == x + 0x8000_0000,
            q == y / m,
            m == 0x1_0000_0000,
    ;
    vstd::arithmetic::div_mod::lemma_mod_multiples_vanish(-q, y + d, m);
    assert(m * (-q) + (y + d) == wrap32(x) + d + 0x8000_0000) by (nonlinear_arith)
        requires
            wrap32(x) as int == x - q * m,
            y == x + 0x8000_0000,
    ;
}

/// Shifting right by one is halving, rounded down.
pub proof fn lemma_shr1(x: i32)
    ensures
        x >> 1u32 == x as int / 2,
{
    assert(x >> 1u32 == x / 2) by (bit_vector);
}

/// Shifting right by 16 keeps the high half.
pub proof fn lemma_shr16(x: i32)
    ensures
        x >> 16u32 == high16(x),
        -0x8000 <= high16(x) < 0x8000,
{
    assert(x >> 16u32 == x / 0x1_0000) by (bit_vector);
}

/// Casting to `i16` keeps the low half, signed.
pub proof fn lemma_low16(x: i32)
    ensures
        x as i16 == low16(x as int),
{
    assert(x as i16 == (x + 0x8000) % 0x1_0000 - 0x8000) by (bit_vector);
}

proof fn lemma_halve_quotient(x: int, a: int)
    requires
        a > 0,
    ensures
        x / a / 2 == x / (2 * a),
{
    let q = x / a;
    let r = a * (q % 2) + x % a;
    vstd::arithmetic::div_mod::lemma_fundamental_div_mod(x, a);
    assert(x == (2 * a) * (q / 2) + r && 0 <= r < 2 * a) by (nonlinear_arith)
        requires
            a > 0,
            x == a * q + x % a,
            0 <= x % a < a,
            r == a * (q % 2) + x % a,
    ;
    vstd::arithmetic::div_mod::lemma_fundamental_div_mod_converse(x, 2 * a, q / 2, r);
}

/// Shifting right is dividing by a power of two, rounded down.
pub proof fn lemma_shr(x: i32, j: u32)
    requires
        j <= 31,
    ensures
        x >> j == x as int / power2::pow2(j as nat) as int,
    decreases j,
{
    broadcast use vstd::arithmetic::power2::lemma_pow2_pos;

    if j == 0 {
        power2::lemma2_to64();
        assert(x >> 0u32 == x) by (bit_vector);
        assert(power2::pow2(j as nat) == 1);
        assert(x as int / 1 == x);
    } else {
        let i: u32 = (j - 1) as u32;
        lemma_shr(x, i);
        assert(x >> j == (x >> i) >> 1u32) by (bit_vector)
            requires
                j == i + 1,
                i < 31,
        ;
        lemma_shr1(x >> i);
        power2::lemma_pow2_unfold(j as nat);
        lemma_halve_quotient(x as int, power2::pow2(i as nat) as int);
    }
}

/// The remainder by twice `a` from the remainders by two and by `a`.
proof fn lemma_double_remainder(x: int, a: int)
    requires
        a > 0,
    ensures
        x % (2 * a) == x % 2 + 2 * ((x / 2) % a),
{
    let h = x / 2;
    vstd::arithmetic::div_mod::lemma_fundamental_div_mod(h, a);
    let r = x % 2 + 2 * (h % a);
    assert(x == (2 * a) * (h / a) + r && 0 <= r < 2 * a) by (nonlinear_arith)
        requires
            x == 2 * h + x % 2,
            0 <= x % 2 < 2,
            h == a * (h / a) + h % a,
            0 <= h % a < a,
            r == x % 2 + 2 * (h % a),
    ;
    vstd::arithmetic::div_mod::lemma_fundamental_div_mod_converse(x, 2 * a, h / a, r);
}

/// Masking with one less than a power of two takes the remainder.
pub proof fn lemma_mask(x: i32, k: u32)
    requires
        k <= 30,
    ensures
        x & ((1u32 << k) as i32 - 1) as i32 == x as int % (1u32 << k) as int,
        0 < (1u32 << k) <= 0x4000_0000,
    decreases k,
{
    assert(0 < (1u32 << k) <= 0x4000_0000) by (bit_vector)
        requires
            k <= 30,
    ;
    if k == 0 {
        assert(1u32 << 0u32 == 1) by (bit_vector);
        assert(x & 0i32 == 0) by (bit_vector);
    } else {
        let j: u32 = (k - 1) as u32;
        let m: i32 = ((1u32 << k) as i32 - 1) as i32;
        let h: i32 = ((1u32 << j) as i32 - 1) as i32;
        let y: i32 = x >> 1u32;
        lemma_mask(y, j);
        lemma_shr1(x);
        assert(1u32 << k == 2 * (1u32 << j)) by (bit_vector)
            requires
                k == j + 1,
                j < 30,
        ;
        assert(x & m == (x % 2) + 2 * (y & h)) by (bit_vector)
            requires
                m == 2 * h + 1,
                y == x >> 1u32,
                0 <= h < 0x4000_0000,
        ;
        lemma_double_remainder(x as int, (1u32 << j) as int);
    }
}

/// Shifting right divides by the power of two that shifting left gives.
pub proof fn lemma_shr_divides(x: i32, k: u32)
    requires
        k <= 30,
    ensures
        x >> k == x as int / (1u32 << k) as int,
{
    lemma_shr(x, k);
    power2::lemma_pow2_strictly_increases(k as nat, 31);
    power2::lemma2_to64();
    vstd::bits::lemma_u32_shl_is_mul(1u32, k);
}

/// Wrapping keeps a number modulo 2^32, and leaves a 32-bit number as it is.
pub proof fn lemma_wrap32_is_congruent(x: int)
    ensures
        (wrap32(x) - x) % 0x1_0000_0000 == 0,
        i32::MIN <= x <= i32::MAX ==> wrap32(x) == x,
        wrap32(x + 0x1_0000_0000) == wrap32(x),
{
    let m: int = 0x1_0000_0000;
    let y = x + 0x8000_0000;
    vstd::arithmetic::div_mod::lemma_fundamental_div_mod(y, m);
    let q = y / m;
    assert(wrap32(x) - x == -q * m) by (nonlinear_arith)
        requires
            wrap32(x) as int == y % m - 0x8000_0000,
            y == x + 0x8000_0000,
            y == m * q + y % m,
    ;
    vstd::arithmetic::div_mod::lemma_mod_multiples_basic(-q, m);
    vstd::arithmetic::div_mod::lemma_mod_add_multiples_vanish(y, m);
}

/// A number is its high half, shifted up, and its low half.
pub proof fn lemma_halves(x: i32)
    ensures
        0 <= x - 0x1_0000 * high16(x) < 0x1_0000,
        (x - low16(x as int)) % 0x1_0000 == 0,
        -0x8000 <= low16(x as int) < 0x8000,
        -0x8000 <= high16(x) < 0x8000,
{
}

/// The greater and the lesser of two numbers.
pub proof fn lemma_extremes(a: int, b: int)
    ensures
        a <= max_int(a, b) && b <= max_int(a, b),
        min_int(a, b) <= a && min_int(a, b) <= b,
        max_int(a, b) + min_int(a, b) == a + b,
        max_int(a, b) == a || max_int(a, b) == b,
{
}

} // verus!
