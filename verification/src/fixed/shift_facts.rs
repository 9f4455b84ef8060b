//! Arithmetic facts about shifts and floor division shared by the operators.

use vstd::arithmetic::div_mod::{lemma_fundamental_div_mod, lemma_fundamental_div_mod_converse};
use vstd::arithmetic::mul::{lemma_mul_inequality, lemma_mul_is_associative};
use vstd::arithmetic::power2::{lemma2_to64, lemma_pow2_pos, lemma_pow2_unfold, pow2};
use vstd::prelude::*;

verus! {

/// Floor division by `c` and then by `d` is floor division by `c * d`, for
/// every integer `x` (negative ones included).
pub proof fn lemma_floor_div_twice(x: int, c: int, d: int)
    requires
        c > 0,
        d > 0,
    ensures
        (x / c) / d == x / (c * d),
        c * d > 0,
{
    let q1 = x / c;
    let r1 = x % c;
    lemma_fundamental_div_mod(x, c);
    let q2 = q1 / d;
    let r2 = q1 % d;
    lemma_fundamental_div_mod(q1, d);
    assert(c * d > 0) by (nonlinear_arith)
        requires
            c > 0,
            d > 0,
    ;
    assert(x == (c * d) * q2 + (c * r2 + r1) && 0 <= c * r2 + r1 < c * d) by (nonlinear_arith)
        requires
            x == c * q1 + r1,
            q1 == d * q2 + r2,
            0 <= r1 < c,
            0 <= r2 < d,
            c > 0,
            d > 0,
    ;
    lemma_fundamental_div_mod_converse(x, c * d, q2, c * r2 + r1);
}

/// Arithmetic right shift of a 32-bit value is floor division by a power of
/// two.
pub proof fn lemma_shr_is_floor_div(x: i32, k: u32)
    requires
        k < 32,
    ensures
        (x >> k) as int == x as int / pow2(k as nat) as int,
    decreases k,
{
    lemma2_to64();
    if k == 0 {
        assert(x >> 0u32 == x) by (bit_vector);
    } else {
        let j = (k - 1) as u32;
        lemma_shr_is_floor_div(x, j);
        assert(x >> k == (x >> j) / 2) by (bit_vector)
            requires
                j < 31,
                k == j + 1,
        ;
        lemma_pow2_pos(j as nat);
        lemma_pow2_unfold(k as nat);
        lemma_floor_div_twice(x as int, pow2(j as nat) as int, 2);
    }
}

/// Doubling a value `k` times multiplies it by `2^k`; larger shifts give
/// larger magnitudes.
pub proof fn lemma_pow2_mul_grows(x: int, i: nat, n: nat)
    requires
        i <= n,
        x >= 0,
    ensures
        x * pow2(i) <= x * pow2(n),
    decreases n - i,
{
    if i < n {
        lemma_pow2_mul_grows(x, i, (n - 1) as nat);
        lemma_pow2_unfold(n);
        lemma_pow2_pos((n - 1) as nat);
        assert(x * pow2((n - 1) as nat) <= x * pow2(n)) by (nonlinear_arith)
            requires
                x >= 0,
                pow2(n) == 2 * pow2((n - 1) as nat),
                pow2((n - 1) as nat) > 0,
        ;
    }
}

/// Multiplying by `2^0` changes nothing.
pub proof fn lemma_mul_pow2_zero(x: int)
    ensures
        x * pow2(0) == x,
        x / (pow2(0) as int) == x,
{
    lemma2_to64();
    assert(x * pow2(0) == x) by (nonlinear_arith)
        requires
            pow2(0) == 1,
    ;
}

/// `pow2` is monotone.
pub proof fn lemma_pow2_le(a: nat, b: nat)
    requires
        a <= b,
    ensures
        pow2(a) <= pow2(b),
{
    if a < b {
        vstd::arithmetic::power2::lemma_pow2_strictly_increases(a, b);
    }
}

/// Floor division by `d >= 1` moves a value towards zero without crossing
/// it.
pub proof fn lemma_floor_div_between(x: int, d: int)
    requires
        d >= 1,
    ensures
        x >= 0 ==> 0 <= x / d <= x,
        x < 0 ==> x <= x / d < 0,
{
    lemma_fundamental_div_mod(x, d);
    let q = x / d;
    let r = x % d;
    assert(x >= 0 ==> 0 <= q <= x) by (nonlinear_arith)
        requires
            x == d * q + r,
            0 <= r < d,
            d >= 1,
    ;
    assert(x < 0 ==> x <= q < 0) by (nonlinear_arith)
        requires
            x == d * q + r,
            0 <= r < d,
            d >= 1,
    ;
}

/// The low bit of a 16-bit word is its remainder modulo 2.
pub proof fn lemma_low_bit(x: i16)
    ensures
        (x & 1) == x % 2,
{
    assert((x & 1) == x % 2) by (bit_vector);
}

/// The low 15 bits of a 16-bit word are its remainder modulo 2^15.
pub proof fn lemma_low15(x: i16)
    ensures
        (x & 0x7fff) as int == (x as int) % 32768,
{
    assert((x & 0x7fff) as int == (x as int) % 32768) by (bit_vector);
}

} // verus!
