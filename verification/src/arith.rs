//! Integer arithmetic shared by the fixed-point kernels.
use vstd::arithmetic::div_mod::{lemma_fundamental_div_mod, lemma_fundamental_div_mod_converse};
use vstd::arithmetic::power2::{lemma2_to64, lemma_pow2_pos, lemma_pow2_unfold, pow2};
use vstd::bits::lemma_u16_shr_is_div;
use vstd::prelude::*;

verus! {

/// The byte nearest to `v`.
pub open spec fn clamp_byte(v: int) -> u8 {
    if v < 0 {
        0
    } else if v > 255 {
        255
    } else {
        v as u8
    }
}

/// `v / 2^bits`, rounded down.
pub open spec fn floor_shift(v: int, bits: int) -> int {
    v / (pow2(bits as nat) as int)
}

/// Shifts by nothing and by a byte.
pub proof fn lemma_floor_shift_values(v: int)
    ensures
        floor_shift(v, 0) == v,
        floor_shift(v, 8) == v / 256,
{
    lemma2_to64();
    assert(pow2(0) == 1 && pow2(8) == 256);
    assert(v / 1 == v);
}

/// An arithmetic right shift of a 32-bit integer rounds down.
pub proof fn lemma_i32_shr(x: i32, n: u32)
    requires
        n < 32,
    ensures
        x >> n == floor_shift(x as int, n as int),
    decreases n,
{
    if n == 0 {
        assert(x >> n == x) by (bit_vector)
            requires
                n == 0,
        ;
        lemma2_to64();
        assert(x as int / 1 == x);
    } else {
        let h: i32 = x >> 1u32;
        let m: u32 = (n - 1) as u32;
        assert(2 * h <= x < 2 * h + 2) by (bit_vector)
            requires
                h == x >> 1u32,
        ;
        assert(x >> n == h >> m) by (bit_vector)
            requires
                h == x >> 1u32,
                0 < n < 32,
                m == n - 1,
        ;
        lemma_i32_shr(h, m);
        lemma_pow2_unfold(n as nat);
        lemma_pow2_pos(m as nat);
        let d = pow2(m as nat) as int;
        let q = h as int / d;
        let r = h as int % d;
        lemma_fundamental_div_mod(h as int, d);
        assert(x == q * (2 * d) + (2 * r + (x - 2 * h))) by (nonlinear_arith)
            requires
                h as int == d * q + r,
        ;
        lemma_fundamental_div_mod_converse(x as int, 2 * d, q, 2 * r + (x - 2 * h));
        assert(pow2(n as nat) == 2 * d);
    }
}

/// A right shift of a 16-bit sample is a division that rounds down.
pub proof fn lemma_u16_shr(x: u16, n: u32)
    requires
        n < 16,
    ensures
        x >> n == floor_shift(x as int, n as int),
        0 <= floor_shift(x as int, n as int) <= x,
{
    lemma_u16_shr_is_div(x, n as u16);
    assert(x >> n <= x) by (bit_vector);
}

/// An arithmetic right shift of a 64-bit integer by eight rounds down.
pub proof fn lemma_i64_shr_8(x: i64)
    ensures
        x >> 8u32 == (x as int) / 256,
{
    let q: i64 = x >> 8u32;
    assert(q * 256 <= x < q * 256 + 256) by (bit_vector)
        requires
            q == x >> 8u32,
    ;
}

/// A product is bounded by the product of the bounds of its factors.
pub proof fn lemma_product_bound(c: int, d: int, c_bound: int, d_bound: int)
    requires
        -c_bound <= c <= c_bound,
        -d_bound <= d <= d_bound,
    ensures
        -(c_bound * d_bound) <= c * d <= c_bound * d_bound,
{
    assert(-(c_bound * d_bound) <= c * d <= c_bound * d_bound) by (nonlinear_arith)
        requires
            -c_bound <= c <= c_bound,
            -d_bound <= d <= d_bound,
    ;
}

/// The byte nearest to `v`.
pub fn clamp_to_byte(v: i64) -> (byte: u8)
    ensures
        byte == clamp_byte(v as int),
{
    if v < 0 {
        0
    } else if v > 255 {
        255
    } else {
        v as u8
    }
}

} // verus!
