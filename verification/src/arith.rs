//! Arithmetic behind the primitive readers: how the shifts, masks and casts of
//! the executable code relate to the sums and remainders of the format.
use crate::format::{
    next_amount, next_height, varuint_len, varuint_sum, varuint_value, wrap_i32, wrap_i64,
    zigzag_i32,
};
use vstd::arithmetic::div_mod::{
    lemma_fundamental_div_mod, lemma_mod_multiples_vanish, lemma_small_mod,
};
use vstd::arithmetic::power2::{
    lemma2_to64, lemma2_to64_rest, lemma_pow2_adds, lemma_pow2_pos, lemma_pow2_strictly_increases,
    pow2,
};
use vstd::bits::lemma_u64_shl_is_mul;
use vstd::prelude::*;

verus! {

/// Four bytes put together least significant first, by shifts or by weights.
pub proof fn lemma_le_u32_bits(b0: u32, b1: u32, b2: u32, b3: u32)
    requires
        b0 < 0x100,
        b1 < 0x100,
        b2 < 0x100,
        b3 < 0x100,
    ensures
        (b0 | b1 << 8 | b2 << 16 | b3 << 24) == b0 + 0x100 * b1 + 0x1_0000 * b2 + 0x100_0000 * b3,
{
    assert((b0 | b1 << 8 | b2 << 16 | b3 << 24) == b0 + 0x100 * b1 + 0x1_0000 * b2 + 0x100_0000
        * b3) by (bit_vector)
        requires
            b0 < 0x100,
            b1 < 0x100,
            b2 < 0x100,
            b3 < 0x100,
    ;
}

/// Eight bytes put together least significant first, by shifts or by weights.
pub proof fn lemma_le_u64_bits(
    b0: u64,
    b1: u64,
    b2: u64,
    b3: u64,
    b4: u64,
    b5: u64,
    b6: u64,
    b7: u64,
)
    requires
        b0 < 0x100,
        b1 < 0x100,
        b2 < 0x100,
        b3 < 0x100,
        b4 < 0x100,
        b5 < 0x100,
        b6 < 0x100,
        b7 < 0x100,
    ensures
        (b0 | b1 << 8 | b2 << 16 | b3 << 24 | b4 << 32 | b5 << 40 | b6 << 48 | b7 << 56) == (b0
            + 0x100 * b1 + 0x1_0000 * b2 + 0x100_0000 * b3) + 0x1_0000_0000 * (b4 + 0x100 * b5
            + 0x1_0000 * b6 + 0x100_0000 * b7),
{
    assert((b0 | b1 << 8 | b2 << 16 | b3 << 24 | b4 << 32 | b5 << 40 | b6 << 48 | b7 << 56) == (b0
        + 0x100 * b1 + 0x1_0000 * b2 + 0x100_0000 * b3) + 0x1_0000_0000 * (b4 + 0x100 * b5
        + 0x1_0000 * b6 + 0x100_0000 * b7)) by (bit_vector)
        requires
            b0 < 0x100,
            b1 < 0x100,
            b2 < 0x100,
            b3 < 0x100,
            b4 < 0x100,
            b5 < 0x100,
            b6 < 0x100,
            b7 < 0x100,
    ;
}

/// A varint ends with the first byte whose high bit is clear.
pub proof fn lemma_varuint_len_some(s: Seq<u8>, n: nat)
    requires
        n < s.len(),
        forall|i: int| 0 <= i < n ==> s[i] >= 0x80,
        s[n as int] < 0x80,
    ensures
        varuint_len(s) == Some(n + 1),
    decreases n,
{
    if n > 0 {
        lemma_varuint_len_some(s.skip(1), (n - 1) as nat);
    }
}

/// Bytes that all have their high bit set hold no complete varint.
pub proof fn lemma_varuint_len_none(s: Seq<u8>)
    requires
        forall|i: int| 0 <= i < s.len() ==> s[i] >= 0x80,
    ensures
        varuint_len(s) is None,
    decreases s.len(),
{
    if s.len() > 0 {
        lemma_varuint_len_none(s.skip(1));
    }
}

/// The weight of a group is 128 times that of the group before it.
pub proof fn lemma_group_weight_step(k: nat)
    ensures
        pow2(7 * (k + 1)) == 0x80 * pow2(7 * k),
        pow2(7 * k) > 0,
{
    lemma_pow2_adds(7, 7 * k);
    lemma2_to64();
    lemma_pow2_pos(7 * k);
}

/// `n` groups of seven bits stay below `2^(7n)`.
pub proof fn lemma_varuint_sum_bound(s: Seq<u8>, n: nat)
    ensures
        varuint_sum(s, n) < pow2(7 * n),
    decreases n,
{
    if n == 0 {
        lemma2_to64();
    } else {
        let k = (n - 1) as nat;
        lemma_varuint_sum_bound(s, k);
        lemma_group_weight_step(k);
        let g = s[k as int] as nat % 0x80;
        assert(g * pow2(7 * k) <= 0x7f * pow2(7 * k)) by (nonlinear_arith)
            requires
                g <= 0x7f,
        ;
    }
}

/// From the tenth group on, a group lies wholly above the 64th bit.
pub proof fn lemma_group_weight_high(k: nat)
    requires
        k >= 10,
    ensures
        pow2(7 * k) % 0x1_0000_0000_0000_0000 == 0,
{
    let rest = (7 * k - 64) as nat;
    lemma_pow2_adds(64, rest);
    lemma2_to64();
    lemma_mod_multiples_vanish(pow2(rest) as int, 0, 0x1_0000_0000_0000_0000);
}

/// A varint's value does not change with groups from the tenth on.
pub proof fn lemma_varuint_value_high(s: Seq<u8>, k: nat)
    requires
        k >= 10,
    ensures
        varuint_value(s, k + 1) == varuint_value(s, k),
{
    let m = 0x1_0000_0000_0000_0000int;
    let g = s[k as int] as nat % 0x80;
    let w = pow2(7 * k);
    lemma_group_weight_high(k);
    let q = w as int / m;
    assert(w == m * q) by {
        lemma_fundamental_div_mod(w as int, m);
    }
    assert(g * w == m * (g * q)) by (nonlinear_arith)
        requires
            w == m * q,
    ;
    lemma_mod_multiples_vanish(g * q, varuint_sum(s, k) as int, m);
    assert(varuint_sum(s, k + 1) == varuint_sum(s, k) + g * w);
}

/// One of the first ten groups enters the value by a shift and an or.
pub proof fn lemma_varuint_value_low(s: Seq<u8>, k: nat, val: u64, byte: u8)
    requires
        k < 10,
        val == varuint_value(s, k),
        byte == s[k as int],
    ensures
        val | (((byte & 0x7f) as u64) << ((7 * k) as u64)) == varuint_value(s, k + 1),
{
    let m = 0x1_0000_0000_0000_0000int;
    let shift = (7 * k) as u64;
    let g = (byte & 0x7f) as u64;
    let w = pow2(7 * k);
    assert(g == byte as nat % 0x80 && g < 0x80) by {
        assert(byte & 0x7f == byte % 0x80) by (bit_vector);
    }
    lemma_varuint_sum_bound(s, k);
    lemma_varuint_sum_bound(s, k + 1);
    lemma_group_weight_step(k);
    lemma2_to64();
    lemma2_to64_rest();
    if k < 9 {
        lemma_pow2_strictly_increases(7 * k, 63);
        lemma_pow2_strictly_increases(7 * (k + 1), 64);
    } else {
        lemma_pow2_strictly_increases(63, 64);
    }
    // below the tenth group nothing has wrapped yet
    assert(w <= 0x8000_0000_0000_0000);
    lemma_small_mod(varuint_sum(s, k), m as nat);
    assert(val == varuint_sum(s, k));
    assert(1u64 << shift == w) by {
        lemma_u64_shl_is_mul(1, shift);
    }
    assert(val | (g << shift) == val + (g << shift)) by (bit_vector)
        requires
            shift < 64,
            val < (1u64 << shift),
    ;
    if k < 9 {
        assert(g * w < pow2(7 * (k + 1))) by (nonlinear_arith)
            requires
                g < 0x80,
                w > 0,
                pow2(7 * (k + 1)) == 0x80 * w,
        ;
        lemma_u64_shl_is_mul(g, shift);
        lemma_small_mod(varuint_sum(s, k + 1), m as nat);
    } else {
        assert(g << 63 == (g % 2) * 0x8000_0000_0000_0000) by (bit_vector);
        let q = g as int / 2;
        let r = g as int % 2;
        assert(g * w == m * q + r * 0x8000_0000_0000_0000) by (nonlinear_arith)
            requires
                w == 0x8000_0000_0000_0000,
                g == 2 * q + r,
                m == 0x1_0000_0000_0000_0000,
        ;
        lemma_mod_multiples_vanish(q, val + r * 0x8000_0000_0000_0000, m);
        lemma_small_mod((val + r * 0x8000_0000_0000_0000) as nat, m as nat);
    }
}

/// Cutting a 64-bit pattern to its low 32 bits, read as signed, is reduction
/// into `i32`.
pub proof fn lemma_u64_as_i32(x: u64)
    ensures
        x as i32 == wrap_i32(x as int),
{
    let low = x % 0x1_0000_0000;
    assert(low < 0x8000_0000 ==> x as i32 == low) by (bit_vector)
        requires
            low == x % 0x1_0000_0000,
    ;
    assert(low >= 0x8000_0000 ==> x as i32 == low - 0x1_0000_0000) by (bit_vector)
        requires
            low == x % 0x1_0000_0000,
    ;
}

/// The shift-and-xor form of zigzag decoding gives the number that the code
/// stands for.
pub proof fn lemma_zigzag_bits(raw: u64, mask: u64)
    requires
        mask == (if raw & 1 == 0 {
            0
        } else {
            u64::MAX
        }),
    ensures
        ((raw >> 1) ^ mask) as i32 == zigzag_i32(raw),
{
    let half = raw >> 1;
    let x = half ^ mask;
    lemma_u64_as_i32(x);
    assert(half == raw / 2) by (bit_vector)
        requires
            half == raw >> 1,
    ;
    assert((raw & 1 == 0) <==> raw % 2 == 0) by (bit_vector);
    if raw & 1 == 0 {
        assert(half ^ 0 == half) by (bit_vector);
    } else {
        assert(half ^ 0xffff_ffff_ffff_ffff == 0xffff_ffff_ffff_ffff - half) by (bit_vector);
        // 2^64 is a multiple of 2^32
        lemma_mod_multiples_vanish(
            0x1_0000_0000,
            -(half as int) - 1 + 0x8000_0000,
            0x1_0000_0000,
        );
    }
}

/// Reinterpreting 64 bits as a signed number is reduction into `i64`.
pub proof fn lemma_u64_as_i64(v: u64)
    ensures
        v as i64 == wrap_i64(v as int),
{
    assert(v < 0x8000_0000_0000_0000 ==> v as i64 == v) by (bit_vector);
    assert(v >= 0x8000_0000_0000_0000 ==> v as i64 == v - 0x1_0000_0000_0000_0000) by (bit_vector);
}

/// Adding an unsigned delta, reinterpreted as signed, with wraparound gives
/// the next running amount.
pub proof fn lemma_next_amount(amount: i64, amount_delta: u64)
    ensures
        amount.wrapping_add(amount_delta as i64) == next_amount(amount, amount_delta),
{
    lemma_u64_as_i64(amount_delta);
}

/// Adding a signed delta, reinterpreted as unsigned, with wraparound gives
/// the next running height.
pub proof fn lemma_next_height(height: u32, height_delta: i32)
    ensures
        height.wrapping_add(height_delta as u32) == next_height(height, height_delta),
{
    assert(height_delta >= 0 ==> height_delta as u32 == height_delta) by (bit_vector);
    assert(height_delta < 0 ==> height_delta as u32 == height_delta + 0x1_0000_0000)
        by (bit_vector);
}

} // verus!
