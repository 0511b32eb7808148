//! Doubling in GF(2^128), as XTS uses it to step from one tweak to the next.
//!
//! A field element is held as sixteen bytes, least significant byte first. The
//! field is the polynomials over GF(2) modulo `x^128 + x^7 + x^2 + x + 1`.

use vstd::prelude::*;

verus! {

/// The element that sixteen bytes hold: bit `8 * i + k` is bit `k` of byte `i`.
pub open spec fn block_value(t: Seq<u8>) -> u128 {
    (t[0] as u128) | (t[1] as u128) << 8 | (t[2] as u128) << 16 | (t[3] as u128) << 24
        | (t[4] as u128) << 32 | (t[5] as u128) << 40 | (t[6] as u128) << 48
        | (t[7] as u128) << 56 | (t[8] as u128) << 64 | (t[9] as u128) << 72
        | (t[10] as u128) << 80 | (t[11] as u128) << 88 | (t[12] as u128) << 96
        | (t[13] as u128) << 104 | (t[14] as u128) << 112 | (t[15] as u128) << 120
}

/// The sixteen bytes that hold the element `v`.
pub open spec fn value_block(v: u128) -> Seq<u8> {
    seq![
        v as u8,
        (v >> 8) as u8,
        (v >> 16) as u8,
        (v >> 24) as u8,
        (v >> 32) as u8,
        (v >> 40) as u8,
        (v >> 48) as u8,
        (v >> 56) as u8,
        (v >> 64) as u8,
        (v >> 72) as u8,
        (v >> 80) as u8,
        (v >> 88) as u8,
        (v >> 96) as u8,
        (v >> 104) as u8,
        (v >> 112) as u8,
        (v >> 120) as u8,
    ]
}

/// The product of `v` and `x`: shift by one, and reduce where bit 127 leaves.
pub open spec fn mul_x(v: u128) -> u128 {
    if v >> 127 == 1 {
        (v << 1) ^ 0x87
    } else {
        v << 1
    }
}

/// The product of `v` and `x^n`.
pub open spec fn mul_x_pow(v: u128, n: nat) -> u128
    decreases n,
{
    if n == 0 {
        v
    } else {
        mul_x(mul_x_pow(v, (n - 1) as nat))
    }
}

/// Every element is the value of the bytes that hold it.
pub proof fn law_value_of_block(v: u128)
    ensures
        block_value(value_block(v)) == v,
{
    assert(((v as u8) as u128)
        | (((v >> 8) as u8) as u128) << 8
        | (((v >> 16) as u8) as u128) << 16
        | (((v >> 24) as u8) as u128) << 24
        | (((v >> 32) as u8) as u128) << 32
        | (((v >> 40) as u8) as u128) << 40
        | (((v >> 48) as u8) as u128) << 48
        | (((v >> 56) as u8) as u128) << 56
        | (((v >> 64) as u8) as u128) << 64
        | (((v >> 72) as u8) as u128) << 72
        | (((v >> 80) as u8) as u128) << 80
        | (((v >> 88) as u8) as u128) << 88
        | (((v >> 96) as u8) as u128) << 96
        | (((v >> 104) as u8) as u128) << 104
        | (((v >> 112) as u8) as u128) << 112
        | (((v >> 120) as u8) as u128) << 120 == v) by (bit_vector);
}

/// Sixteen bytes are the bytes that hold their value.
pub proof fn law_block_of_value(t: Seq<u8>)
    requires
        t.len() == 16,
    ensures
        value_block(block_value(t)) == t,
{
    let (a0, a1, a2, a3) = (t[0], t[1], t[2], t[3]);
    let (a4, a5, a6, a7) = (t[4], t[5], t[6], t[7]);
    let (a8, a9, a10, a11) = (t[8], t[9], t[10], t[11]);
    let (a12, a13, a14, a15) = (t[12], t[13], t[14], t[15]);
    let v = block_value(t);
    assert(v as u8 == a0 && (v >> 8) as u8 == a1 && (v >> 16) as u8 == a2 && (v >> 24) as u8 == a3
        && (v >> 32) as u8 == a4 && (v >> 40) as u8 == a5 && (v >> 48) as u8 == a6 && (v
        >> 56) as u8 == a7 && (v >> 64) as u8 == a8 && (v >> 72) as u8 == a9 && (v >> 80) as u8
        == a10 && (v >> 88) as u8 == a11 && (v >> 96) as u8 == a12 && (v >> 104) as u8 == a13
        && (v >> 112) as u8 == a14 && (v >> 120) as u8 == a15) by (bit_vector)
        requires
            v == (a0 as u128) | (a1 as u128) << 8 | (a2 as u128) << 16 | (a3 as u128) << 24
                | (a4 as u128) << 32 | (a5 as u128) << 40 | (a6 as u128) << 48
                | (a7 as u128) << 56 | (a8 as u128) << 64 | (a9 as u128) << 72
                | (a10 as u128) << 80 | (a11 as u128) << 88 | (a12 as u128) << 96
                | (a13 as u128) << 104 | (a14 as u128) << 112 | (a15 as u128) << 120,
    ;
    assert(value_block(v) =~= t);
}

/// Doubling distributes over addition, which is exclusive or in this field.
pub proof fn law_mul_x_adds(a: u128, b: u128)
    ensures
        mul_x(a ^ b) == mul_x(a) ^ mul_x(b),
{
    assert((if (a ^ b) >> 127 == 1 {
        ((a ^ b) << 1) ^ 0x87
    } else {
        (a ^ b) << 1
    }) == (if a >> 127 == 1 {
        (a << 1) ^ 0x87
    } else {
        a << 1
    }) ^ (if b >> 127 == 1 {
        (b << 1) ^ 0x87
    } else {
        b << 1
    })) by (bit_vector);
}

/// Doubling loses nothing: different elements have different doubles.
pub proof fn law_mul_x_injective(a: u128, b: u128)
    requires
        mul_x(a) == mul_x(b),
    ensures
        a == b,
{
    assert((if a >> 127 == 1 {
        (a << 1) ^ 0x87
    } else {
        a << 1
    }) == (if b >> 127 == 1 {
        (b << 1) ^ 0x87
    } else {
        b << 1
    }) ==> a == b) by (bit_vector);
}

/// Multiply the element in `t` by `x`.
pub fn gf128_mul_x(t: &mut [u8; 16])
    ensures
        final(t)@ == value_block(mul_x(block_value(old(t)@))),
{
    let ghost s = t@;
    let carry: u8 = (t[15] >> 7) & 1;
    let mut i: usize = 15;
    while i > 0
        invariant
            i <= 15,
            s.len() == 16,
            t@.len() == 16,
            forall|j: int| 0 <= j <= i ==> #[trigger] t@[j] == s[j],
            forall|j: int| i < j < 16 ==> #[trigger] t@[j] == (s[j] << 1) | (s[j - 1] >> 7),
        decreases i,
    {
        t[i] = (t[i] << 1) | (t[i - 1] >> 7);
        i = i - 1;
    }
    t[0] = t[0] << 1;
    if carry != 0 {
        t[0] = t[0] ^ 0x87;
    }
    proof {
        let (a0, a1, a2, a3) = (s[0], s[1], s[2], s[3]);
        let (a4, a5, a6, a7) = (s[4], s[5], s[6], s[7]);
        let (a8, a9, a10, a11) = (s[8], s[9], s[10], s[11]);
        let (a12, a13, a14, a15) = (s[12], s[13], s[14], s[15]);
        let v = block_value(s);
        let w = mul_x(v);
        assert((carry != 0) == (v >> 127 == 1)) by (bit_vector)
            requires
                carry == (a15 >> 7) & 1,
                v == (a0 as u128) | (a1 as u128) << 8 | (a2 as u128) << 16 | (a3 as u128) << 24
                    | (a4 as u128) << 32 | (a5 as u128) << 40 | (a6 as u128) << 48
                    | (a7 as u128) << 56 | (a8 as u128) << 64 | (a9 as u128) << 72
                    | (a10 as u128) << 80 | (a11 as u128) << 88 | (a12 as u128) << 96
                    | (a13 as u128) << 104 | (a14 as u128) << 112 | (a15 as u128) << 120,
        ;
        let d = v << 1;
        assert(d as u8 == a0 << 1 && (d >> 8) as u8 == (a1 << 1) | (a0 >> 7) && (d >> 16) as u8 == (
        a2 << 1) | (a1 >> 7) && (d >> 24) as u8 == (a3 << 1) | (a2 >> 7) && (d >> 32) as u8 == (a4
            << 1) | (a3 >> 7) && (d >> 40) as u8 == (a5 << 1) | (a4 >> 7) && (d >> 48) as u8 == (a6
            << 1) | (a5 >> 7) && (d >> 56) as u8 == (a7 << 1) | (a6 >> 7) && (d >> 64) as u8 == (a8
            << 1) | (a7 >> 7) && (d >> 72) as u8 == (a9 << 1) | (a8 >> 7) && (d >> 80) as u8 == (a10
            << 1) | (a9 >> 7) && (d >> 88) as u8 == (a11 << 1) | (a10 >> 7) && (d >> 96) as u8 == (
        a12 << 1) | (a11 >> 7) && (d >> 104) as u8 == (a13 << 1) | (a12 >> 7) && (d >> 112) as u8
            == (a14 << 1) | (a13 >> 7) && (d >> 120) as u8 == (a15 << 1) | (a14 >> 7)) by (bit_vector)
            requires
                d == ((a0 as u128) | (a1 as u128) << 8 | (a2 as u128) << 16 | (a3 as u128) << 24
                    | (a4 as u128) << 32 | (a5 as u128) << 40 | (a6 as u128) << 48
                    | (a7 as u128) << 56 | (a8 as u128) << 64 | (a9 as u128) << 72
                    | (a10 as u128) << 80 | (a11 as u128) << 88 | (a12 as u128) << 96
                    | (a13 as u128) << 104 | (a14 as u128) << 112 | (a15 as u128) << 120) << 1,
        ;
        assert((d ^ 0x87) as u8 == (d as u8) ^ 0x87 && ((d ^ 0x87) >> 8) as u8 == (d >> 8) as u8
            && ((d ^ 0x87) >> 16) as u8 == (d >> 16) as u8 && ((d ^ 0x87) >> 24) as u8 == (d
            >> 24) as u8 && ((d ^ 0x87) >> 32) as u8 == (d >> 32) as u8 && ((d ^ 0x87) >> 40) as u8
            == (d >> 40) as u8 && ((d ^ 0x87) >> 48) as u8 == (d >> 48) as u8 && ((d ^ 0x87)
            >> 56) as u8 == (d >> 56) as u8 && ((d ^ 0x87) >> 64) as u8 == (d >> 64) as u8 && ((d
            ^ 0x87) >> 72) as u8 == (d >> 72) as u8 && ((d ^ 0x87) >> 80) as u8 == (d >> 80) as u8
            && ((d ^ 0x87) >> 88) as u8 == (d >> 88) as u8 && ((d ^ 0x87) >> 96) as u8 == (d
            >> 96) as u8 && ((d ^ 0x87) >> 104) as u8 == (d >> 104) as u8 && ((d ^ 0x87)
            >> 112) as u8 == (d >> 112) as u8 && ((d ^ 0x87) >> 120) as u8 == (d >> 120) as u8)
            by (bit_vector);
        assert(t@ =~= value_block(w));
    }
}

} // verus!
