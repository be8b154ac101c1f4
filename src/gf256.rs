//! Arithmetic in the field with 256 elements (reduction polynomial
//! x^8 + x^4 + x^3 + x + 1), in which addition is exclusive or.
use vstd::prelude::*;

verus! {

/// Multiplication by x, reduced.
pub open spec fn xtime(a: u8) -> u8 {
    if a & 0x80u8 != 0 {
        ((a << 1u8) ^ 0x1bu8) as u8
    } else {
        (a << 1u8) as u8
    }
}

/// Shift-and-add product over the lowest `n` bits of `b`.
pub open spec fn mul_bits(a: u8, b: u8, n: nat) -> u8
    decreases n,
{
    if n == 0 {
        0
    } else {
        let low: u8 = if b & 1u8 == 1u8 { a } else { 0 };
        low ^ mul_bits(xtime(a), b >> 1u8, (n - 1) as nat)
    }
}

/// The field product.
pub open spec fn fmul(a: u8, b: u8) -> u8 {
    mul_bits(a, b, 8)
}

/// `a` raised to the power `n`.
pub open spec fn pow(a: u8, n: nat) -> u8
    decreases n,
{
    if n == 0 {
        1
    } else {
        fmul(pow(a, (n - 1) as nat), a)
    }
}

/// The multiplicative inverse of a non-zero element is its 254th power.
pub open spec fn inv(a: u8) -> u8 {
    pow(a, 254)
}

pub proof fn lemma_mul_bits_zero(a: u8, n: nat)
    ensures
        mul_bits(a, 0, n) == 0,
    decreases n,
{
    if n > 0 {
        assert(0u8 & 1u8 == 0u8 && 0u8 >> 1u8 == 0u8 && 0u8 ^ 0u8 == 0u8) by (bit_vector);
        lemma_mul_bits_zero(xtime(a), (n - 1) as nat);
    }
}

/// Zero annihilates.
pub proof fn lemma_mul_zero(a: u8)
    ensures
        fmul(a, 0) == 0,
{
    lemma_mul_bits_zero(a, 8);
}

/// One is the identity on the right.
pub proof fn lemma_mul_one(a: u8)
    ensures
        fmul(a, 1) == a,
{
    assert(1u8 & 1u8 == 1u8 && 1u8 >> 1u8 == 0u8) by (bit_vector);
    lemma_mul_bits_zero(xtime(a), 7);
    assert(a ^ 0u8 == a) by (bit_vector);
}

/// The inverse of one is one.
pub proof fn lemma_inv_one()
    ensures
        inv(1) == 1,
{
    lemma_pow_one(254);
}

proof fn lemma_pow_one(n: nat)
    ensures
        pow(1, n) == 1,
    decreases n,
{
    if n > 0 {
        lemma_pow_one((n - 1) as nat);
        lemma_mul_one(1);
    }
}

/// Multiplication by x, executable.
fn xtime_exec(a: u8) -> (r: u8)
    ensures
        r == xtime(a),
{
    if a & 0x80u8 != 0 {
        (a << 1u8) ^ 0x1bu8
    } else {
        a << 1u8
    }
}

/// The field product.
pub fn gf_mul(a: u8, b: u8) -> (r: u8)
    ensures
        r == fmul(a, b),
{
    let mut acc: u8 = 0;
    let mut x: u8 = a;
    let mut y: u8 = b;
    let mut i: u8 = 0;
    let ghost whole = fmul(a, b);
    assert(0u8 ^ whole == whole) by (bit_vector);
    while i < 8
        invariant
            i <= 8,
            acc ^ mul_bits(x, y, (8 - i) as nat) == fmul(a, b),
        decreases 8 - i,
    {
        let ghost rest = mul_bits(xtime(x), y >> 1u8, (8 - i - 1) as nat);
        let low: u8 = if y & 1u8 == 1u8 { x } else { 0 };
        assert(acc ^ (low ^ rest) == (acc ^ low) ^ rest) by (bit_vector);
        acc = acc ^ low;
        x = xtime_exec(x);
        y = y >> 1u8;
        i = i + 1;
    }
    assert(acc ^ 0u8 == acc) by (bit_vector);
    acc
}

/// The multiplicative inverse of a non-zero element (zero maps to zero).
pub fn gf_inv(a: u8) -> (r: u8)
    ensures
        r == inv(a),
{
    let mut acc: u8 = 1;
    let mut i: u16 = 0;
    while i < 254
        invariant
            i <= 254,
            acc == pow(a, i as nat),
        decreases 254 - i,
    {
        acc = gf_mul(acc, a);
        i = i + 1;
    }
    acc
}

} // verus!
