//! The binary tower of fields `GF(2) < GF(4) < ... < GF(2^128)`.
//!
//! Level `k` adjoins `X_k` with `X_k^2 = X_(k-1) * X_k + 1`, where `X_0` is
//! one. An element of level `k` is an integer below `2^(2^k)`: its lower half
//! is the constant coefficient and its upper half the coefficient of `X_k`.
//! Addition is exclusive or.

use vstd::prelude::*;

verus! {

/// Bits in one coefficient of a level-`k` element, for `1 <= k <= 7`.
pub open spec fn half_bits(k: nat) -> u128 {
    if k <= 1 {
        1
    } else if k == 2 {
        2
    } else if k == 3 {
        4
    } else if k == 4 {
        8
    } else if k == 5 {
        16
    } else if k == 6 {
        32
    } else {
        64
    }
}

/// Membership in level `k`.
pub open spec fn fits(k: nat, a: u128) -> bool {
    k >= 7 || a < (1u128 << half_bits(k + 1))
}

/// The constant coefficient of a level-`k` element.
pub open spec fn low(k: nat, a: u128) -> u128 {
    a ^ ((a >> half_bits(k)) << half_bits(k))
}

/// The coefficient of `X_k` of a level-`k` element.
pub open spec fn high(k: nat, a: u128) -> u128 {
    a >> half_bits(k)
}

/// The level-`k` element with the given coefficients.
pub open spec fn join(k: nat, l: u128, h: u128) -> u128 {
    l ^ (h << half_bits(k))
}

/// `X_(k-1)` as an element of level `k - 1`, for `k >= 1`.
pub open spec fn alpha(k: nat) -> u128 {
    if k <= 1 {
        1
    } else {
        1u128 << half_bits((k - 1) as nat)
    }
}

/// Multiplication in level `k`: the product of two linear polynomials in
/// `X_k`, reduced by `X_k^2 = X_(k-1) * X_k + 1`.
pub open spec fn tower_mul(k: nat, a: u128, b: u128) -> u128
    decreases k,
{
    if k == 0 {
        a & b
    } else {
        let j = (k - 1) as nat;
        let z0 = tower_mul(j, low(k, a), low(k, b));
        let z2 = tower_mul(j, high(k, a), high(k, b));
        let z1 = tower_mul(j, low(k, a), high(k, b)) ^ tower_mul(j, high(k, a), low(k, b));
        join(k, z0 ^ z2, z1 ^ tower_mul(j, alpha(k), z2))
    }
}

/// The shifts that occur.
spec fn is_half(h: u128) -> bool {
    h == 1 || h == 2 || h == 4 || h == 8 || h == 16 || h == 32 || h == 64
}

/// Shifts are additive.
proof fn lemma_shift_xor(h: u128, a: u128, b: u128)
    requires
        is_half(h),
    ensures
        (a ^ b) >> h == (a >> h) ^ (b >> h),
        (a ^ b) << h == (a << h) ^ (b << h),
{
    assert({
        &&& (a ^ b) >> 1 == (a >> 1) ^ (b >> 1)
        &&& (a ^ b) << 1 == (a << 1) ^ (b << 1)
        &&& (a ^ b) >> 2 == (a >> 2) ^ (b >> 2)
        &&& (a ^ b) << 2 == (a << 2) ^ (b << 2)
        &&& (a ^ b) >> 4 == (a >> 4) ^ (b >> 4)
        &&& (a ^ b) << 4 == (a << 4) ^ (b << 4)
        &&& (a ^ b) >> 8 == (a >> 8) ^ (b >> 8)
        &&& (a ^ b) << 8 == (a << 8) ^ (b << 8)
        &&& (a ^ b) >> 16 == (a >> 16) ^ (b >> 16)
        &&& (a ^ b) << 16 == (a << 16) ^ (b << 16)
        &&& (a ^ b) >> 32 == (a >> 32) ^ (b >> 32)
        &&& (a ^ b) << 32 == (a << 32) ^ (b << 32)
        &&& (a ^ b) >> 64 == (a >> 64) ^ (b >> 64)
        &&& (a ^ b) << 64 == (a << 64) ^ (b << 64)
    }) by (bit_vector);
}

/// Exclusive or of halves, and how halves are put together.
proof fn lemma_halves(h: u128, a: u128, b: u128)
    requires
        is_half(h),
    ensures
        (a ^ b) >> h == (a >> h) ^ (b >> h),
        (a ^ b) ^ (((a ^ b) >> h) << h) == (a ^ ((a >> h) << h)) ^ (b ^ ((b >> h) << h)),
        (a ^ ((a >> h) << h)) < (1u128 << h),
        a == (a ^ ((a >> h) << h)) ^ ((a >> h) << h),
{
    lemma_shift_xor(h, a, b);
    lemma_shift_xor(h, a >> h, b >> h);
    lemma_xor_swap(a, b, (a >> h) << h, (b >> h) << h);
    assert((a ^ ((a >> h) << h)) < (1u128 << h)) by (bit_vector)
        requires
            1 <= h <= 64,
    ;
    assert(a == (a ^ ((a >> h) << h)) ^ ((a >> h) << h)) by (bit_vector);
}

proof fn lemma_joined(h: u128, l: u128, u: u128)
    requires
        1 <= h <= 64,
        l < (1u128 << h),
        u < (1u128 << h),
    ensures
        (l ^ (u << h)) >> h == u,
        (l ^ (u << h)) ^ (((l ^ (u << h)) >> h) << h) == l,
{
    assert((l ^ (u << h)) >> h == u) by (bit_vector)
        requires
            1 <= h <= 64,
            l < (1u128 << h),
            u < (1u128 << h),
    ;
    assert((l ^ (u << h)) ^ (u << h) == l) by (bit_vector);
}

/// Exclusive or is a commutative group of exponent two.
pub broadcast proof fn lemma_xor_assoc(a: u128, b: u128, c: u128)
    ensures
        #[trigger] ((a ^ b) ^ c) == a ^ (b ^ c),
{
    assert((a ^ b) ^ c == a ^ (b ^ c)) by (bit_vector);
}

pub broadcast proof fn lemma_xor_comm(a: u128, b: u128)
    ensures
        #[trigger] (a ^ b) == b ^ a,
{
    assert(a ^ b == b ^ a) by (bit_vector);
}

pub broadcast proof fn lemma_xor_unit(a: u128)
    ensures
        #![trigger (a ^ 0)]
        #![trigger (0 ^ a)]
        #![trigger (a ^ a)]
        a ^ 0 == a,
        0 ^ a == a,
        a ^ a == 0,
{
    assert(a ^ 0 == a && 0 ^ a == a && a ^ a == 0) by (bit_vector);
}

pub proof fn lemma_xor_cancel(a: u128, b: u128)
    requires
        a ^ b == 0,
    ensures
        a == b,
{
    assert(a == b) by (bit_vector)
        requires
            a ^ b == 0,
    ;
}

/// Exchanging the middle terms of a sum of sums.
proof fn lemma_xor_swap(a: u128, b: u128, c: u128, d: u128)
    ensures
        (a ^ b) ^ (c ^ d) == (a ^ c) ^ (b ^ d),
{
    assert((a ^ b) ^ (c ^ d) == (a ^ c) ^ (b ^ d)) by (bit_vector);
}

proof fn lemma_fits_xor(k: nat, a: u128, b: u128)
    requires
        fits(k, a),
        fits(k, b),
    ensures
        fits(k, a ^ b),
{
    if k < 7 {
        let h = half_bits(k + 1);
        assert((a ^ b) < (1u128 << h)) by (bit_vector)
            requires
                1 <= h <= 64,
                a < (1u128 << h),
                b < (1u128 << h),
        ;
    }
}

/// A level-`k` element and its two coefficients determine each other.
proof fn lemma_split(k: nat, a: u128)
    requires
        1 <= k <= 7,
        fits(k, a),
    ensures
        fits((k - 1) as nat, low(k, a)),
        fits((k - 1) as nat, high(k, a)),
        a == join(k, low(k, a), high(k, a)),
{
    let h = half_bits(k);
    lemma_halves(h, a, a);
    if k == 7 {
        assert((a >> 64) < (1u128 << 64)) by (bit_vector);
    } else {
        assert(half_bits(k + 1) == 2 * h);
        assert((a >> h) < (1u128 << h)) by (bit_vector)
            requires
                1 <= h <= 32,
                a < (1u128 << ((2 * h) as u128)),
        ;
    }
}

proof fn lemma_join(k: nat, l: u128, u: u128)
    requires
        1 <= k <= 7,
        fits((k - 1) as nat, l),
        fits((k - 1) as nat, u),
    ensures
        fits(k, join(k, l, u)),
        low(k, join(k, l, u)) == l,
        high(k, join(k, l, u)) == u,
{
    let h = half_bits(k);
    lemma_joined(h, l, u);
    if k < 7 {
        assert(half_bits(k + 1) == 2 * h);
        assert((l ^ (u << h)) < (1u128 << ((2 * h) as u128))) by (bit_vector)
            requires
                1 <= h <= 32,
                l < (1u128 << h),
                u < (1u128 << h),
        ;
    }
}

proof fn lemma_split_xor(k: nat, a: u128, b: u128)
    requires
        1 <= k <= 7,
    ensures
        low(k, a ^ b) == low(k, a) ^ low(k, b),
        high(k, a ^ b) == high(k, a) ^ high(k, b),
{
    lemma_halves(half_bits(k), a, b);
}

proof fn lemma_join_xor(k: nat, l: u128, u: u128, m: u128, v: u128)
    requires
        1 <= k <= 7,
    ensures
        join(k, l, u) ^ join(k, m, v) == join(k, l ^ m, u ^ v),
{
    let h = half_bits(k);
    lemma_shift_xor(h, u, v);
    lemma_xor_swap(l, u << h, m, v << h);
}

proof fn lemma_alpha_fits(k: nat)
    requires
        1 <= k <= 7,
    ensures
        fits((k - 1) as nat, alpha(k)),
        alpha(k) != 0,
{
    assert(1u128 < (1u128 << 1)) by (bit_vector);
    if k >= 2 {
        let h = half_bits((k - 1) as nat);
        assert(half_bits(k) == 2 * h);
        assert((1u128 << h) < (1u128 << ((2 * h) as u128)) && (1u128 << h) != 0) by (bit_vector)
            requires
                1 <= h <= 32,
        ;
    }
}

/// Products stay in their level.
pub proof fn lemma_mul_fits(k: nat, a: u128, b: u128)
    requires
        k <= 7,
        fits(k, a),
        fits(k, b),
    ensures
        fits(k, tower_mul(k, a, b)),
    decreases k,
{
    if k == 0 {
        assert(a & b < (1u128 << 1)) by (bit_vector)
            requires
                a < (1u128 << 1),
        ;
    } else {
        let j = (k - 1) as nat;
        lemma_split(k, a);
        lemma_split(k, b);
        lemma_alpha_fits(k);
        let z0 = tower_mul(j, low(k, a), low(k, b));
        let z2 = tower_mul(j, high(k, a), high(k, b));
        let p = tower_mul(j, low(k, a), high(k, b));
        let q = tower_mul(j, high(k, a), low(k, b));
        lemma_mul_fits(j, low(k, a), low(k, b));
        lemma_mul_fits(j, high(k, a), high(k, b));
        lemma_mul_fits(j, low(k, a), high(k, b));
        lemma_mul_fits(j, high(k, a), low(k, b));
        lemma_mul_fits(j, alpha(k), z2);
        lemma_fits_xor(j, z0, z2);
        lemma_fits_xor(j, p, q);
        lemma_fits_xor(j, p ^ q, tower_mul(j, alpha(k), z2));
        lemma_join(k, z0 ^ z2, (p ^ q) ^ tower_mul(j, alpha(k), z2));
    }
}

pub proof fn lemma_mul_comm(k: nat, a: u128, b: u128)
    requires
        k <= 7,
    ensures
        tower_mul(k, a, b) == tower_mul(k, b, a),
    decreases k,
{
    if k == 0 {
        assert(a & b == b & a) by (bit_vector);
    } else {
        let j = (k - 1) as nat;
        lemma_mul_comm(j, low(k, a), low(k, b));
        lemma_mul_comm(j, high(k, a), high(k, b));
        lemma_mul_comm(j, low(k, a), high(k, b));
        lemma_mul_comm(j, high(k, a), low(k, b));
        lemma_xor_comm(
            tower_mul(j, low(k, a), high(k, b)),
            tower_mul(j, high(k, a), low(k, b)),
        );
    }
}

/// Multiplication distributes over addition.
pub proof fn lemma_mul_distrib(k: nat, a: u128, b: u128, c: u128)
    requires
        k <= 7,
    ensures
        tower_mul(k, a, b ^ c) == tower_mul(k, a, b) ^ tower_mul(k, a, c),
    decreases k,
{
    if k == 0 {
        assert(a & (b ^ c) == (a & b) ^ (a & c)) by (bit_vector);
    } else {
        let j = (k - 1) as nat;
        lemma_split_xor(k, b, c);
        let (a0, a1) = (low(k, a), high(k, a));
        let (b0, b1) = (low(k, b), high(k, b));
        let (c0, c1) = (low(k, c), high(k, c));
        lemma_mul_distrib(j, a0, b0, c0);
        lemma_mul_distrib(j, a1, b1, c1);
        lemma_mul_distrib(j, a0, b1, c1);
        lemma_mul_distrib(j, a1, b0, c0);
        let zb2 = tower_mul(j, a1, b1);
        let zc2 = tower_mul(j, a1, c1);
        lemma_mul_distrib(j, alpha(k), zb2, zc2);
        lemma_xor_swap(tower_mul(j, a0, b0), tower_mul(j, a0, c0), zb2, zc2);
        let pb = tower_mul(j, a0, b1);
        let pc = tower_mul(j, a0, c1);
        let qb = tower_mul(j, a1, b0);
        let qc = tower_mul(j, a1, c0);
        let rb = tower_mul(j, alpha(k), zb2);
        let rc = tower_mul(j, alpha(k), zc2);
        lemma_xor_swap(pb, pc, qb, qc);
        lemma_xor_swap(pb ^ qb, pc ^ qc, rb, rc);
        lemma_join_xor(
            k,
            tower_mul(j, a0, b0) ^ zb2,
            (pb ^ qb) ^ rb,
            tower_mul(j, a0, c0) ^ zc2,
            (pc ^ qc) ^ rc,
        );
    }
}

pub proof fn lemma_mul_zero(k: nat, a: u128)
    requires
        k <= 7,
    ensures
        tower_mul(k, a, 0) == 0,
        tower_mul(k, 0, a) == 0,
{
    broadcast use lemma_xor_unit;

    lemma_mul_distrib(k, a, 0, 0);
    lemma_mul_comm(k, a, 0);
    let p = tower_mul(k, a, 0);
    assert(p == p ^ p);
}

pub proof fn lemma_mul_one(k: nat, a: u128)
    requires
        k <= 7,
        fits(k, a),
    ensures
        tower_mul(k, 1, a) == a,
        tower_mul(k, a, 1) == a,
    decreases k,
{
    broadcast use lemma_xor_unit;

    if k == 0 {
        assert(1 & a == a && a & 1 == a) by (bit_vector)
            requires
                a < (1u128 << 1),
        ;
    } else {
        let j = (k - 1) as nat;
        let h = half_bits(k);
        lemma_split(k, a);
        assert((1u128 >> h) == 0 && 0u128 << h == 0) by (bit_vector)
            requires
                1 <= h <= 64,
        ;
        assert(high(k, 1) == 0 && low(k, 1) == 1);
        lemma_mul_one(j, low(k, a));
        lemma_mul_one(j, high(k, a));
        lemma_mul_zero(j, low(k, a));
        lemma_mul_zero(j, high(k, a));
        lemma_mul_zero(j, alpha(k));
        lemma_mul_comm(k, 1, a);
    }
}

pub proof fn lemma_mul_distrib_left(k: nat, a: u128, b: u128, c: u128)
    requires
        k <= 7,
    ensures
        tower_mul(k, a ^ b, c) == tower_mul(k, a, c) ^ tower_mul(k, b, c),
{
    lemma_mul_comm(k, a ^ b, c);
    lemma_mul_comm(k, a, c);
    lemma_mul_comm(k, b, c);
    lemma_mul_distrib(k, c, a, b);
}

/// The coefficients of a product.
proof fn lemma_mul_parts(k: nat, a: u128, b: u128)
    requires
        1 <= k <= 7,
        fits(k, a),
        fits(k, b),
    ensures
        ({
            let j = (k - 1) as nat;
            let z2 = tower_mul(j, high(k, a), high(k, b));
            &&& low(k, tower_mul(k, a, b)) == tower_mul(j, low(k, a), low(k, b)) ^ z2
            &&& high(k, tower_mul(k, a, b)) == (tower_mul(j, low(k, a), high(k, b)) ^ tower_mul(
                j,
                high(k, a),
                low(k, b),
            )) ^ tower_mul(j, alpha(k), z2)
        }),
{
    let j = (k - 1) as nat;
    lemma_split(k, a);
    lemma_split(k, b);
    lemma_alpha_fits(k);
    let z0 = tower_mul(j, low(k, a), low(k, b));
    let z2 = tower_mul(j, high(k, a), high(k, b));
    let p = tower_mul(j, low(k, a), high(k, b));
    let q = tower_mul(j, high(k, a), low(k, b));
    lemma_mul_fits(j, low(k, a), low(k, b));
    lemma_mul_fits(j, high(k, a), high(k, b));
    lemma_mul_fits(j, low(k, a), high(k, b));
    lemma_mul_fits(j, high(k, a), low(k, b));
    lemma_mul_fits(j, alpha(k), z2);
    lemma_fits_xor(j, z0, z2);
    lemma_fits_xor(j, p, q);
    lemma_fits_xor(j, p ^ q, tower_mul(j, alpha(k), z2));
    lemma_join(k, z0 ^ z2, (p ^ q) ^ tower_mul(j, alpha(k), z2));
}

/// Equal coefficients make equal elements.
proof fn lemma_same_parts(k: nat, a: u128, b: u128)
    requires
        1 <= k <= 7,
        fits(k, a),
        fits(k, b),
        low(k, a) == low(k, b),
        high(k, a) == high(k, b),
    ensures
        a == b,
{
    lemma_split(k, a);
    lemma_split(k, b);
}

/// Multiplication is associative.
pub proof fn lemma_mul_assoc(k: nat, a: u128, b: u128, c: u128)
    requires
        k <= 7,
        fits(k, a),
        fits(k, b),
        fits(k, c),
    ensures
        tower_mul(k, tower_mul(k, a, b), c) == tower_mul(k, a, tower_mul(k, b, c)),
    decreases k,
{
    if k == 0 {
        assert((a & b) & c == a & (b & c)) by (bit_vector);
    } else {
        let j = (k - 1) as nat;
        let al = alpha(k);
        lemma_alpha_fits(k);
        lemma_split(k, a);
        lemma_split(k, b);
        lemma_split(k, c);
        let (a0, a1) = (low(k, a), high(k, a));
        let (b0, b1) = (low(k, b), high(k, b));
        let (c0, c1) = (low(k, c), high(k, c));
        lemma_mul_fits(k, a, b);
        lemma_mul_fits(k, b, c);
        lemma_mul_parts(k, a, b);
        lemma_mul_parts(k, b, c);
        lemma_mul_parts(k, tower_mul(k, a, b), c);
        lemma_mul_parts(k, a, tower_mul(k, b, c));
        lemma_mul_fits(k, tower_mul(k, a, b), c);
        lemma_mul_fits(k, a, tower_mul(k, b, c));

        let p000 = tower_mul(j, tower_mul(j, a0, b0), c0);
        let p001 = tower_mul(j, tower_mul(j, a0, b0), c1);
        let p010 = tower_mul(j, tower_mul(j, a0, b1), c0);
        let p011 = tower_mul(j, tower_mul(j, a0, b1), c1);
        let p100 = tower_mul(j, tower_mul(j, a1, b0), c0);
        let p101 = tower_mul(j, tower_mul(j, a1, b0), c1);
        let p110 = tower_mul(j, tower_mul(j, a1, b1), c0);
        let p111 = tower_mul(j, tower_mul(j, a1, b1), c1);
        lemma_mul_assoc(j, a0, b0, c0);
        lemma_mul_assoc(j, a0, b0, c1);
        lemma_mul_assoc(j, a0, b1, c0);
        lemma_mul_assoc(j, a0, b1, c1);
        lemma_mul_assoc(j, a1, b0, c0);
        lemma_mul_assoc(j, a1, b0, c1);
        lemma_mul_assoc(j, a1, b1, c0);
        lemma_mul_assoc(j, a1, b1, c1);
        let s110 = tower_mul(j, al, p110);
        let s011 = tower_mul(j, al, p011);
        let s101 = tower_mul(j, al, p101);
        let s111 = tower_mul(j, al, p111);
        let a1b1 = tower_mul(j, a1, b1);
        let b1c1 = tower_mul(j, b1, c1);
        lemma_mul_fits(j, a1, b1);
        lemma_mul_fits(j, b1, c1);
        lemma_mul_assoc(j, al, a1b1, c0);
        lemma_mul_assoc(j, al, a1b1, c1);
        // a0 * (al * b1c1) and a1 * (al * b1c1)
        lemma_mul_assoc(j, a0, al, b1c1);
        lemma_mul_comm(j, a0, al);
        lemma_mul_assoc(j, al, a0, b1c1);
        lemma_mul_assoc(j, a1, al, b1c1);
        lemma_mul_comm(j, a1, al);
        lemma_mul_assoc(j, al, a1, b1c1);

        // Left side.
        let u1 = (tower_mul(j, a0, b1) ^ tower_mul(j, a1, b0)) ^ tower_mul(j, al, a1b1);
        let u0 = tower_mul(j, a0, b0) ^ a1b1;
        lemma_mul_distrib_left(j, tower_mul(j, a0, b0), a1b1, c0);
        lemma_mul_distrib_left(j, tower_mul(j, a0, b0), a1b1, c1);
        lemma_mul_distrib_left(
            j,
            tower_mul(j, a0, b1) ^ tower_mul(j, a1, b0),
            tower_mul(j, al, a1b1),
            c0,
        );
        lemma_mul_distrib_left(
            j,
            tower_mul(j, a0, b1) ^ tower_mul(j, a1, b0),
            tower_mul(j, al, a1b1),
            c1,
        );
        lemma_mul_distrib_left(j, tower_mul(j, a0, b1), tower_mul(j, a1, b0), c0);
        lemma_mul_distrib_left(j, tower_mul(j, a0, b1), tower_mul(j, a1, b0), c1);
        assert(tower_mul(j, u1, c1) == (p011 ^ p101) ^ s111);
        assert(tower_mul(j, u1, c0) == (p010 ^ p100) ^ s110);
        lemma_mul_distrib(j, al, p011 ^ p101, s111);
        lemma_mul_distrib(j, al, p011, p101);

        // Right side.
        let v1 = (tower_mul(j, b0, c1) ^ tower_mul(j, b1, c0)) ^ tower_mul(j, al, b1c1);
        let v0 = tower_mul(j, b0, c0) ^ b1c1;
        lemma_mul_distrib(j, a0, tower_mul(j, b0, c0), b1c1);
        lemma_mul_distrib(j, a1, tower_mul(j, b0, c0), b1c1);
        lemma_mul_distrib(
            j,
            a0,
            tower_mul(j, b0, c1) ^ tower_mul(j, b1, c0),
            tower_mul(j, al, b1c1),
        );
        lemma_mul_distrib(
            j,
            a1,
            tower_mul(j, b0, c1) ^ tower_mul(j, b1, c0),
            tower_mul(j, al, b1c1),
        );
        lemma_mul_distrib(j, a0, tower_mul(j, b0, c1), tower_mul(j, b1, c0));
        lemma_mul_distrib(j, a1, tower_mul(j, b0, c1), tower_mul(j, b1, c0));
        assert(tower_mul(j, a1, v1) == (p101 ^ p110) ^ s111);
        assert(tower_mul(j, a0, v1) == (p001 ^ p010) ^ s011);
        lemma_mul_distrib(j, al, p101 ^ p110, s111);
        lemma_mul_distrib(j, al, p101, p110);

        let ss = tower_mul(j, al, s111);
        assert((p000 ^ p110) ^ ((p011 ^ p101) ^ s111) == (p000 ^ p011) ^ ((p101 ^ p110) ^ s111))
            by (bit_vector);
        assert(((p001 ^ p111) ^ ((p010 ^ p100) ^ s110)) ^ ((s011 ^ s101) ^ ss) == ((((p001 ^ p010)
            ^ s011)) ^ (p100 ^ p111)) ^ ((s101 ^ s110) ^ ss)) by (bit_vector);
        let lhs = tower_mul(k, tower_mul(k, a, b), c);
        let rhs = tower_mul(k, a, tower_mul(k, b, c));
        assert(low(k, lhs) == (p000 ^ p110) ^ ((p011 ^ p101) ^ s111));
        assert(low(k, rhs) == (p000 ^ p011) ^ ((p101 ^ p110) ^ s111));
        assert(high(k, lhs) == ((p001 ^ p111) ^ ((p010 ^ p100) ^ s110)) ^ ((s011 ^ s101) ^ ss));
        assert(high(k, rhs) == (((p001 ^ p010) ^ s011) ^ (p100 ^ p111)) ^ ((s101 ^ s110) ^ ss));
        lemma_same_parts(k, lhs, rhs);
    }
}

/// The absolute trace of a level-`k` element: zero or one.
spec fn trace(k: nat, x: u128) -> u128
    decreases k,
{
    if k == 0 {
        x
    } else {
        trace((k - 1) as nat, tower_mul((k - 1) as nat, alpha(k), high(k, x)))
    }
}

proof fn lemma_trace_xor(k: nat, x: u128, y: u128)
    requires
        k <= 7,
    ensures
        trace(k, x ^ y) == trace(k, x) ^ trace(k, y),
    decreases k,
{
    if k > 0 {
        let j = (k - 1) as nat;
        lemma_split_xor(k, x, y);
        lemma_mul_distrib(j, alpha(k), high(k, x), high(k, y));
        lemma_trace_xor(
            j,
            tower_mul(j, alpha(k), high(k, x)),
            tower_mul(j, alpha(k), high(k, y)),
        );
    }
}

/// The square of a product is the product of the squares.
proof fn lemma_square_mul(k: nat, a: u128, b: u128)
    requires
        k <= 7,
        fits(k, a),
        fits(k, b),
    ensures
        tower_mul(k, tower_mul(k, a, b), tower_mul(k, a, b)) == tower_mul(
            k,
            tower_mul(k, a, a),
            tower_mul(k, b, b),
        ),
{
    let ab = tower_mul(k, a, b);
    let bb = tower_mul(k, b, b);
    lemma_mul_fits(k, a, b);
    lemma_mul_fits(k, b, b);
    lemma_mul_assoc(k, a, b, ab);
    lemma_mul_comm(k, b, ab);
    lemma_mul_assoc(k, a, b, b);
    lemma_mul_assoc(k, a, a, bb);
}

/// Squaring a level-`k` element.
proof fn lemma_square_parts(k: nat, x: u128)
    requires
        1 <= k <= 7,
        fits(k, x),
    ensures
        ({
            let j = (k - 1) as nat;
            let x0 = low(k, x);
            let x1 = high(k, x);
            &&& low(k, tower_mul(k, x, x)) == tower_mul(j, x0, x0) ^ tower_mul(j, x1, x1)
            &&& high(k, tower_mul(k, x, x)) == tower_mul(j, alpha(k), tower_mul(j, x1, x1))
        }),
{
    broadcast use lemma_xor_unit;

    let j = (k - 1) as nat;
    lemma_mul_parts(k, x, x);
    lemma_mul_comm(j, low(k, x), high(k, x));
}

proof fn lemma_trace_square(k: nat, x: u128)
    requires
        k <= 7,
        fits(k, x),
    ensures
        trace(k, tower_mul(k, x, x)) == trace(k, x),
    decreases k,
{
    if k == 0 {
        assert(x & x == x) by (bit_vector);
    } else {
        let j = (k - 1) as nat;
        let al = alpha(k);
        lemma_alpha_fits(k);
        lemma_split(k, x);
        lemma_square_parts(k, x);
        let x1 = high(k, x);
        let y = tower_mul(j, al, x1);
        lemma_mul_fits(j, al, x1);
        lemma_mul_fits(j, x1, x1);
        lemma_square_mul(j, al, x1);
        lemma_mul_assoc(j, al, al, tower_mul(j, x1, x1));
        lemma_trace_square(j, y);
    }
}

/// The coefficients of `X_k`, and its inverse `X_k + X_(k-1)`.
proof fn lemma_generator(k: nat)
    requires
        1 <= k <= 6,
    ensures
        fits(k, alpha(k + 1)),
        low(k, alpha(k + 1)) == 0,
        high(k, alpha(k + 1)) == 1,
        fits(k, alpha(k + 1) ^ alpha(k)),
        high(k, alpha(k + 1) ^ alpha(k)) == 1,
        tower_mul(k, alpha(k + 1), alpha(k + 1) ^ alpha(k)) == 1,
{
    broadcast use lemma_xor_unit;

    let j = (k - 1) as nat;
    let h = half_bits(k);
    let x = alpha(k + 1);
    let al = alpha(k);
    lemma_alpha_fits(k);
    lemma_alpha_fits(k + 1);
    assert(0u128 << h == 0 && 0u128 < (1u128 << h) && 1u128 < (1u128 << h) && (0 ^ (1u128 << h))
        == 1u128 << h) by (bit_vector)
        requires
            1 <= h <= 32,
    ;
    lemma_join(k, 0, 1);
    lemma_join(k, al, 0);
    lemma_join(k, 1, 0);
    lemma_join_xor(k, 0, 1, al, 0);
    lemma_join(k, al, 1);
    assert(x == join(k, 0, 1));
    assert(al == join(k, al, 0));
    let y = x ^ al;
    lemma_mul_fits(k, x, y);
    lemma_mul_parts(k, x, y);
    lemma_mul_zero(j, al);
    lemma_mul_zero(j, 1);
    lemma_mul_one(j, al);
    lemma_mul_one(j, 1);
    assert(low(k, tower_mul(k, x, y)) == 1);
    assert(high(k, tower_mul(k, x, y)) == 0);
    lemma_same_parts(k, tower_mul(k, x, y), join(k, 1, 0));
}

proof fn lemma_trace_generator(k: nat)
    requires
        k <= 6,
    ensures
        trace(k, alpha(k + 1)) == 1,
    decreases k,
{
    if k > 0 {
        lemma_generator(k);
        lemma_alpha_fits(k);
        lemma_mul_one((k - 1) as nat, alpha(k));
        lemma_trace_generator((k - 1) as nat);
    }
}

/// `alpha(k + 1)` has an inverse of trace one.
proof fn lemma_alpha_inverse(k: nat) -> (b: u128)
    requires
        k <= 6,
    ensures
        fits(k, b),
        tower_mul(k, alpha(k + 1), b) == 1,
        trace(k, b) == 1,
{
    if k == 0 {
        assert(1u128 & 1 == 1 && 1u128 < (1u128 << 1)) by (bit_vector);
        1
    } else {
        lemma_generator(k);
        lemma_alpha_fits(k);
        lemma_mul_one((k - 1) as nat, alpha(k));
        lemma_trace_generator((k - 1) as nat);
        alpha(k + 1) ^ alpha(k)
    }
}

/// The polynomial `t^2 + alpha * t + 1` has no root in its level.
proof fn lemma_irreducible(k: nat, t: u128)
    requires
        k <= 6,
        fits(k, t),
    ensures
        (tower_mul(k, t, t) ^ tower_mul(k, alpha(k + 1), t)) ^ 1 != 0,
{
    broadcast use lemma_xor_unit;

    let al = alpha(k + 1);
    lemma_alpha_fits(k + 1);
    if (tower_mul(k, t, t) ^ tower_mul(k, al, t)) ^ 1 == 0 {
        let b = lemma_alpha_inverse(k);
        let bb = tower_mul(k, b, b);
        let y = tower_mul(k, b, t);
        lemma_mul_fits(k, b, b);
        lemma_mul_fits(k, t, t);
        lemma_mul_fits(k, b, t);
        lemma_mul_fits(k, al, t);
        // bb * (t^2 + al * t + 1) == y^2 + y + bb
        lemma_square_mul(k, b, t);
        lemma_mul_assoc(k, b, b, tower_mul(k, al, t));
        lemma_mul_assoc(k, b, al, t);
        lemma_mul_comm(k, b, al);
        lemma_mul_one(k, t);
        lemma_mul_one(k, bb);
        lemma_mul_distrib(k, bb, tower_mul(k, t, t) ^ tower_mul(k, al, t), 1);
        lemma_mul_distrib(k, bb, tower_mul(k, t, t), tower_mul(k, al, t));
        lemma_mul_zero(k, bb);
        let yy = tower_mul(k, y, y);
        assert((yy ^ y) ^ bb == 0);
        lemma_xor_cancel(yy ^ y, bb);
        lemma_trace_xor(k, yy, y);
        lemma_trace_square(k, y);
        lemma_trace_square(k, b);
        assert(trace(k, bb) == 0);
    }
}

/// Every element but zero has an inverse.
pub proof fn lemma_inverse(k: nat, x: u128) -> (y: u128)
    requires
        k <= 7,
        fits(k, x),
        x != 0,
    ensures
        fits(k, y),
        tower_mul(k, x, y) == 1,
    decreases k,
{
    broadcast use lemma_xor_unit;

    if k == 0 {
        assert(x == 1 && 1u128 & 1 == 1) by (bit_vector)
            requires
                x < (1u128 << 1),
                x != 0,
        ;
        1
    } else {
        let j = (k - 1) as nat;
        let h = half_bits(k);
        let al = alpha(k);
        lemma_alpha_fits(k);
        lemma_split(k, x);
        let (x0, x1) = (low(k, x), high(k, x));
        assert(0u128 << h == 0 && 0u128 < (1u128 << h) && 1u128 < (1u128 << h)) by (bit_vector)
            requires
                1 <= h <= 64,
        ;
        assert(fits(j, 0) && fits(j, 1));
        lemma_join(k, 1, 0);
        assert(join(k, 1, 0) == 1);
        if x1 == 0 {
            let y0 = lemma_inverse(j, x0);
            let y = join(k, y0, 0);
            lemma_join(k, y0, 0);
            lemma_mul_fits(k, x, y);
            lemma_mul_parts(k, x, y);
            lemma_mul_zero(j, 0);
            lemma_mul_zero(j, x0);
            lemma_mul_zero(j, y0);
            lemma_mul_zero(j, al);
            lemma_same_parts(k, tower_mul(k, x, y), 1);
            y
        } else {
            let i = lemma_inverse(j, x1);
            let s0 = tower_mul(j, x0, x0);
            let s1 = tower_mul(j, x1, x1);
            let m = tower_mul(j, x0, x1);
            let am = tower_mul(j, al, m);
            let norm = (s0 ^ am) ^ s1;
            lemma_mul_fits(j, x0, x0);
            lemma_mul_fits(j, x1, x1);
            lemma_mul_fits(j, x0, x1);
            lemma_mul_fits(j, al, m);
            lemma_fits_xor(j, s0, am);
            lemma_fits_xor(j, s0 ^ am, s1);
            if norm == 0 {
                let ii = tower_mul(j, i, i);
                let t = tower_mul(j, x0, i);
                lemma_mul_fits(j, i, i);
                lemma_mul_fits(j, x0, i);
                lemma_mul_comm(j, x0, i);
                lemma_mul_comm(j, x1, i);
                lemma_square_mul(j, i, x0);
                lemma_square_mul(j, i, x1);
                lemma_mul_one(j, 1);
                // ii * (al * (x0 * x1)) == al * t
                lemma_mul_assoc(j, ii, al, m);
                lemma_mul_comm(j, ii, al);
                lemma_mul_assoc(j, al, ii, m);
                lemma_mul_assoc(j, i, i, m);
                lemma_mul_comm(j, x0, x1);
                lemma_mul_assoc(j, i, x1, x0);
                lemma_mul_one(j, x0);
                lemma_mul_distrib(j, ii, s0 ^ am, s1);
                lemma_mul_distrib(j, ii, s0, am);
                lemma_mul_zero(j, ii);
                assert((tower_mul(j, t, t) ^ tower_mul(j, al, t)) ^ 1 == 0);
                lemma_irreducible(j, t);
            }
            let n = lemma_inverse(j, norm);
            let c0 = x0 ^ tower_mul(j, al, x1);
            lemma_mul_fits(j, al, x1);
            lemma_fits_xor(j, x0, tower_mul(j, al, x1));
            let conj = join(k, c0, x1);
            lemma_join(k, c0, x1);
            lemma_join(k, norm, 0);
            lemma_join(k, n, 0);
            lemma_mul_fits(k, x, conj);
            lemma_mul_parts(k, x, conj);
            lemma_mul_distrib(j, x0, x0, tower_mul(j, al, x1));
            lemma_mul_distrib(j, x1, x0, tower_mul(j, al, x1));
            lemma_mul_comm(j, x0, x1);
            lemma_mul_assoc(j, x0, al, x1);
            lemma_mul_comm(j, x0, al);
            lemma_mul_assoc(j, al, x0, x1);
            lemma_mul_assoc(j, x1, al, x1);
            lemma_mul_comm(j, x1, al);
            lemma_mul_assoc(j, al, x1, x1);
            let as1 = tower_mul(j, al, s1);
            assert((m ^ (m ^ as1)) ^ as1 == 0) by (bit_vector);
            assert(high(k, tower_mul(k, x, conj)) == 0);
            assert(low(k, tower_mul(k, x, conj)) == norm);
            lemma_same_parts(k, tower_mul(k, x, conj), join(k, norm, 0));
            // norm and its inverse, embedded
            let en = join(k, norm, 0);
            let ei = join(k, n, 0);
            lemma_mul_fits(k, en, ei);
            lemma_mul_parts(k, en, ei);
            lemma_mul_zero(j, 0);
            lemma_mul_zero(j, norm);
            lemma_mul_zero(j, n);
            lemma_mul_zero(j, al);
            lemma_same_parts(k, tower_mul(k, en, ei), 1);
            lemma_mul_assoc(k, x, conj, ei);
            lemma_mul_fits(k, conj, ei);
            tower_mul(k, conj, ei)
        }
    }
}

/// The operands of the products that make up one product.
pub proof fn lemma_operands(k: nat, a: u128, b: u128)
    requires
        1 <= k <= 7,
        fits(k, a),
        fits(k, b),
    ensures
        fits((k - 1) as nat, low(k, a)),
        fits((k - 1) as nat, high(k, a)),
        fits((k - 1) as nat, low(k, b)),
        fits((k - 1) as nat, high(k, b)),
        fits((k - 1) as nat, alpha(k)),
{
    lemma_split(k, a);
    lemma_split(k, b);
    lemma_alpha_fits(k);
}

/// The square of `2` is `3` in every level above the first.
pub proof fn lemma_square_two(k: nat)
    requires
        1 <= k <= 7,
    ensures
        tower_mul(k, 2, 2) == 3,
    decreases k,
{
    assert({
        &&& 2u128 >> 1 == 1 && 2u128 ^ (1u128 << 1) == 0
        &&& 0u128 & 0 == 0 && 1u128 & 1 == 1 && 0u128 & 1 == 0 && 1u128 & 0 == 0
        &&& 0u128 ^ 1 == 1 && 0u128 ^ 0 == 0 && 1u128 ^ (1u128 << 1) == 3
        &&& 2u128 >> 2 == 0 && 0u128 << 2 == 0
        &&& 2u128 >> 4 == 0 && 0u128 << 4 == 0
        &&& 2u128 >> 8 == 0 && 0u128 << 8 == 0
        &&& 2u128 >> 16 == 0 && 0u128 << 16 == 0
        &&& 2u128 >> 32 == 0 && 0u128 << 32 == 0
        &&& 2u128 >> 64 == 0 && 0u128 << 64 == 0
        &&& 2u128 ^ 0 == 2 && 3u128 ^ 0 == 3
    }) by (bit_vector);
    if k == 1 {
        reveal_with_fuel(tower_mul, 2);
    } else {
        let j = (k - 1) as nat;
        lemma_square_two(j);
        lemma_mul_zero(j, 2);
        lemma_mul_zero(j, 0);
        lemma_mul_zero(j, alpha(k));
        lemma_xor_unit(3);
        lemma_xor_unit(0);
    }
}

} // verus!
