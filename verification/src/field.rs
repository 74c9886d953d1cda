//! The field of 2^128 elements in which every trace is written.

use vstd::prelude::*;
use crate::tower::{
    fits, half_bits, lemma_inverse, lemma_mul_assoc, lemma_mul_comm, lemma_mul_distrib,
    lemma_mul_fits, lemma_mul_one, lemma_mul_zero, lemma_operands, lemma_xor_assoc, lemma_xor_comm,
    lemma_xor_unit, tower_mul,
};

verus! {

/// A field element, by its coordinates over the tower basis: bit `i` is the
/// coefficient of the `i`-th basis vector.
#[derive(Clone, Copy, Debug, PartialEq, Eq, Structural)]
pub struct F128 {
    pub bits: u128,
}

impl F128 {
    pub open spec fn spec_zero() -> F128 {
        F128 { bits: 0 }
    }

    pub open spec fn spec_one() -> F128 {
        F128 { bits: 1 }
    }

    /// The neutral element of addition.
    #[verifier::when_used_as_spec(spec_zero)]
    pub fn zero() -> (r: F128)
        ensures
            r == F128::zero(),
    {
        F128 { bits: 0 }
    }

    /// The neutral element of multiplication.
    #[verifier::when_used_as_spec(spec_one)]
    pub fn one() -> (r: F128)
        ensures
            r == F128::one(),
    {
        F128 { bits: 1 }
    }

    /// Addition: exclusive or of the coordinates.
    #[verifier::opaque]
    pub open spec fn plus(self, other: F128) -> F128 {
        F128 { bits: self.bits ^ other.bits }
    }

    /// Multiplication in the top level of the tower.
    #[verifier::opaque]
    pub open spec fn times(self, other: F128) -> F128 {
        F128 { bits: tower_mul(7, self.bits, other.bits) }
    }

    /// The element whose coordinates are the binary digits of `n`.
    pub open spec fn of_nat(n: nat) -> F128 {
        F128 { bits: n as u128 }
    }

    pub fn new(lo: u64, hi: u64) -> (r: F128)
        ensures
            r.bits == lo + hi * 0x1_0000_0000_0000_0000,
    {
        proof {
            assert(hi * 0x1_0000_0000_0000_0000 + lo <= u128::MAX) by (nonlinear_arith)
                requires
                    hi <= 0xffff_ffff_ffff_ffff,
                    lo <= 0xffff_ffff_ffff_ffff,
            ;
        }
        F128 { bits: (hi as u128) * 0x1_0000_0000_0000_0000 + (lo as u128) }
    }

    pub fn from_u128(value: u128) -> (r: F128)
        ensures
            r == F128::of_nat(value as nat),
            r.bits == value,
    {
        F128 { bits: value }
    }

    pub fn from_bool(value: bool) -> (r: F128)
        ensures
            r == F128::of_bool(value),
    {
        if value {
            F128::one()
        } else {
            F128::zero()
        }
    }

    pub open spec fn of_bool(value: bool) -> F128 {
        if value {
            F128::one()
        } else {
            F128::zero()
        }
    }

    /// Zero or one.
    pub open spec fn is_bit(self) -> bool {
        self == F128::zero() || self == F128::one()
    }

    pub fn add(self, other: F128) -> (r: F128)
        ensures
            r == self.plus(other),
    {
        reveal(F128::plus);
        F128 { bits: self.bits ^ other.bits }
    }

    pub fn mul(self, other: F128) -> (r: F128)
        ensures
            r == self.times(other),
    {
        reveal(F128::times);
        F128 { bits: tower_product(7, self.bits, other.bits) }
    }
}

/// The product of two elements of tower level `k`.
fn tower_product(k: u32, a: u128, b: u128) -> (r: u128)
    requires
        k <= 7,
        fits(k as nat, a),
        fits(k as nat, b),
    ensures
        r == tower_mul(k as nat, a, b),
    decreases k,
{
    proof {
        lemma_mul_zero(k as nat, a);
        lemma_mul_zero(k as nat, b);
        lemma_mul_one(k as nat, a);
        lemma_mul_one(k as nat, b);
    }
    if a == 0 || b == 0 {
        return 0;
    }
    if a == 1 {
        return b;
    }
    if b == 1 {
        return a;
    }
    if k == 0 {
        return a & b;
    }
    let h: u32 = if k <= 1 {
        1
    } else if k == 2 {
        2
    } else if k == 3 {
        4
    } else if k == 4 {
        8
    } else if k == 5 {
        16
    } else if k == 6 {
        32
    } else {
        64
    };
    let g: u32 = if k <= 2 {
        1
    } else if k == 3 {
        2
    } else if k == 4 {
        4
    } else if k == 5 {
        8
    } else if k == 6 {
        16
    } else {
        32
    };
    let j: u32 = k - 1;
    let a1: u128 = a >> h;
    let b1: u128 = b >> h;
    let a0: u128 = a ^ (a1 << h);
    let b0: u128 = b ^ (b1 << h);
    let al: u128 = if k == 1 {
        1
    } else {
        1u128 << g
    };
    proof {
        lemma_operands(k as nat, a, b);
        assert(half_bits(k as nat) == h);
        assert(k > 1 ==> half_bits((k - 1) as nat) == g);
        lemma_shift_amount(a, h);
        lemma_shift_amount(b, h);
        lemma_shift_amount(a1, h);
        lemma_shift_amount(b1, h);
        lemma_shift_amount(1u128, g);
    }
    let z0: u128 = tower_product(j, a0, b0);
    let z2: u128 = tower_product(j, a1, b1);
    let p: u128 = tower_product(j, a0, b1);
    let q: u128 = tower_product(j, a1, b0);
    proof {
        lemma_mul_fits(j as nat, a1, b1);
    }
    let s: u128 = tower_product(j, al, z2);
    let upper: u128 = (p ^ q) ^ s;
    proof {
        lemma_shift_amount(upper, h);
    }
    (z0 ^ z2) ^ (upper << h)
}

/// A shift amount may be written in any width.
proof fn lemma_shift_amount(a: u128, h: u32)
    requires
        h < 128,
    ensures
        a >> h == a >> (h as u128),
        a << h == a << (h as u128),
{
    assert(a >> h == a >> (h as u128) && a << h == a << (h as u128)) by (bit_vector)
        requires
            h < 128,
    ;
}

/// Zero and one are the units of the two operations, and every element is its
/// own opposite.
pub broadcast proof fn lemma_plus_zero(x: F128)
    ensures
        #![trigger x.plus(F128::zero())]
        x.plus(F128::zero()) == x,
{
    reveal(F128::plus);
    lemma_xor_unit(x.bits);
}

pub broadcast proof fn lemma_zero_plus(x: F128)
    ensures
        #![trigger F128::zero().plus(x)]
        F128::zero().plus(x) == x,
{
    reveal(F128::plus);
    lemma_xor_unit(x.bits);
}

pub broadcast proof fn lemma_plus_self(x: F128)
    ensures
        #![trigger x.plus(x)]
        x.plus(x) == F128::zero(),
{
    reveal(F128::plus);
    lemma_xor_unit(x.bits);
}

pub broadcast proof fn lemma_times_zero(x: F128)
    ensures
        #![trigger x.times(F128::zero())]
        x.times(F128::zero()) == F128::zero(),
{
    reveal(F128::times);
    lemma_mul_zero(7, x.bits);
}

pub broadcast proof fn lemma_zero_times(x: F128)
    ensures
        #![trigger F128::zero().times(x)]
        F128::zero().times(x) == F128::zero(),
{
    reveal(F128::times);
    lemma_mul_zero(7, x.bits);
}

pub broadcast proof fn lemma_times_one(x: F128)
    ensures
        #![trigger x.times(F128::one())]
        x.times(F128::one()) == x,
{
    reveal(F128::times);
    lemma_mul_one(7, x.bits);
}

pub broadcast proof fn lemma_one_times(x: F128)
    ensures
        #![trigger F128::one().times(x)]
        F128::one().times(x) == x,
{
    reveal(F128::times);
    lemma_mul_one(7, x.bits);
}

/// Equations about zero, one and opposites.
pub broadcast group group_field_units {
    lemma_plus_zero,
    lemma_zero_plus,
    lemma_plus_self,
    lemma_times_zero,
    lemma_zero_times,
    lemma_times_one,
    lemma_one_times,
}

/// Addition is commutative.
pub proof fn lemma_plus_comm(x: F128, y: F128)
    ensures
        x.plus(y) == y.plus(x),
{
    reveal(F128::plus);
    lemma_xor_comm(x.bits, y.bits);
}

/// Addition is associative.
pub proof fn lemma_plus_assoc(x: F128, y: F128, w: F128)
    ensures
        x.plus(y).plus(w) == x.plus(y.plus(w)),
{
    reveal(F128::plus);
    lemma_xor_assoc(x.bits, y.bits, w.bits);
}

/// Exchanging the middle terms of a sum of sums.
pub proof fn lemma_plus_swap(a: F128, b: F128, c: F128, d: F128)
    ensures
        a.plus(b).plus(c.plus(d)) == a.plus(c).plus(b.plus(d)),
{
    lemma_plus_assoc(a, b, c.plus(d));
    lemma_plus_assoc(b, c, d);
    lemma_plus_comm(b, c);
    lemma_plus_assoc(c, b, d);
    lemma_plus_assoc(a, c, b.plus(d));
}

/// A sum is zero exactly when its two terms are equal.
pub broadcast proof fn lemma_plus_is_zero(x: F128, y: F128)
    ensures
        #![trigger x.plus(y)]
        x.plus(y) == F128::zero() <==> x == y,
        x.plus(y).plus(y) == x,
        x.plus(x.plus(y)) == y,
{
    broadcast use group_field_units;

    lemma_plus_assoc(x, y, y);
    lemma_plus_assoc(x, x, y);
    lemma_plus_comm(y, y);
    assert(x.plus(y) == F128::zero() ==> x == F128::zero().plus(y));
}

/// Multiplication is commutative.
pub proof fn lemma_times_comm(x: F128, y: F128)
    ensures
        x.times(y) == y.times(x),
{
    reveal(F128::times);
    lemma_mul_comm(7, x.bits, y.bits);
}

/// Multiplication is associative.
pub proof fn lemma_times_assoc(x: F128, y: F128, w: F128)
    ensures
        x.times(y).times(w) == x.times(y.times(w)),
{
    reveal(F128::times);
    lemma_mul_assoc(7, x.bits, y.bits, w.bits);
}

/// Multiplication distributes over addition.
pub proof fn lemma_times_plus(x: F128, y: F128, w: F128)
    ensures
        x.times(y.plus(w)) == x.times(y).plus(x.times(w)),
{
    reveal(F128::times);
    reveal(F128::plus);
    lemma_mul_distrib(7, x.bits, y.bits, w.bits);
}

/// Every element but zero has an inverse.
pub proof fn lemma_has_inverse(x: F128) -> (y: F128)
    requires
        x != F128::zero(),
    ensures
        x.times(y) == F128::one(),
{
    reveal(F128::times);
    F128 { bits: lemma_inverse(7, x.bits) }
}

/// A product is zero exactly when one of its factors is.
pub proof fn lemma_times_is_zero(x: F128, y: F128)
    ensures
        x.times(y) == F128::zero() <==> x == F128::zero() || y == F128::zero(),
{
    broadcast use group_field_units;

    if x.times(y) == F128::zero() && x != F128::zero() {
        let i = lemma_has_inverse(x);
        lemma_times_comm(x, i);
        lemma_times_assoc(i, x, y);
    }
}

/// The elements equal to their own square are zero and one.
pub proof fn lemma_square_fixed(x: F128)
    ensures
        x == x.times(x) <==> x.is_bit(),
{
    broadcast use group_field_units;

    if x == x.times(x) {
        lemma_times_plus(x, x, F128::one());
        lemma_times_is_zero(x, x.plus(F128::one()));
        lemma_plus_is_zero(x, F128::one());
    }
}

} // verus!
