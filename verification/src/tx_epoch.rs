//! Exact 144-block transaction-epoch boundary arithmetic.
//!
//! The trace binds `height = 144 * quotient + remainder` with
//! `remainder < 144`, and derives whether the remainder is zero. Quotient and
//! remainder are witnesses; the boundary selector is an expression over the
//! remainder's digits.

use vstd::prelude::*;
use vstd::arithmetic::power2::{lemma_pow2_pos, pow2};
use crate::bits::{
    all_bits, bits_value, integer_add_no_overflow, integer_add_rows, lemma_bits_stable,
    lemma_integer_add_sound, lemma_lt_sound, lemma_nat_bits_small, lemma_pow2_bound,
    lemma_range_sound, lemma_weighted, lemma_weighted_below, lt_rows, pin_lt_strict,
    range_check_bits, range_rows, weighted, weighted_sum, wire_exprs, wire_lins,
};
use crate::circuit::{
    all_below, alloc_block, free_row, group_circuit, lemma_free_sound, lemma_mul_sound,
    lemma_pin_sound, mul_rows, pin_eq, pin_rows, sat, FieldR1csBuilder, Lin, LinExpr, Row, Wire,
};
use crate::field::{lemma_plus_is_zero, F128};

verus! {

broadcast use group_circuit;

/// Blocks of one transaction epoch.
pub const TX_EPOCH_BLOCKS: u64 = 144;

/// Digits of a height.
pub const HEIGHT_BITS: usize = 64;

/// Digits of a quotient.
pub const QUOTIENT_BITS: usize = 57;

/// Digits of a remainder.
pub const REMAINDER_BITS: usize = 8;

/// A height as quotient and remainder by the epoch length.
#[derive(Clone, Copy, Debug, PartialEq, Eq, Structural)]
pub struct TxEpochHeightDecomposition {
    pub quotient: u64,
    pub remainder: u64,
}

/// The decomposition of a height.
pub fn tx_epoch_height_decomposition(height: u64) -> (r: TxEpochHeightDecomposition)
    ensures
        r.quotient == height / 144,
        r.remainder == height % 144,
{
    TxEpochHeightDecomposition {
        quotient: height / TX_EPOCH_BLOCKS,
        remainder: height % TX_EPOCH_BLOCKS,
    }
}

/// The constrained decomposition of a height.
pub struct TxEpochBoundaryTrace {
    pub quotient: LinExpr,
    pub remainder: LinExpr,
    /// One exactly when the remainder is zero.
    pub boundary: LinExpr,
}

/// The product of `1 + bit` over the first `n` digits.
pub open spec fn all_zero_rows(c: Seq<Row>, bits: Seq<Lin>, n: nat) -> (Seq<Row>, Lin)
    decreases n,
{
    if n == 0 {
        (c, Lin::constant(F128::one()))
    } else {
        let (c1, acc) = all_zero_rows(c, bits, (n - 1) as nat);
        mul_rows(c1, acc, bits[n - 1].plus_const(F128::one()))
    }
}

proof fn lemma_all_zero_sound(c: Seq<Row>, bits: Seq<Lin>, n: nat, z: Seq<F128>)
    requires
        n <= bits.len(),
        all_bits(bits, z),
        sat(all_zero_rows(c, bits, n).0, z),
    ensures
        sat(c, z),
        all_zero_rows(c, bits, n).1.eval(z) == F128::of_bool(bits_value(bits.take(n as int), z) == 0),
    decreases n,
{
    reveal(all_bits);
    if n == 0 {
        assert(bits.take(0) =~= Seq::empty());
    } else {
        let (c1, acc) = all_zero_rows(c, bits, (n - 1) as nat);
        lemma_mul_sound(c1, acc, bits[n - 1].plus_const(F128::one()), z);
        lemma_all_zero_sound(c, bits, (n - 1) as nat, z);
        crate::bits::lemma_bits_value_take(bits, n, z);
        lemma_pow2_pos((n - 1) as nat);
        let p = pow2((n - 1) as nat);
        assert(1 * p == p && 0 * p == 0) by (nonlinear_arith);
        assert(bits[n - 1].eval(z).is_bit());
    }
}

/// The rows of a decomposition, and the expressions for quotient, remainder
/// and boundary.
pub open spec fn epoch_rows(c: Seq<Row>, height: Lin) -> (Seq<Row>, Lin, Lin, Lin) {
    let quotient = Lin::wire(c.len() as usize);
    let (c1, qb) = range_rows(c.push(free_row(c.len() as usize)), quotient, 57);
    let remainder = Lin::wire(c1.len() as usize);
    let (c2, rb) = range_rows(c1.push(free_row(c1.len() as usize)), remainder, 8);
    let (c3, eb) = range_rows(c2, Lin::constant(F128::of_nat(144)), 8);
    let c4 = lt_rows(c3, rb, eb);
    let (c5, q144) = integer_add_rows(c4, weighted(qb, 7), weighted(qb, 4), 64);
    let (c6, sum) = integer_add_rows(c5, q144, remainder, 64);
    let c7 = pin_rows(c6, height.plus(sum));
    let (c8, boundary) = all_zero_rows(c7, rb, 8);
    (c8, quotient, remainder, boundary)
}

/// Under every satisfying assignment the height has 64 digits, quotient and
/// remainder are its quotient and remainder by 144, and the boundary is one
/// exactly at multiples of 144.
pub proof fn lemma_epoch_sound(c: Seq<Row>, height: Lin, z: Seq<F128>)
    requires
        sat(epoch_rows(c, height).0, z),
    ensures
        sat(c, z),
        ({
            let (_, quotient, remainder, boundary) = epoch_rows(c, height);
            let h = height.eval(z).bits;
            &&& h < pow2(64)
            &&& quotient.eval(z) == F128::of_nat((h / 144) as nat)
            &&& remainder.eval(z) == F128::of_nat((h % 144) as nat)
            &&& boundary.eval(z) == F128::of_bool(h % 144 == 0)
        }),
{
    broadcast use lemma_plus_is_zero;

    let quotient = Lin::wire(c.len() as usize);
    let c0 = c.push(free_row(c.len() as usize));
    let (c1, qb) = range_rows(c0, quotient, 57);
    let remainder = Lin::wire(c1.len() as usize);
    let c1f = c1.push(free_row(c1.len() as usize));
    let (c2, rb) = range_rows(c1f, remainder, 8);
    let (c3, eb) = range_rows(c2, Lin::constant(F128::of_nat(144)), 8);
    let c4 = lt_rows(c3, rb, eb);
    let (c5, q144) = integer_add_rows(c4, weighted(qb, 7), weighted(qb, 4), 64);
    let (c6, sum) = integer_add_rows(c5, q144, remainder, 64);
    let c7 = pin_rows(c6, height.plus(sum));
    lemma_all_zero_prefix(c7, rb, 8, z);
    lemma_pin_sound(c6, height.plus(sum), z);
    lemma_integer_add_sound(c5, q144, remainder, 64, z);
    lemma_integer_add_sound(c4, weighted(qb, 7), weighted(qb, 4), 64, z);
    lemma_lt_prefix(c3, rb, eb, z);
    lemma_range_sound(c2, Lin::constant(F128::of_nat(144)), 8, z);
    lemma_range_sound(c1f, remainder, 8, z);
    lemma_free_sound(c1, z);
    lemma_range_sound(c0, quotient, 57, z);
    lemma_free_sound(c, z);
    lemma_lt_sound(c3, rb, eb, z);
    lemma_all_zero_sound(c7, rb, 8, z);
    assert(rb.take(8) =~= rb);
    let q = bits_value(qb, z);
    let r = bits_value(rb, z);
    lemma_weighted(qb, 7, z);
    lemma_weighted(qb, 4, z);
    lemma_recompose(q, r);
}

/// `(q << 7) + (q << 4) + r` within 64 digits.
proof fn lemma_recompose(q: nat, r: nat)
    requires
        q < pow2(57),
        r < 144,
    ensures
        pow2(7) * q <= u128::MAX,
        pow2(4) * q <= u128::MAX,
        pow2(7) * q + pow2(4) * q == 144 * q,
        144 * q + r <= u128::MAX,
        (144 * q + r) / 144 == q,
        (144 * q + r) % 144 == r,
{
    vstd::arithmetic::power2::lemma2_to64();
    lemma_pow2_bound(57, 64);
    vstd::arithmetic::power2::lemma2_to64_rest();
    assert(pow2(7) * q == 128 * q && pow2(4) * q == 16 * q) by (nonlinear_arith)
        requires
            pow2(7) == 128,
            pow2(4) == 16,
    ;
}

proof fn lemma_all_zero_prefix(c: Seq<Row>, bits: Seq<Lin>, n: nat, z: Seq<F128>)
    requires
        sat(all_zero_rows(c, bits, n).0, z),
    ensures
        sat(c, z),
    decreases n,
{
    if n > 0 {
        let (c1, acc) = all_zero_rows(c, bits, (n - 1) as nat);
        lemma_mul_sound(c1, acc, bits[n - 1].plus_const(F128::one()), z);
        lemma_all_zero_prefix(c, bits, (n - 1) as nat, z);
    }
}

proof fn lemma_lt_prefix(c: Seq<Row>, l: Seq<Lin>, r: Seq<Lin>, z: Seq<F128>)
    requires
        sat(lt_rows(c, l, r), z),
    ensures
        sat(c, z),
{
    let (c1, _, less, _) = crate::bits::less_rows(c, l, r, 0);
    lemma_pin_sound(c1, less.plus_const(F128::one()), z);
    crate::bits::lemma_less_prefix(c, l, r, 0, z);
}

/// An expression that is one exactly when every digit is zero.
fn all_zero(b: &mut FieldR1csBuilder, bits: &Vec<Wire>) -> (r: LinExpr)
    requires
        old(b)@.wf(),
        all_below(wire_lins(bits@), old(b)@.rows.len()),
    ensures
        (final(b)@.rows, r@) == all_zero_rows(old(b)@.rows, wire_lins(bits@), bits@.len()),
        final(b)@.grows(old(b)@),
        final(b)@.honest() <==> old(b)@.honest(),
        r@.below(final(b)@.rows.len()),
{
    let ghost bl = wire_lins(bits@);
    let mut acc = LinExpr::constant(F128::one());
    let mut i: usize = 0;
    while i < bits.len()
        invariant
            i <= bits@.len(),
            bl == wire_lins(bits@),
            all_below(bl, old(b)@.rows.len()),
            b@.grows(old(b)@),
            b@.honest() <==> old(b)@.honest(),
            (b@.rows, acc@) == all_zero_rows(old(b)@.rows, bl, i as nat),
            acc@.below(b@.rows.len()),
        decreases bits@.len() - i,
    {
        assert(bl[i as int].below(old(b)@.rows.len()));
        let not_bit = LinExpr::from_wire(bits[i]).add_const(F128::one());
        acc = crate::circuit::mul(b, &acc, &not_bit);
        i += 1;
    }
    acc
}

/// Binds a height to the given quotient and remainder.
///
/// See [`lemma_epoch_sound`] for what the constraints bind.
pub fn constrain_tx_epoch_boundary_with_decomposition(
    b: &mut FieldR1csBuilder,
    height: &LinExpr,
    decomposition: TxEpochHeightDecomposition,
) -> (r: TxEpochBoundaryTrace)
    requires
        old(b)@.wf(),
        height@.below(old(b)@.rows.len()),
    ensures
        (final(b)@.rows, r.quotient@, r.remainder@, r.boundary@) == epoch_rows(
            old(b)@.rows,
            height@,
        ),
        final(b)@.grows(old(b)@),
        r.quotient@.below(final(b)@.rows.len()),
        r.remainder@.below(final(b)@.rows.len()),
        r.boundary@.below(final(b)@.rows.len()),
        r.quotient@.eval(final(b)@.values) == F128::of_nat(decomposition.quotient as nat),
        r.remainder@.eval(final(b)@.values) == F128::of_nat(decomposition.remainder as nat),
        final(b)@.honest() <==> {
            &&& old(b)@.honest()
            &&& height@.eval(old(b)@.values).bits < pow2(64)
            &&& decomposition.quotient == height@.eval(old(b)@.values).bits / 144
            &&& decomposition.remainder == height@.eval(old(b)@.values).bits % 144
        },
{
    let quotient = alloc_block(b, F128::from_u128(decomposition.quotient as u128));
    let ghost a1 = b@;
    let quotient_bits = range_check_bits(b, &quotient, QUOTIENT_BITS);
    let ghost a2 = b@;
    let remainder = alloc_block(b, F128::from_u128(decomposition.remainder as u128));
    let ghost a3 = b@;
    let remainder_bits = range_check_bits(b, &remainder, REMAINDER_BITS);
    let ghost a4 = b@;
    let epoch = LinExpr::constant(F128::from_u128(TX_EPOCH_BLOCKS as u128));
    let epoch_bits = range_check_bits(b, &epoch, REMAINDER_BITS);
    let ghost a5 = b@;
    let ghost qb = wire_lins(quotient_bits@);
    let ghost rb = wire_lins(remainder_bits@);
    let ghost eb = wire_lins(epoch_bits@);
    proof {
        lemma_bits_stable(a4, a5, rb);
        lemma_bits_stable(a2, a5, qb);
    }
    pin_lt_strict(b, &remainder_bits, &epoch_bits);
    let ghost a6 = b@;
    proof {
        lemma_bits_stable(a5, a6, qb);
        lemma_bits_stable(a5, a6, rb);
        lemma_weighted_below(qb, 7, a6.rows.len());
        lemma_weighted_below(qb, 4, a6.rows.len());
    }
    let quotient_exprs = wire_exprs(&quotient_bits);
    let times_128 = weighted_sum(&quotient_exprs, 7);
    let times_16 = weighted_sum(&quotient_exprs, 4);
    let times_144 = integer_add_no_overflow(b, &times_128, &times_16, HEIGHT_BITS);
    let ghost a7 = b@;
    let recomposed = integer_add_no_overflow(b, &times_144, &remainder, HEIGHT_BITS);
    let ghost a8 = b@;
    pin_eq(b, height, &recomposed);
    let ghost a9 = b@;
    proof {
        lemma_bits_stable(a6, a9, rb);
    }
    let boundary = all_zero(b, &remainder_bits);
    proof {
        let q = decomposition.quotient as nat;
        let r = decomposition.remainder as nat;
        let h = height@.eval(old(b)@.values).bits;
        vstd::arithmetic::power2::lemma2_to64();
        vstd::arithmetic::power2::lemma2_to64_rest();
        if a5.honest() {
            lemma_nat_bits_small(q, 57);
            lemma_nat_bits_small(r, 8);
            lemma_nat_bits_small(144, 8);
            assert(bits_value(qb, a5.values) == q);
            assert(bits_value(rb, a5.values) == r);
            assert(bits_value(eb, a5.values) == 144);
        }
        if a6.honest() {
            lemma_weighted(qb, 7, a6.values);
            lemma_weighted(qb, 4, a6.values);
            lemma_recompose(q, r);
        }
        if a7.honest() {
            lemma_integer_add_sound(a6.rows, times_128@, times_16@, 64, a7.values);
            assert(times_144@.eval(a7.values) == F128::of_nat(144 * q));
        }
        if a8.honest() {
            lemma_integer_add_sound(a7.rows, times_144@, remainder@, 64, a8.values);
            assert(recomposed@.eval(a8.values) == F128::of_nat(144 * q + r));
        }
        if b@.honest() {
            lemma_epoch_sound(old(b)@.rows, height@, b@.values);
        }
        if old(b)@.honest() && h < pow2(64) && q == h / 144 && r == h % 144 {
            assert(q < pow2(57));
            assert(a6.honest());
            assert(144 * q + r == h);
            assert(a7.honest());
            assert(a8.honest());
        }
    }
    TxEpochBoundaryTrace { quotient, remainder, boundary }
}

/// Binds the transaction-epoch decomposition of a 64-bit height.
pub fn constrain_tx_epoch_boundary(b: &mut FieldR1csBuilder, height: &LinExpr) -> (r:
    TxEpochBoundaryTrace)
    requires
        old(b)@.wf(),
        height@.below(old(b)@.rows.len()),
        height@.eval(old(b)@.values).bits <= u64::MAX,
    ensures
        (final(b)@.rows, r.quotient@, r.remainder@, r.boundary@) == epoch_rows(
            old(b)@.rows,
            height@,
        ),
        final(b)@.grows(old(b)@),
        r.boundary@.below(final(b)@.rows.len()),
        final(b)@.honest() <==> old(b)@.honest(),
{
    let native_height = height.eval(&b.values).bits as u64;
    let decomposition = tx_epoch_height_decomposition(native_height);
    proof {
        vstd::arithmetic::power2::lemma2_to64_rest();
    }
    constrain_tx_epoch_boundary_with_decomposition(b, height, decomposition)
}

} // verus!
