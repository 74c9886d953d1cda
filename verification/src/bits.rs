//! Integers as vectors of boolean wires.

use vstd::prelude::*;
use vstd::arithmetic::power2::{lemma_pow2_adds, lemma_pow2_pos, lemma_pow2_unfold, pow2};
use vstd::bits::lemma_u128_shr_is_div;
use crate::circuit::{
    all_below, bool_row, group_circuit, lemma_bool_sound, lemma_mul_sound, lemma_pin_sound, lins,
    mul_rows, pin_eq, pin_rows, pin_zero, sat, Circuit, FieldR1csBuilder, Lin, LinExpr, Row, Wire,
};
use crate::field::{lemma_plus_is_zero, F128};

verus! {

broadcast use group_circuit;

/// The integer with the given binary digits, least significant first.
pub open spec fn bits_nat(bits: Seq<bool>) -> nat
    decreases bits.len(),
{
    if bits.len() == 0 {
        0
    } else {
        bits_nat(bits.drop_last()) + if bits.last() {
            pow2((bits.len() - 1) as nat)
        } else {
            0
        }
    }
}

/// Binary digit `i` of `v`.
pub open spec fn nat_bit(v: nat, i: nat) -> bool {
    (v / pow2(i)) % 2 == 1
}

/// The low `n` binary digits of `v`.
pub open spec fn nat_bits(v: nat, n: nat) -> Seq<bool> {
    Seq::new(n, |i: int| nat_bit(v, i as nat))
}

/// Every expression is zero or one under `z`.
#[verifier::opaque]
pub open spec fn all_bits(bits: Seq<Lin>, z: Seq<F128>) -> bool {
    forall|i: int| 0 <= i < bits.len() ==> (#[trigger] bits[i]).eval(z).is_bit()
}

/// The digits that bit expressions take under `z`.
pub open spec fn bools(bits: Seq<Lin>, z: Seq<F128>) -> Seq<bool> {
    Seq::new(bits.len(), |i: int| bits[i].eval(z) == F128::one())
}

/// The integer that bit expressions stand for under `z`.
pub open spec fn bits_value(bits: Seq<Lin>, z: Seq<F128>) -> nat {
    bits_nat(bools(bits, z))
}

/// `sum of bits[i] * 2^(i + shift)`, over the tower basis.
pub open spec fn weighted(bits: Seq<Lin>, shift: nat) -> Lin
    decreases bits.len(),
{
    if bits.len() == 0 {
        Lin::zero()
    } else {
        weighted(bits.drop_last(), shift).plus(
            bits.last().scale(F128::of_nat(pow2((bits.len() - 1 + shift) as nat))),
        )
    }
}

/// The expressions of wires.
pub open spec fn wire_lins(wires: Seq<Wire>) -> Seq<Lin> {
    Seq::new(wires.len(), |i: int| Lin::wire(wires[i].index))
}

// ---------------------------------------------------------------------------
// Digits of integers
// ---------------------------------------------------------------------------

pub proof fn lemma_bits_nat_bound(bits: Seq<bool>)
    ensures
        bits_nat(bits) < pow2(bits.len()),
    decreases bits.len(),
{
    lemma_pow2_pos(bits.len());
    if bits.len() > 0 {
        lemma_bits_nat_bound(bits.drop_last());
        lemma_pow2_unfold(bits.len());
    }
}

/// The low digits of an integer make up its remainder.
pub proof fn lemma_nat_bits_value(v: nat, n: nat)
    ensures
        bits_nat(nat_bits(v, n)) == v % pow2(n),
    decreases n,
{
    lemma_pow2_pos(n);
    if n == 0 {
        assert(pow2(0) == 1) by {
            vstd::arithmetic::power2::lemma2_to64();
        }
    } else {
        let m = (n - 1) as nat;
        lemma_nat_bits_value(v, m);
        assert(nat_bits(v, n).drop_last() =~= nat_bits(v, m));
        lemma_pow2_unfold(n);
        lemma_pow2_pos(m);
        let p = pow2(m);
        let q = v / p;
        vstd::arithmetic::div_mod::lemma_fundamental_div_mod(v as int, p as int);
        vstd::arithmetic::div_mod::lemma_fundamental_div_mod(q as int, 2);
        let r = v % p;
        let d = q % 2;
        assert(v == (2 * p) * (q / 2) + (p * d + r)) by (nonlinear_arith)
            requires
                v == p * q + r,
                q == 2 * (q / 2) + d,
        ;
        assert(0 <= p * d + r < 2 * p) by (nonlinear_arith)
            requires
                0 <= r < p,
                d == 0 || d == 1,
        ;
        vstd::arithmetic::div_mod::lemma_fundamental_div_mod_converse(
            v as int,
            2 * p as int,
            (q / 2) as int,
            (p * d + r) as int,
        );
        assert(d == 1 ==> p * d == p) by (nonlinear_arith);
        assert(d == 0 ==> p * d == 0) by (nonlinear_arith);
    }
}

/// An integer below `2^n` is made up of its low `n` digits.
pub proof fn lemma_nat_bits_small(v: nat, n: nat)
    requires
        v < pow2(n),
    ensures
        bits_nat(nat_bits(v, n)) == v,
{
    lemma_nat_bits_value(v, n);
    vstd::arithmetic::div_mod::lemma_small_mod(v, pow2(n));
}

/// Equal integers have equal digits.
pub proof fn lemma_bits_nat_injective(s: Seq<bool>, t: Seq<bool>)
    requires
        s.len() == t.len(),
        bits_nat(s) == bits_nat(t),
    ensures
        s =~= t,
    decreases s.len(),
{
    if s.len() > 0 {
        lemma_bits_nat_bound(s.drop_last());
        lemma_bits_nat_bound(t.drop_last());
        assert(s.last() == t.last());
        lemma_bits_nat_injective(s.drop_last(), t.drop_last());
        assert(s =~= s.drop_last().push(s.last()));
        assert(t =~= t.drop_last().push(t.last()));
    }
}

/// Digits joined end to end.
pub proof fn lemma_bits_nat_concat(s: Seq<bool>, t: Seq<bool>)
    ensures
        bits_nat(s + t) == bits_nat(s) + pow2(s.len()) * bits_nat(t),
    decreases t.len(),
{
    if t.len() == 0 {
        assert(s + t =~= s);
        assert(pow2(s.len()) * 0 == 0) by (nonlinear_arith);
    } else {
        assert((s + t).drop_last() =~= s + t.drop_last());
        lemma_bits_nat_concat(s, t.drop_last());
        let k = (t.len() - 1) as nat;
        lemma_pow2_adds(s.len(), k);
        let p = pow2(s.len());
        let x = bits_nat(t.drop_last());
        let y = if t.last() {
            pow2(k)
        } else {
            0
        };
        assert(p * (x + y) == p * x + p * y) by (nonlinear_arith);
        assert((s + t).last() == t.last());
        assert(p * 0 == 0) by (nonlinear_arith);
    }
}

// ---------------------------------------------------------------------------
// Integers as field elements
// ---------------------------------------------------------------------------

/// `2^i` as a shifted one.
pub proof fn lemma_pow2_u128(i: nat)
    requires
        i < 128,
    ensures
        pow2(i) == 1u128 << (i as u128),
        pow2(i) <= u128::MAX,
    decreases i,
{
    if i == 0 {
        vstd::arithmetic::power2::lemma2_to64();
        assert(1u128 << 0 == 1) by (bit_vector);
    } else {
        let j = (i - 1) as nat;
        lemma_pow2_u128(j);
        lemma_pow2_unfold(i);
        let k = j as u128;
        assert((1u128 << ((k + 1) as u128)) == 2 * (1u128 << k)) by (bit_vector)
            requires
                k < 127,
        ;
    }
}

/// Powers of two up to `2^128`.
pub proof fn lemma_pow2_128()
    ensures
        pow2(128) == u128::MAX + 1,
{
    lemma_pow2_u128(127);
    lemma_pow2_unfold(128);
    assert(1u128 << 127 == 0x8000_0000_0000_0000_0000_0000_0000_0000) by (bit_vector);
}

pub proof fn lemma_pow2_bound(i: nat, j: nat)
    requires
        i <= j,
    ensures
        pow2(i) <= pow2(j),
{
    if i < j {
        vstd::arithmetic::power2::lemma_pow2_strictly_increases(i, j);
    }
}

/// Setting a digit above all others adds its weight.
pub proof fn lemma_of_nat_top(n: nat, i: nat)
    requires
        i < 128,
        n < pow2(i),
    ensures
        F128::of_nat(n).plus(F128::of_nat(pow2(i))) == F128::of_nat(n + pow2(i)),
{
    lemma_pow2_u128(i);
    let a = n as u128;
    let k = i as u128;
    let w = 1u128 << k;
    assert(a ^ w == (a + w) as u128 && a + w <= u128::MAX) by (bit_vector)
        requires
            k < 128,
            w == 1u128 << k,
            a < w,
    ;
    reveal(F128::plus);
}

/// Bit expressions weighted by powers of two evaluate to the integer they
/// stand for, shifted.
pub proof fn lemma_weighted(bits: Seq<Lin>, shift: nat, z: Seq<F128>)
    requires
        bits.len() + shift <= 128,
        all_bits(bits, z),
    ensures
        weighted(bits, shift).eval(z) == F128::of_nat(pow2(shift) * bits_value(bits, z)),
        pow2(shift) * bits_value(bits, z) < pow2((bits.len() + shift) as nat),
    decreases bits.len(),
{
    reveal(all_bits);
    if bits.len() == 0 {
        lemma_pow2_pos(shift);
        assert(bits_value(bits, z) == 0);
        assert(pow2(shift) * 0 == 0) by (nonlinear_arith);
    } else {
        let rest = bits.drop_last();
        let k = (bits.len() - 1) as nat;
        assert forall|i: int| 0 <= i < rest.len() implies (#[trigger] rest[i]).eval(z).is_bit() by {
            assert(rest[i] == bits[i]);
        }
        lemma_weighted(rest, shift, z);
        assert(bools(bits, z).drop_last() =~= bools(rest, z));
        assert(bits[k as int].eval(z).is_bit());
        let p = pow2(shift);
        let v = bits_value(rest, z);
        lemma_pow2_adds(shift, k);
        lemma_pow2_unfold((k + shift + 1) as nat);
        assert(p * (v + pow2(k)) == p * v + p * pow2(k)) by (nonlinear_arith);
        if bits.last().eval(z) == F128::one() {
            lemma_of_nat_top(p * v, (k + shift) as nat);
        } else {
            assert(p * (v + 0) == p * v);
        }
    }
}

/// The unshifted case of [`lemma_weighted`].
pub proof fn lemma_weighted_value(bits: Seq<Lin>, z: Seq<F128>)
    requires
        bits.len() <= 128,
        all_bits(bits, z),
    ensures
        weighted(bits, 0).eval(z) == F128::of_nat(bits_value(bits, z)),
        bits_value(bits, z) < pow2(bits.len()),
        bits_value(bits, z) <= u128::MAX,
{
    vstd::arithmetic::power2::lemma2_to64();
    lemma_weighted(bits, 0, z);
    assert(pow2(0) * bits_value(bits, z) == bits_value(bits, z)) by (nonlinear_arith)
        requires
            pow2(0) == 1,
    ;
    lemma_pow2_128();
    lemma_pow2_bound(bits.len(), 128);
}

pub proof fn lemma_weighted_below(bits: Seq<Lin>, shift: nat, n: nat)
    requires
        all_below(bits, n),
    ensures
        weighted(bits, shift).below(n),
    decreases bits.len(),
{
    if bits.len() > 0 {
        assert forall|i: int| 0 <= i < bits.drop_last().len() implies (
        #[trigger] bits.drop_last()[i]).below(n) by {
            assert(bits.drop_last()[i] == bits[i]);
        }
        lemma_weighted_below(bits.drop_last(), shift, n);
        assert(bits[bits.len() - 1].below(n));
    }
}

/// `2^i` as a field element.
pub fn weight(i: usize) -> (r: F128)
    requires
        i < 128,
    ensures
        r == F128::of_nat(pow2(i as nat)),
{
    proof {
        lemma_pow2_u128(i as nat);
        let k = i as u128;
        assert(1u128 << i == 1u128 << k) by (bit_vector)
            requires
                i < 128,
                k == i as u128,
        ;
    }
    F128 { bits: 1u128 << i }
}

/// Binary digit `i` of `v`.
pub fn digit(v: u128, i: usize) -> (r: bool)
    requires
        i < 128,
    ensures
        r == nat_bit(v as nat, i as nat),
{
    proof {
        let k = i as u128;
        lemma_u128_shr_is_div(v, k);
        let s = v >> k;
        assert(v >> i == s) by (bit_vector)
            requires
                i < 128,
                k == i as u128,
                s == v >> k,
        ;
        assert(s & 1 == s % 2) by (bit_vector);
    }
    (v >> i) & 1 == 1
}

/// The sum of bit expressions weighted by powers of two.
pub fn weighted_sum(bits: &[LinExpr], shift: usize) -> (r: LinExpr)
    requires
        bits@.len() + shift <= 128,
    ensures
        r@ == weighted(lins(bits@), shift as nat),
{
    let mut sum = LinExpr::zero();
    let mut i: usize = 0;
    assert(lins(bits@).take(0) =~= Seq::empty());
    while i < bits.len()
        invariant
            i <= bits@.len(),
            bits@.len() + shift <= 128,
            sum@ == weighted(lins(bits@).take(i as int), shift as nat),
        decreases bits@.len() - i,
    {
        let term = bits[i].scale(weight(i + shift));
        sum.add_assign(&term);
        assert(lins(bits@).take(i + 1).drop_last() =~= lins(bits@).take(i as int));
        i += 1;
    }
    assert(lins(bits@).take(i as int) =~= lins(bits@));
    sum
}

/// The expressions of wires.
pub fn wire_exprs(wires: &[Wire]) -> (r: Vec<LinExpr>)
    ensures
        lins(r@) == wire_lins(wires@),
{
    let mut r: Vec<LinExpr> = Vec::with_capacity(wires.len());
    let mut i: usize = 0;
    while i < wires.len()
        invariant
            i <= wires@.len(),
            r@.len() == i,
            forall|j: int| 0 <= j < i ==> (#[trigger] r@[j])@ == Lin::wire(wires@[j].index),
        decreases wires@.len() - i,
    {
        r.push(LinExpr::from_wire(wires[i]));
        i += 1;
    }
    assert(lins(r@) =~= wire_lins(wires@));
    r
}

// ---------------------------------------------------------------------------
// Range checks
// ---------------------------------------------------------------------------

/// The rows after `n` fresh boolean wires.
pub open spec fn bool_rows(c: Seq<Row>, n: nat) -> Seq<Row>
    decreases n,
{
    if n == 0 {
        c
    } else {
        bool_rows(c, (n - 1) as nat).push(bool_row((c.len() + n - 1) as usize))
    }
}

/// The next `n` wires.
pub open spec fn fresh(c: Seq<Row>, n: nat) -> Seq<Lin> {
    Seq::new(n, |i: int| Lin::wire((c.len() + i) as usize))
}

/// The rows of a range check, and its bits.
pub open spec fn range_rows(c: Seq<Row>, e: Lin, n: nat) -> (Seq<Row>, Seq<Lin>) {
    (pin_rows(bool_rows(c, n), e.plus(weighted(fresh(c, n), 0))), fresh(c, n))
}

pub proof fn lemma_bool_rows_len(c: Seq<Row>, n: nat)
    ensures
        bool_rows(c, n).len() == c.len() + n,
    decreases n,
{
    if n > 0 {
        lemma_bool_rows_len(c, (n - 1) as nat);
    }
}

pub proof fn lemma_bool_rows_sound(c: Seq<Row>, n: nat, z: Seq<F128>)
    requires
        sat(bool_rows(c, n), z),
    ensures
        sat(c, z),
        all_bits(fresh(c, n), z),
    decreases n,
{
    reveal(all_bits);
    if n > 0 {
        let m = (n - 1) as nat;
        lemma_bool_rows_len(c, m);
        lemma_bool_sound(bool_rows(c, m), z);
        lemma_bool_rows_sound(c, m, z);
        assert forall|i: int| 0 <= i < fresh(c, n).len() implies (#[trigger] fresh(c, n)[i]).eval(
            z,
        ).is_bit() by {
            if i < m {
                assert(fresh(c, n)[i] == fresh(c, m)[i]);
            }
        }
    }
}

/// A range-checked expression is the integer of its bits.
pub proof fn lemma_range_sound(c: Seq<Row>, e: Lin, n: nat, z: Seq<F128>)
    requires
        n <= 128,
        sat(range_rows(c, e, n).0, z),
    ensures
        sat(c, z),
        all_bits(range_rows(c, e, n).1, z),
        e.eval(z) == F128::of_nat(bits_value(range_rows(c, e, n).1, z)),
        bits_value(range_rows(c, e, n).1, z) < pow2(n),
        bits_value(range_rows(c, e, n).1, z) <= u128::MAX,
{
    broadcast use lemma_plus_is_zero;

    lemma_pin_sound(bool_rows(c, n), e.plus(weighted(fresh(c, n), 0)), z);
    lemma_bool_rows_sound(c, n, z);
    lemma_weighted_value(fresh(c, n), z);
}

/// Binds an expression to be an integer below `2^width`, and returns its
/// binary digits.
pub fn range_check_bits(b: &mut FieldR1csBuilder, e: &LinExpr, width: usize) -> (bits: Vec<Wire>)
    requires
        old(b)@.wf(),
        e@.below(old(b)@.rows.len()),
        width <= 128,
    ensures
        bits@.len() == width,
        (final(b)@.rows, wire_lins(bits@)) == range_rows(old(b)@.rows, e@, width as nat),
        final(b)@.grows(old(b)@),
        all_below(wire_lins(bits@), final(b)@.rows.len()),
        all_bits(wire_lins(bits@), final(b)@.values),
        bools(wire_lins(bits@), final(b)@.values) == nat_bits(
            e@.eval(old(b)@.values).bits as nat,
            width as nat,
        ),
        final(b)@.honest() <==> old(b)@.honest() && e@.eval(old(b)@.values).bits < pow2(
            width as nat,
        ),
{
    let value: u128 = e.eval(&b.values).bits;
    let mut bits: Vec<Wire> = Vec::with_capacity(width);
    let mut i: usize = 0;
    while i < width
        invariant
            i <= width <= 128,
            bits@.len() == i,
            old(b)@.wf(),
            b@.grows(old(b)@),
            b@.rows == bool_rows(old(b)@.rows, i as nat),
            b@.rows.len() == old(b)@.rows.len() + i,
            b@.honest() <==> old(b)@.honest(),
            forall|j: int| 0 <= j < i ==> (#[trigger] bits@[j]).index == old(b)@.rows.len() + j,
            forall|j: int|
                0 <= j < i ==> #[trigger] b@.values[old(b)@.rows.len() + j] == F128::of_bool(
                    nat_bit(value as nat, j as nat),
                ),
        decreases width - i,
    {
        let ghost before = b@;
        let wire = b.alloc_bool(digit(value, i));
        bits.push(wire);
        i += 1;
    }
    proof {
        assert(wire_lins(bits@) =~= fresh(old(b)@.rows, width as nat));
        assert(all_below(wire_lins(bits@), b@.rows.len()));
        assert(bools(wire_lins(bits@), b@.values) =~= nat_bits(value as nat, width as nat));
        reveal(all_bits);
        assert(all_bits(wire_lins(bits@), b@.values));
        lemma_weighted_value(wire_lins(bits@), b@.values);
        lemma_weighted_below(wire_lins(bits@), 0, b@.rows.len());
        lemma_nat_bits_value(value as nat, width as nat);
        lemma_pow2_pos(width as nat);
        if value < pow2(width as nat) {
            lemma_nat_bits_small(value as nat, width as nat);
        } else {
            vstd::arithmetic::div_mod::lemma_mod_bound(value as int, pow2(width as nat) as int);
        }
    }
    let ghost mid = b@;
    let exprs = wire_exprs(&bits);
    let recomposed = weighted_sum(&exprs, 0);
    pin_eq(b, e, &recomposed);
    proof {
        lemma_bits_stable(mid, b@, wire_lins(bits@));
    }
    bits
}

// ---------------------------------------------------------------------------
// Addition
// ---------------------------------------------------------------------------

/// A ripple-carry adder over the first `n` digits: its rows, the sum digits
/// and the carry out.
pub open spec fn ripple(c: Seq<Row>, a: Seq<Lin>, d: Seq<Lin>, n: nat) -> (
    Seq<Row>,
    Seq<Lin>,
    Lin,
)
    decreases n,
{
    if n == 0 {
        (c, Seq::empty(), Lin::zero())
    } else {
        let i = n - 1;
        let (c1, sum, carry) = ripple(c, a, d, i as nat);
        let (c2, both) = mul_rows(c1, a[i], d[i]);
        let (c3, through) = mul_rows(c2, carry, a[i].plus(d[i]));
        (c3, sum.push(a[i].plus(d[i]).plus(carry)), both.plus(through))
    }
}

/// The rows of an addition whose carry out is bound to zero, and its digits.
pub open spec fn checked_add_rows(c: Seq<Row>, a: Seq<Lin>, d: Seq<Lin>) -> (Seq<Row>, Seq<Lin>) {
    let (c1, sum, carry) = ripple(c, a, d, a.len());
    (pin_rows(c1, carry), sum)
}

/// One digit of an addition.
proof fn lemma_add_digit(x: F128, y: F128, k: F128)
    requires
        x.is_bit(),
        y.is_bit(),
        k.is_bit(),
    ensures
        ({
            let s = x.plus(y).plus(k);
            let o = x.times(y).plus(k.times(x.plus(y)));
            &&& s.is_bit()
            &&& o.is_bit()
            &&& bit_int(s) + 2 * bit_int(o) == bit_int(x) + bit_int(y) + bit_int(k)
        }),
{
}

/// Zero or one as an integer.
pub open spec fn bit_int(x: F128) -> int {
    if x == F128::one() {
        1
    } else {
        0
    }
}

pub proof fn lemma_bits_value_push(bits: Seq<Lin>, e: Lin, z: Seq<F128>)
    ensures
        bits_value(bits.push(e), z) == bits_value(bits, z) + bit_int(e.eval(z)) * pow2(bits.len()),
        all_bits(bits.push(e), z) <==> all_bits(bits, z) && e.eval(z).is_bit(),
{
    let p = bits.push(e);
    assert(bools(p, z).drop_last() =~= bools(bits, z));
    assert(1 * pow2(bits.len()) == pow2(bits.len()) && 0 * pow2(bits.len()) == 0) by (nonlinear_arith);
    reveal(all_bits);
    if all_bits(p, z) {
        assert forall|i: int| 0 <= i < bits.len() implies (#[trigger] bits[i]).eval(z).is_bit() by {
            assert(p[i] == bits[i]);
        }
        assert(p[bits.len() as int].eval(z).is_bit());
    }
}

pub proof fn lemma_bits_value_take(bits: Seq<Lin>, n: nat, z: Seq<F128>)
    requires
        0 < n <= bits.len(),
    ensures
        bits_value(bits.take(n as int), z) == bits_value(bits.take(n - 1), z) + bit_int(
            bits[n - 1].eval(z),
        ) * pow2((n - 1) as nat),
{
    assert(bits.take(n as int) =~= bits.take(n - 1).push(bits[n - 1]));
    lemma_bits_value_push(bits.take(n - 1), bits[n - 1], z);
}

/// A ripple-carry adder adds integers.
pub proof fn lemma_ripple_sound(c: Seq<Row>, a: Seq<Lin>, d: Seq<Lin>, n: nat, z: Seq<F128>)
    requires
        n <= a.len(),
        a.len() == d.len(),
        sat(ripple(c, a, d, n).0, z),
        all_bits(a, z),
        all_bits(d, z),
    ensures
        sat(c, z),
        ({
            let (_, sum, carry) = ripple(c, a, d, n);
            &&& sum.len() == n
            &&& all_bits(sum, z)
            &&& carry.eval(z).is_bit()
            &&& bits_value(sum, z) + bit_int(carry.eval(z)) * pow2(n) == bits_value(
                a.take(n as int),
                z,
            ) + bits_value(d.take(n as int), z)
        }),
    decreases n,
{
    reveal(all_bits);
    if n == 0 {
        assert(a.take(0) =~= Seq::empty());
        assert(d.take(0) =~= Seq::empty());
        assert(0 * pow2(0) == 0) by (nonlinear_arith);
    } else {
        let i = n - 1;
        let (c1, sum, carry) = ripple(c, a, d, i as nat);
        let (c2, both) = mul_rows(c1, a[i], d[i]);
        let (c3, through) = mul_rows(c2, carry, a[i].plus(d[i]));
        lemma_mul_sound(c2, carry, a[i].plus(d[i]), z);
        lemma_mul_sound(c1, a[i], d[i], z);
        lemma_ripple_sound(c, a, d, i as nat, z);
        lemma_add_digit(a[i].eval(z), d[i].eval(z), carry.eval(z));
        let s = a[i].plus(d[i]).plus(carry);
        let o = both.plus(through);
        lemma_bits_value_push(sum, s, z);
        lemma_bits_value_take(a, n, z);
        lemma_bits_value_take(d, n, z);
        lemma_pow2_unfold(n);
        let p = pow2(i as nat);
        let (bs, bo) = (bit_int(s.eval(z)), bit_int(o.eval(z)));
        let (ba, bd, bk) = (
            bit_int(a[i].eval(z)),
            bit_int(d[i].eval(z)),
            bit_int(carry.eval(z)),
        );
        assert(bs * p + bo * (2 * p) == ba * p + bd * p + bk * p) by (nonlinear_arith)
            requires
                bs + 2 * bo == ba + bd + bk,
        ;
    }
}

/// What a checked addition binds: the sum digits stand for the sum.
pub proof fn lemma_checked_add_sound(c: Seq<Row>, a: Seq<Lin>, d: Seq<Lin>, z: Seq<F128>)
    requires
        a.len() == d.len(),
        sat(checked_add_rows(c, a, d).0, z),
        all_bits(a, z),
        all_bits(d, z),
    ensures
        sat(c, z),
        checked_add_rows(c, a, d).1.len() == a.len(),
        all_bits(checked_add_rows(c, a, d).1, z),
        bits_value(checked_add_rows(c, a, d).1, z) == bits_value(a, z) + bits_value(d, z),
{
    let (c1, sum, carry) = ripple(c, a, d, a.len());
    lemma_pin_sound(c1, carry, z);
    lemma_ripple_sound(c, a, d, a.len(), z);
    assert(a.take(a.len() as int) =~= a);
    assert(d.take(a.len() as int) =~= d);
    assert(0 * pow2(a.len()) == 0) by (nonlinear_arith);
}

pub proof fn lemma_lins_index(s: Seq<LinExpr>, i: int)
    requires
        0 <= i < s.len(),
    ensures
        lins(s)[i] == s[i]@,
{
}

/// Adds two integers of the same width, given by their digits, and returns the
/// sum digits and the carry out.
pub fn ripple_bits(b: &mut FieldR1csBuilder, a: &[LinExpr], d: &[LinExpr]) -> (r: (
    Vec<LinExpr>,
    LinExpr,
))
    requires
        old(b)@.wf(),
        a@.len() == d@.len(),
        all_below(lins(a@), old(b)@.rows.len()),
        all_below(lins(d@), old(b)@.rows.len()),
    ensures
        (final(b)@.rows, lins(r.0@), r.1@) == ripple(
            old(b)@.rows,
            lins(a@),
            lins(d@),
            a@.len(),
        ),
        r.0@.len() == a@.len(),
        final(b)@.grows(old(b)@),
        final(b)@.honest() <==> old(b)@.honest(),
        all_below(lins(r.0@), final(b)@.rows.len()),
        r.1@.below(final(b)@.rows.len()),
{
    let mut carry = LinExpr::zero();
    let mut sum: Vec<LinExpr> = Vec::with_capacity(a.len());
    let mut i: usize = 0;
    let ghost la = lins(a@);
    let ghost ld = lins(d@);
    assert(lins(sum@) =~= Seq::empty());
    while i < a.len()
        invariant
            i <= a@.len(),
            a@.len() == d@.len(),
            la == lins(a@),
            ld == lins(d@),
            all_below(la, old(b)@.rows.len()),
            all_below(ld, old(b)@.rows.len()),
            b@.grows(old(b)@),
            (b@.rows, lins(sum@), carry@) == ripple(old(b)@.rows, la, ld, i as nat),
            sum@.len() == i,
            all_below(lins(sum@), b@.rows.len()),
            carry@.below(b@.rows.len()),
            b@.honest() <==> old(b)@.honest(),
        decreases a@.len() - i,
    {
        let ghost before = b@;
        assert(la[i as int].below(old(b)@.rows.len()));
        assert(ld[i as int].below(old(b)@.rows.len()));
        let ghost prior = sum@;
        let either = a[i].add(&d[i]);
        let digit = either.add(&carry);
        let both = crate::circuit::mul(b, &a[i], &d[i]);
        let ghost middle = b@;
        let through = crate::circuit::mul(b, &carry, &either);
        sum.push(digit);
        carry = both.add(&through);
        proof {
            assert(lins(sum@) =~= lins(prior).push(digit@));
            assert forall|j: int| 0 <= j < lins(sum@).len() implies (
            #[trigger] lins(sum@)[j]).below(b@.rows.len()) by {
                if j < i {
                    assert(lins(prior)[j].below(before.rows.len()));
                }
            }
        }
        i += 1;
    }
    (sum, carry)
}

/// Adds two integers of the same width, given by their digits. Overflow is
/// unsatisfiable.
pub fn checked_add_bits(b: &mut FieldR1csBuilder, a: &[LinExpr], d: &[LinExpr]) -> (sum: Vec<
    LinExpr,
>)
    requires
        old(b)@.wf(),
        a@.len() == d@.len(),
        all_below(lins(a@), old(b)@.rows.len()),
        all_below(lins(d@), old(b)@.rows.len()),
    ensures
        (final(b)@.rows, lins(sum@)) == checked_add_rows(old(b)@.rows, lins(a@), lins(d@)),
        sum@.len() == a@.len(),
        final(b)@.grows(old(b)@),
        all_below(lins(sum@), final(b)@.rows.len()),
        ({
            let z = old(b)@.values;
            all_bits(lins(a@), z) && all_bits(lins(d@), z) ==> {
                final(b)@.honest() <==> old(b)@.honest() && bits_value(lins(a@), z) + bits_value(
                    lins(d@),
                    z,
                ) < pow2(a@.len())
            }
        }),
{
    let ghost la = lins(a@);
    let ghost ld = lins(d@);
    let (sum, carry) = ripple_bits(b, a, d);
    let ghost mid = b@;
    pin_zero(b, &carry);
    proof {
        let z = mid.values;
        assert(la.take(la.len() as int) =~= la);
        assert(ld.take(ld.len() as int) =~= ld);
        if all_bits(la, old(b)@.values) && all_bits(ld, old(b)@.values) && old(b)@.honest() {
            lemma_bits_stable(old(b)@, mid, la);
            lemma_bits_stable(old(b)@, mid, ld);
            lemma_ripple_sound(old(b)@.rows, la, ld, la.len(), z);
            lemma_bits_nat_bound(bools(lins(sum@), z));
            let p = pow2(la.len());
            assert(0 * p == 0 && 1 * p == p) by (nonlinear_arith);
        }
        lemma_bits_stable(mid, b@, lins(sum@));
    }
    sum
}

/// Bit expressions keep their values while the system grows.
pub proof fn lemma_bits_stable(old: Circuit, new: Circuit, bits: Seq<Lin>)
    requires
        new.grows(old),
        all_below(bits, old.rows.len()),
    ensures
        all_bits(bits, new.values) == all_bits(bits, old.values),
        bools(bits, new.values) == bools(bits, old.values),
        all_below(bits, new.rows.len()),
{
    reveal(all_bits);
    assert forall|i: int| 0 <= i < bits.len() implies (#[trigger] bits[i]).eval(new.values)
        == bits[i].eval(old.values) by {
        assert(bits[i].below(old.rows.len()));
    }
    assert(bools(bits, new.values) =~= bools(bits, old.values));
    assert forall|i: int| 0 <= i < bits.len() implies (#[trigger] bits[i]).below(
        new.rows.len(),
    ) by {
        assert(bits[i].below(old.rows.len()));
    }
}

// ---------------------------------------------------------------------------
// Comparison
// ---------------------------------------------------------------------------

/// Comparing digits `k` and above of two integers from the top: the rows, then
/// expressions for equality, for the strict order, and for each digit whether
/// it is the highest one that differs.
pub open spec fn less_rows(c: Seq<Row>, l: Seq<Lin>, r: Seq<Lin>, k: nat) -> (
    Seq<Row>,
    Lin,
    Lin,
    Seq<Lin>,
)
    decreases l.len() - k,
{
    if k >= l.len() {
        (c, Lin::constant(F128::one()), Lin::zero(), Seq::empty())
    } else {
        let i = k as int;
        let (c1, equal, less, highest) = less_rows(c, l, r, k + 1);
        let (c2, rises) = mul_rows(c1, l[i].plus_const(F128::one()), r[i]);
        let (c3, decides) = mul_rows(c2, equal, rises);
        let (c4, through) = mul_rows(c3, equal, l[i].plus(r[i]).plus_const(F128::one()));
        (c4, through, less.plus(decides), seq![equal.plus(through)] + highest)
    }
}

/// The integer made of digits `k` and above.
pub open spec fn high_value(bits: Seq<Lin>, k: nat, z: Seq<F128>) -> nat {
    bits_value(bits.skip(k as int), z)
}

/// Digits `k` and above agree.
pub open spec fn high_equal(l: Seq<Lin>, r: Seq<Lin>, k: nat, z: Seq<F128>) -> bool {
    forall|i: int| k <= i < l.len() ==> (#[trigger] l[i]).eval(z) == r[i].eval(z)
}

/// `i` is the highest digit in which the two integers differ.
pub open spec fn is_msb(l: Seq<Lin>, r: Seq<Lin>, i: nat, z: Seq<F128>) -> bool {
    &&& i < l.len()
    &&& l[i as int].eval(z) != r[i as int].eval(z)
    &&& high_equal(l, r, i + 1, z)
}

/// An integer by its lowest digit and the rest.
pub proof fn lemma_bits_nat_first(s: Seq<bool>)
    requires
        s.len() > 0,
    ensures
        bits_nat(s) == 2 * bits_nat(s.skip(1)) + if s[0] {
            1int
        } else {
            0
        },
{
    vstd::arithmetic::power2::lemma2_to64();
    let head = seq![s[0]];
    assert(s =~= head + s.skip(1));
    lemma_bits_nat_concat(head, s.skip(1));
    assert(head.drop_last() =~= Seq::<bool>::empty());
    assert(bits_nat(head.drop_last()) == 0);
}

pub proof fn lemma_high_value(bits: Seq<Lin>, k: nat, z: Seq<F128>)
    requires
        k < bits.len(),
    ensures
        high_value(bits, k, z) == 2 * high_value(bits, k + 1, z) + bit_int(
            bits[k as int].eval(z),
        ),
{
    let s = bools(bits.skip(k as int), z);
    lemma_bits_nat_first(s);
    assert(s.skip(1) =~= bools(bits.skip(k as int + 1), z));
}

proof fn lemma_less_digit(x: F128, y: F128, e: F128, s: F128)
    requires
        x.is_bit(),
        y.is_bit(),
        e.is_bit(),
        s.is_bit(),
        s == F128::one() ==> e == F128::zero(),
    ensures
        ({
            let decides = e.times(x.plus(F128::one()).times(y));
            let through = e.times(x.plus(y).plus(F128::one()));
            &&& through == F128::of_bool(e == F128::one() && x == y)
            &&& s.plus(decides) == F128::of_bool(
                s == F128::one() || (e == F128::one() && x == F128::zero() && y == F128::one()),
            )
            &&& e.plus(through) == F128::of_bool(e == F128::one() && x != y)
        }),
{
}

/// The comparison expressions state the comparison.
pub proof fn lemma_less_sound(c: Seq<Row>, l: Seq<Lin>, r: Seq<Lin>, k: nat, z: Seq<F128>)
    requires
        l.len() == r.len(),
        k <= l.len(),
        sat(less_rows(c, l, r, k).0, z),
        all_bits(l, z),
        all_bits(r, z),
    ensures
        sat(c, z),
        ({
            let (_, equal, less, highest) = less_rows(c, l, r, k);
            &&& equal.eval(z) == F128::of_bool(high_equal(l, r, k, z))
            &&& high_equal(l, r, k, z) <==> high_value(l, k, z) == high_value(r, k, z)
            &&& less.eval(z) == F128::of_bool(high_value(l, k, z) < high_value(r, k, z))
            &&& highest.len() == l.len() - k
            &&& forall|i: int|
                k <= i < l.len() ==> (#[trigger] highest[i - k]).eval(z) == F128::of_bool(
                    is_msb(l, r, i as nat, z),
                )
        }),
    decreases l.len() - k,
{
    if k == l.len() {
        assert(l.skip(k as int) =~= Seq::empty());
        assert(r.skip(k as int) =~= Seq::empty());
    } else {
        let i = k as int;
        let (c1, equal, less, highest) = less_rows(c, l, r, k + 1);
        let (c2, rises) = mul_rows(c1, l[i].plus_const(F128::one()), r[i]);
        let (c3, decides) = mul_rows(c2, equal, rises);
        let (c4, through) = mul_rows(c3, equal, l[i].plus(r[i]).plus_const(F128::one()));
        lemma_mul_sound(c3, equal, l[i].plus(r[i]).plus_const(F128::one()), z);
        lemma_mul_sound(c2, equal, rises, z);
        lemma_mul_sound(c1, l[i].plus_const(F128::one()), r[i], z);
        lemma_less_sound(c, l, r, k + 1, z);
        lemma_high_value(l, k, z);
        lemma_high_value(r, k, z);
        reveal(all_bits);
        assert(l[i].eval(z).is_bit() && r[i].eval(z).is_bit());
        lemma_less_digit(l[i].eval(z), r[i].eval(z), equal.eval(z), less.eval(z));
        assert(high_equal(l, r, k, z) <==> high_equal(l, r, k + 1, z) && l[i].eval(z) == r[i].eval(
            z,
        ));
        let out = seq![equal.plus(through)] + highest;
        assert forall|j: int| k <= j < l.len() implies (#[trigger] out[j - k]).eval(z)
            == F128::of_bool(is_msb(l, r, j as nat, z)) by {
            if j > k {
                assert(out[j - k] == highest[j - (k + 1)]);
            }
        }
    }
}

/// An expression for `left < right` over digits, and for each digit one that
/// tells whether it is the highest difference.
pub fn strict_less_bits(b: &mut FieldR1csBuilder, left: &[Wire], right: &[Wire]) -> (r: (
    LinExpr,
    Vec<LinExpr>,
))
    requires
        old(b)@.wf(),
        left@.len() == right@.len(),
        all_below(wire_lins(left@), old(b)@.rows.len()),
        all_below(wire_lins(right@), old(b)@.rows.len()),
    ensures
        ({
            let (rows, _, less, highest) = less_rows(
                old(b)@.rows,
                wire_lins(left@),
                wire_lins(right@),
                0,
            );
            (final(b)@.rows, r.0@, lins(r.1@)) == (rows, less, highest)
        }),
        r.1@.len() == left@.len(),
        final(b)@.grows(old(b)@),
        final(b)@.honest() <==> old(b)@.honest(),
        r.0@.below(final(b)@.rows.len()),
        all_below(lins(r.1@), final(b)@.rows.len()),
{
    let n: usize = left.len();
    let ghost l = wire_lins(left@);
    let ghost rt = wire_lins(right@);
    let mut equal = LinExpr::constant(F128::one());
    let mut less = LinExpr::zero();
    let mut down: Vec<LinExpr> = Vec::with_capacity(n);
    let mut k: usize = n;
    assert(rev(lins(down@)) =~= Seq::empty());
    while k > 0
        invariant
            k <= n,
            n == left@.len(),
            n == right@.len(),
            l == wire_lins(left@),
            rt == wire_lins(right@),
            all_below(l, old(b)@.rows.len()),
            all_below(rt, old(b)@.rows.len()),
            b@.grows(old(b)@),
            b@.honest() <==> old(b)@.honest(),
            (b@.rows, equal@, less@, rev(lins(down@))) == less_rows(old(b)@.rows, l, rt, k as nat),
            down@.len() == n - k,
            equal@.below(b@.rows.len()),
            less@.below(b@.rows.len()),
            all_below(lins(down@), b@.rows.len()),
        decreases k,
    {
        let ghost k0 = k as nat;
        let ghost before = b@;
        let ghost prior = down@;
        k -= 1;
        let x = LinExpr::from_wire(left[k]);
        let y = LinExpr::from_wire(right[k]);
        assert(l[k as int] == x@ && rt[k as int] == y@);
        assert(x@.below(old(b)@.rows.len()) && y@.below(old(b)@.rows.len()));
        let not_x = x.add_const(F128::one());
        let rises = crate::circuit::mul(b, &not_x, &y);
        let ghost b1 = b@;
        let decides = crate::circuit::mul(b, &equal, &rises);
        let ghost b2 = b@;
        let same = x.add(&y).add_const(F128::one());
        let through = crate::circuit::mul(b, &equal, &same);
        less.add_assign(&decides);
        let here = equal.add(&through);
        down.push(here);
        equal = through;
        proof {
            assert(lins(down@) =~= lins(prior).push(here@));
            assert(rev(lins(down@)) =~= seq![here@] + rev(lins(prior)));
            assert forall|j: int| 0 <= j < lins(down@).len() implies (
            #[trigger] lins(down@)[j]).below(b@.rows.len()) by {
                if j < prior.len() {
                    assert(lins(prior)[j].below(before.rows.len()));
                }
            }
        }
    }
    let mut highest: Vec<LinExpr> = Vec::with_capacity(n);
    let ghost all = down@;
    while down.len() > 0
        invariant
            down@.len() <= all.len(),
            down@ == all.take(down@.len() as int),
            highest@.len() == all.len() - down@.len(),
            forall|j: int|
                0 <= j < highest@.len() ==> #[trigger] highest@[j] == all[all.len() - 1 - j],
        decreases down@.len(),
    {
        let ghost m = down@.len();
        match down.pop() {
            Some(e) => {
                highest.push(e);
            },
            None => {},
        }
        assert(down@ =~= all.take(m - 1));
    }
    proof {
        assert(lins(highest@) =~= rev(lins(all)));
        assert forall|j: int| 0 <= j < lins(highest@).len() implies (
        #[trigger] lins(highest@)[j]).below(b@.rows.len()) by {
            assert(lins(all)[all.len() - 1 - j].below(b@.rows.len()));
        }
    }
    (less, highest)
}

/// A sequence read backwards.
pub open spec fn rev<A>(s: Seq<A>) -> Seq<A> {
    Seq::new(s.len(), |i: int| s[s.len() - 1 - i])
}

/// The rows that bind one integer to be below another.
pub open spec fn lt_rows(c: Seq<Row>, l: Seq<Lin>, r: Seq<Lin>) -> Seq<Row> {
    let (c1, _, less, _) = less_rows(c, l, r, 0);
    pin_rows(c1, less.plus_const(F128::one()))
}

pub proof fn lemma_lt_sound(c: Seq<Row>, l: Seq<Lin>, r: Seq<Lin>, z: Seq<F128>)
    requires
        l.len() == r.len(),
        sat(lt_rows(c, l, r), z),
        all_bits(l, z),
        all_bits(r, z),
    ensures
        sat(c, z),
        bits_value(l, z) < bits_value(r, z),
{
    broadcast use lemma_plus_is_zero;

    let (c1, _, less, _) = less_rows(c, l, r, 0);
    lemma_pin_sound(c1, less.plus_const(F128::one()), z);
    lemma_less_sound(c, l, r, 0, z);
    assert(l.skip(0) =~= l);
    assert(r.skip(0) =~= r);
}

/// Binds `left < right` over digits.
pub fn pin_lt_strict(b: &mut FieldR1csBuilder, left: &[Wire], right: &[Wire])
    requires
        old(b)@.wf(),
        left@.len() == right@.len(),
        all_below(wire_lins(left@), old(b)@.rows.len()),
        all_below(wire_lins(right@), old(b)@.rows.len()),
    ensures
        final(b)@.rows == lt_rows(old(b)@.rows, wire_lins(left@), wire_lins(right@)),
        final(b)@.grows(old(b)@),
        ({
            let z = old(b)@.values;
            let (l, r) = (wire_lins(left@), wire_lins(right@));
            all_bits(l, z) && all_bits(r, z) ==> {
                final(b)@.honest() <==> old(b)@.honest() && bits_value(l, z) < bits_value(r, z)
            }
        }),
{
    broadcast use lemma_plus_is_zero;

    let (less, _) = strict_less_bits(b, left, right);
    let ghost mid = b@;
    let not_less = less.add_const(F128::one());
    pin_zero(b, &not_less);
    proof {
        let (l, r) = (wire_lins(left@), wire_lins(right@));
        if all_bits(l, old(b)@.values) && all_bits(r, old(b)@.values) && old(b)@.honest() {
            lemma_bits_stable(old(b)@, mid, l);
            lemma_bits_stable(old(b)@, mid, r);
            lemma_less_sound(old(b)@.rows, l, r, 0, mid.values);
            assert(l.skip(0) =~= l);
            assert(r.skip(0) =~= r);
        }
    }
}

/// The rows of an addition of two expressions as integers below `2^n`, and the
/// expression of the sum.
pub open spec fn integer_add_rows(c: Seq<Row>, x: Lin, y: Lin, n: nat) -> (Seq<Row>, Lin) {
    let (c1, xb) = range_rows(c, x, n);
    let (c2, yb) = range_rows(c1, y, n);
    let (c3, sum) = checked_add_rows(c2, xb, yb);
    (c3, weighted(sum, 0))
}

pub proof fn lemma_integer_add_sound(c: Seq<Row>, x: Lin, y: Lin, n: nat, z: Seq<F128>)
    requires
        n <= 128,
        sat(integer_add_rows(c, x, y, n).0, z),
    ensures
        sat(c, z),
        x.eval(z).bits + y.eval(z).bits < pow2(n),
        integer_add_rows(c, x, y, n).1.eval(z) == F128::of_nat(
            (x.eval(z).bits + y.eval(z).bits) as nat,
        ),
{
    let (c1, xb) = range_rows(c, x, n);
    let (c2, yb) = range_rows(c1, y, n);
    let (c3, sum) = checked_add_rows(c2, xb, yb);
    lemma_checked_rows_prefix(c2, xb, yb, z);
    lemma_range_sound(c1, y, n, z);
    lemma_range_sound(c, x, n, z);
    lemma_checked_add_sound(c2, xb, yb, z);
    lemma_weighted_value(sum, z);
}

/// What satisfies an addition satisfies the rows before it.
pub proof fn lemma_checked_rows_prefix(c: Seq<Row>, a: Seq<Lin>, d: Seq<Lin>, z: Seq<F128>)
    requires
        sat(checked_add_rows(c, a, d).0, z),
    ensures
        sat(c, z),
{
    let (c1, _, carry) = ripple(c, a, d, a.len());
    lemma_pin_sound(c1, carry, z);
    lemma_ripple_prefix(c, a, d, a.len(), z);
}

pub proof fn lemma_ripple_prefix(c: Seq<Row>, a: Seq<Lin>, d: Seq<Lin>, n: nat, z: Seq<F128>)
    requires
        sat(ripple(c, a, d, n).0, z),
    ensures
        sat(c, z),
    decreases n,
{
    if n > 0 {
        let i = n - 1;
        let (c1, sum, carry) = ripple(c, a, d, i as nat);
        let (c2, both) = mul_rows(c1, a[i], d[i]);
        lemma_mul_sound(c2, carry, a[i].plus(d[i]), z);
        lemma_mul_sound(c1, a[i], d[i], z);
        lemma_ripple_prefix(c, a, d, i as nat, z);
    }
}

/// An expression for the sum of two integers. A sum of `2^width` or more is
/// unsatisfiable.
pub fn integer_add_no_overflow(
    b: &mut FieldR1csBuilder,
    x: &LinExpr,
    y: &LinExpr,
    width: usize,
) -> (r: LinExpr)
    requires
        old(b)@.wf(),
        x@.below(old(b)@.rows.len()),
        y@.below(old(b)@.rows.len()),
        width <= 128,
    ensures
        (final(b)@.rows, r@) == integer_add_rows(old(b)@.rows, x@, y@, width as nat),
        final(b)@.grows(old(b)@),
        r@.below(final(b)@.rows.len()),
        final(b)@.honest() <==> old(b)@.honest() && x@.eval(old(b)@.values).bits + y@.eval(
            old(b)@.values,
        ).bits < pow2(width as nat),
{
    let xw = range_check_bits(b, x, width);
    let ghost b1 = b@;
    let yw = range_check_bits(b, y, width);
    let ghost b2 = b@;
    let xb = wire_exprs(&xw);
    let yb = wire_exprs(&yw);
    proof {
        lemma_bits_stable(b1, b2, wire_lins(xw@));
    }
    let sum = checked_add_bits(b, &xb, &yb);
    proof {
        lemma_weighted_below(lins(sum@), 0, b@.rows.len());
        if b2.honest() {
            lemma_range_sound(b1.rows, y@, width as nat, b2.values);
            lemma_range_sound(old(b)@.rows, x@, width as nat, b2.values);
        }
        if b@.honest() {
            crate::circuit::lemma_grows_honest(b2, b@);
        }
    }
    weighted_sum(&sum, 0)
}

/// What satisfies a comparison satisfies the rows before it.
pub proof fn lemma_less_prefix(c: Seq<Row>, l: Seq<Lin>, r: Seq<Lin>, k: nat, z: Seq<F128>)
    requires
        sat(less_rows(c, l, r, k).0, z),
    ensures
        sat(c, z),
    decreases l.len() - k,
{
    if k < l.len() {
        let i = k as int;
        let (c1, equal, less, highest) = less_rows(c, l, r, k + 1);
        let (c2, rises) = mul_rows(c1, l[i].plus_const(F128::one()), r[i]);
        let (c3, decides) = mul_rows(c2, equal, rises);
        lemma_mul_sound(c3, equal, l[i].plus(r[i]).plus_const(F128::one()), z);
        lemma_mul_sound(c2, equal, rises, z);
        lemma_mul_sound(c1, l[i].plus_const(F128::one()), r[i], z);
        lemma_less_prefix(c, l, r, k + 1, z);
    }
}

// ---------------------------------------------------------------------------
// Counting
// ---------------------------------------------------------------------------

/// A conditional increment over the first `n` digits: its rows, the new digits
/// and the carry out.
pub open spec fn increment_rows(c: Seq<Row>, bits: Seq<Lin>, carry: Lin, n: nat) -> (
    Seq<Row>,
    Seq<Lin>,
    Lin,
)
    decreases n,
{
    if n == 0 {
        (c, Seq::empty(), carry)
    } else {
        let i = n - 1;
        let (c1, next, k) = increment_rows(c, bits, carry, i as nat);
        let (c2, out) = mul_rows(c1, bits[i], k);
        (c2, next.push(bits[i].plus(k)), out)
    }
}

proof fn lemma_increment_digit(x: F128, k: F128)
    requires
        x.is_bit(),
        k.is_bit(),
    ensures
        x.plus(k).is_bit(),
        x.times(k).is_bit(),
        bit_int(x.plus(k)) + 2 * bit_int(x.times(k)) == bit_int(x) + bit_int(k),
{
}

/// A conditional increment adds its carry in.
pub proof fn lemma_increment_sound(
    c: Seq<Row>,
    bits: Seq<Lin>,
    carry: Lin,
    n: nat,
    z: Seq<F128>,
)
    requires
        n <= bits.len(),
        sat(increment_rows(c, bits, carry, n).0, z),
        all_bits(bits, z),
        carry.eval(z).is_bit(),
    ensures
        sat(c, z),
        ({
            let (_, next, out) = increment_rows(c, bits, carry, n);
            &&& next.len() == n
            &&& all_bits(next, z)
            &&& out.eval(z).is_bit()
            &&& bits_value(next, z) + bit_int(out.eval(z)) * pow2(n) == bits_value(
                bits.take(n as int),
                z,
            ) + bit_int(carry.eval(z))
        }),
    decreases n,
{
    reveal(all_bits);
    if n == 0 {
        assert(bits.take(0) =~= Seq::empty());
        vstd::arithmetic::power2::lemma2_to64();
        assert(bit_int(carry.eval(z)) * pow2(0) == bit_int(carry.eval(z))) by (nonlinear_arith)
            requires
                pow2(0) == 1,
        ;
    } else {
        let i = n - 1;
        let (c1, next, k) = increment_rows(c, bits, carry, i as nat);
        lemma_mul_sound(c1, bits[i], k, z);
        lemma_increment_sound(c, bits, carry, i as nat, z);
        lemma_increment_digit(bits[i].eval(z), k.eval(z));
        lemma_bits_value_push(next, bits[i].plus(k), z);
        lemma_bits_value_take(bits, n, z);
        lemma_pow2_unfold(n);
        let p = pow2(i as nat);
        let (bx, bk) = (bit_int(bits[i].eval(z)), bit_int(k.eval(z)));
        let (bs, bo) = (
            bit_int(bits[i].eval(z).plus(k.eval(z))),
            bit_int(bits[i].eval(z).times(k.eval(z))),
        );
        assert(bs * p + bo * (2 * p) == bx * p + bk * p) by (nonlinear_arith)
            requires
                bs + 2 * bo == bx + bk,
        ;
    }
}

pub proof fn lemma_increment_prefix(
    c: Seq<Row>,
    bits: Seq<Lin>,
    carry: Lin,
    n: nat,
    z: Seq<F128>,
)
    requires
        sat(increment_rows(c, bits, carry, n).0, z),
    ensures
        sat(c, z),
    decreases n,
{
    if n > 0 {
        let i = n - 1;
        let (c1, next, k) = increment_rows(c, bits, carry, i as nat);
        lemma_mul_sound(c1, bits[i], k, z);
        lemma_increment_prefix(c, bits, carry, i as nat, z);
    }
}

/// Adds a bit to an integer given by its digits, and returns the new digits
/// and the carry out.
pub fn increment_bits(b: &mut FieldR1csBuilder, bits: &Vec<LinExpr>, carry: &LinExpr) -> (r: (
    Vec<LinExpr>,
    LinExpr,
))
    requires
        old(b)@.wf(),
        all_below(lins(bits@), old(b)@.rows.len()),
        carry@.below(old(b)@.rows.len()),
    ensures
        (final(b)@.rows, lins(r.0@), r.1@) == increment_rows(
            old(b)@.rows,
            lins(bits@),
            carry@,
            bits@.len(),
        ),
        r.0@.len() == bits@.len(),
        final(b)@.grows(old(b)@),
        final(b)@.honest() <==> old(b)@.honest(),
        all_below(lins(r.0@), final(b)@.rows.len()),
        r.1@.below(final(b)@.rows.len()),
{
    let ghost bl = lins(bits@);
    let mut k = carry.dup();
    let mut next: Vec<LinExpr> = Vec::with_capacity(bits.len());
    let mut i: usize = 0;
    assert(lins(next@) =~= Seq::empty());
    while i < bits.len()
        invariant
            i <= bits@.len(),
            bl == lins(bits@),
            all_below(bl, old(b)@.rows.len()),
            b@.grows(old(b)@),
            b@.honest() <==> old(b)@.honest(),
            (b@.rows, lins(next@), k@) == increment_rows(old(b)@.rows, bl, carry@, i as nat),
            next@.len() == i,
            all_below(lins(next@), b@.rows.len()),
            k@.below(b@.rows.len()),
        decreases bits@.len() - i,
    {
        let ghost before = b@;
        let ghost prior = next@;
        assert(bl[i as int].below(old(b)@.rows.len()));
        let digit = bits[i].add(&k);
        let out = crate::circuit::mul(b, &bits[i], &k);
        next.push(digit);
        k = out;
        proof {
            assert(lins(next@) =~= lins(prior).push(digit@));
            assert forall|j: int| 0 <= j < lins(next@).len() implies (
            #[trigger] lins(next@)[j]).below(b@.rows.len()) by {
                if j < i {
                    assert(lins(prior)[j].below(before.rows.len()));
                }
            }
        }
        i += 1;
    }
    (next, k)
}

/// The top digit of `n + 1` tells whether the integer reaches `2^n`.
pub proof fn lemma_top_digit(bits: Seq<Lin>, n: nat, z: Seq<F128>)
    requires
        bits.len() == n + 1,
        all_bits(bits, z),
    ensures
        bits[n as int].eval(z) == F128::zero() <==> bits_value(bits, z) < pow2(n),
        bits[n as int].eval(z).is_bit(),
        bits_value(bits, z) < pow2(n + 1),
        bits_value(bits.take(n as int), z) == bits_value(bits, z) % pow2(n),
        bits_value(bits.take(n as int), z) < pow2(n),
        all_bits(bits.take(n as int), z),
{
    reveal(all_bits);
    assert(bits[n as int].eval(z).is_bit());
    lemma_bits_value_take(bits, n + 1, z);
    assert(bits.take(n as int + 1) =~= bits);
    let low = bits.take(n as int);
    lemma_bits_nat_bound(bools(low, z));
    lemma_bits_nat_bound(bools(bits, z));
    let p = pow2(n);
    assert(1 * p == p && 0 * p == 0) by (nonlinear_arith);
    let d = bit_int(bits[n as int].eval(z));
    vstd::arithmetic::div_mod::lemma_fundamental_div_mod_converse(
        bits_value(bits, z) as int,
        p as int,
        d,
        bits_value(low, z) as int,
    );
    assert(d * p == p * d) by (nonlinear_arith);
    assert forall|i: int| 0 <= i < low.len() implies (#[trigger] low[i]).eval(z).is_bit() by {
        assert(low[i] == bits[i]);
    }
}

/// Digits `k` and above agree exactly when the integers they make up do.
pub proof fn lemma_high_equal(l: Seq<Lin>, r: Seq<Lin>, k: nat, z: Seq<F128>)
    requires
        l.len() == r.len(),
        k <= l.len(),
        all_bits(l, z),
        all_bits(r, z),
    ensures
        high_equal(l, r, k, z) <==> high_value(l, k, z) == high_value(r, k, z),
{
    reveal(all_bits);
    let (s, t) = (bools(l.skip(k as int), z), bools(r.skip(k as int), z));
    if high_value(l, k, z) == high_value(r, k, z) {
        lemma_bits_nat_injective(s, t);
        assert forall|i: int| k <= i < l.len() implies (#[trigger] l[i]).eval(z) == r[i].eval(
            z,
        ) by {
            assert(s[i - k] == t[i - k]);
            assert(l.skip(k as int)[i - k] == l[i] && r.skip(k as int)[i - k] == r[i]);
            assert(l[i].eval(z).is_bit() && r[i].eval(z).is_bit());
        }
    }
    if high_equal(l, r, k, z) {
        assert forall|i: int| 0 <= i < s.len() implies s[i] == t[i] by {
            assert(l[i + k].eval(z) == r[i + k].eval(z));
        }
        assert(s =~= t);
    }
}

/// An integer by its digits below `k` and those from `k` on.
pub proof fn lemma_value_split(bits: Seq<Lin>, k: nat, z: Seq<F128>)
    requires
        k <= bits.len(),
    ensures
        bits_value(bits, z) == bits_value(bits.take(k as int), z) + pow2(k) * high_value(
            bits,
            k,
            z,
        ),
        bits_value(bits.take(k as int), z) < pow2(k),
{
    let s = bools(bits.take(k as int), z);
    let t = bools(bits.skip(k as int), z);
    assert(bools(bits, z) =~= s + t);
    lemma_bits_nat_concat(s, t);
    lemma_bits_nat_bound(s);
}

/// Two integers of 64 digits side by side.
pub proof fn lemma_of_nat_pack(low: nat, high: nat)
    requires
        low < pow2(64),
        high < pow2(64),
    ensures
        F128::of_nat(low).plus(F128::of_nat(pow2(64) * high)) == F128::of_nat(
            low + pow2(64) * high,
        ),
        low + pow2(64) * high <= u128::MAX,
        pow2(64) * high <= u128::MAX,
{
    vstd::arithmetic::power2::lemma2_to64_rest();
    let x = low as u128;
    let y = high as u128;
    let w = (y * 0x1_0000_0000_0000_0000) as u128;
    assert(y * 0x1_0000_0000_0000_0000 <= 0xffff_ffff_ffff_ffff_0000_0000_0000_0000);
    assert(x ^ w == (x + w) as u128) by (bit_vector)
        requires
            x < 0x1_0000_0000_0000_0000u128,
            y < 0x1_0000_0000_0000_0000u128,
            w == (y * 0x1_0000_0000_0000_0000) as u128,
    ;
    assert(pow2(64) * high == w) by (nonlinear_arith)
        requires
            pow2(64) == 0x1_0000_0000_0000_0000,
            w == high * 0x1_0000_0000_0000_0000,
    ;
    reveal(F128::plus);
}

/// Digits with zeros above them.
pub open spec fn widened(bits: Seq<Lin>, width: nat) -> Seq<Lin> {
    bits + Seq::new((width - bits.len()) as nat, |i: int| Lin::zero())
}

pub proof fn lemma_widened(bits: Seq<Lin>, width: nat, z: Seq<F128>)
    requires
        bits.len() <= width,
        all_bits(bits, z),
    ensures
        widened(bits, width).len() == width,
        all_bits(widened(bits, width), z),
        bits_value(widened(bits, width), z) == bits_value(bits, z),
    decreases width - bits.len(),
{
    if bits.len() == width {
        assert(widened(bits, width) =~= bits);
    } else {
        let more = bits.push(Lin::zero());
        lemma_bits_value_push(bits, Lin::zero(), z);
        assert(0 * pow2(bits.len()) == 0) by (nonlinear_arith);
        lemma_widened(more, width, z);
        assert(widened(more, width) =~= widened(bits, width));
    }
}

} // verus!
