//! Fixed-shape public arithmetic for one transaction page.
//!
//! Input value lanes are `amount | (creation_id << 64)`, while sums are
//! ordinary integer sums. Every packed input is split exactly, all monetary
//! lanes are range-checked, and bitmap counts and sums are integers. There is
//! no branch on witness values: all input and output positions take the same
//! constraints.

use vstd::prelude::*;
use vstd::arithmetic::power2::{lemma_pow2_pos, lemma_pow2_unfold, pow2};
use crate::action_surface::{ActionRowTrace, ActionSurfaceTrace, INPUT_SELECTORS, OUTPUT_SELECTORS};
use crate::bits::{
    all_bits, bits_value, bools, checked_add_bits, checked_add_rows, increment_bits, increment_rows,
    lemma_bits_nat_bound, lemma_bits_stable, lemma_checked_add_sound, lemma_checked_rows_prefix,
    lemma_increment_prefix, lemma_increment_sound, lemma_of_nat_pack, lemma_pow2_bound,
    lemma_range_sound, lemma_weighted, lemma_weighted_below, lemma_weighted_value, lemma_widened,
    range_check_bits, range_rows, weighted, weighted_sum, widened, wire_exprs, wire_lins,
};
use crate::circuit::{
    all_below, alloc_block, free_row, group_circuit, lemma_free_sound, lemma_grows_honest,
    lemma_mul_sound, lemma_pin_sound, lins, mul_rows, pin_eq, pin_rows, pin_zero, sat, Circuit,
    FieldR1csBuilder, Lin, LinExpr, Row, Wire,
};
use crate::field::{lemma_plus_is_zero, F128};
use crate::permutation_network::rows_shaped;
use crate::segment_compaction::{pair, pairs};

verus! {

broadcast use group_circuit;

/// Digits of an amount.
pub const U64_BITS: usize = 64;

/// Digits of the sum of eight amounts.
pub const INPUT_SUM_BITS: usize = 67;

/// Digits of the sum of two amounts and a fee.
pub const OUTPUT_PLUS_FEE_BITS: usize = 66;

/// An expression bound to be an integer of 64 digits, with its digits.
pub struct U64Trace {
    pub value: LinExpr,
    pub bits: Vec<Wire>,
}

impl U64Trace {
    pub open spec fn digits(&self) -> Seq<Lin> {
        wire_lins(self.bits@)
    }

    /// The parts speak of wires below `n`.
    pub open spec fn below(&self, n: nat) -> bool {
        &&& self.value@.below(n)
        &&& self.bits@.len() == 64
        &&& all_below(self.digits(), n)
    }

    /// The value is the integer of the digits under `z`.
    pub open spec fn holds(&self, z: Seq<F128>) -> bool {
        &&& all_bits(self.digits(), z)
        &&& self.value@.eval(z) == F128::of_nat(bits_value(self.digits(), z))
    }

    fn dup(&self) -> (r: U64Trace)
        ensures
            r.value@ == self.value@,
            r.bits@ == self.bits@,
    {
        let mut bits: Vec<Wire> = Vec::with_capacity(self.bits.len());
        let mut i: usize = 0;
        while i < self.bits.len()
            invariant
                i <= self.bits@.len(),
                bits@ == self.bits@.take(i as int),
            decreases self.bits@.len() - i,
        {
            bits.push(self.bits[i]);
            assert(bits@ =~= self.bits@.take(i + 1));
            i += 1;
        }
        assert(self.bits@.take(i as int) =~= self.bits@);
        U64Trace { value: self.value.dup(), bits }
    }
}

/// The exact split of a packed value lane.
pub struct PackedInputValueTrace {
    pub amount: U64Trace,
    pub creation_id: U64Trace,
}

impl PackedInputValueTrace {
    pub open spec fn below(&self, n: nat) -> bool {
        self.amount.below(n) && self.creation_id.below(n)
    }
}

/// Binds an expression to be an integer of 64 digits.
fn bind_u64(b: &mut FieldR1csBuilder, value: &LinExpr) -> (r: U64Trace)
    requires
        old(b)@.wf(),
        value@.below(old(b)@.rows.len()),
    ensures
        r.value@ == value@,
        (final(b)@.rows, r.digits()) == range_rows(old(b)@.rows, value@, 64),
        final(b)@.grows(old(b)@),
        r.below(final(b)@.rows.len()),
        all_bits(r.digits(), final(b)@.values),
        final(b)@.honest() <==> old(b)@.honest() && value@.eval(old(b)@.values).bits < pow2(64),
{
    let bits = range_check_bits(b, value, U64_BITS);
    U64Trace { value: value.dup(), bits }
}

// ---------------------------------------------------------------------------
// Packed inputs
// ---------------------------------------------------------------------------

/// The rows that bind a packed lane to its components, and their digits.
pub open spec fn component_rows(c: Seq<Row>, packed: Lin, amount: Lin, id: Lin) -> (
    Seq<Row>,
    Seq<Lin>,
    Seq<Lin>,
) {
    let (c1, ab) = range_rows(c, amount, 64);
    let (c2, ib) = range_rows(c1, id, 64);
    (pin_rows(c2, packed.plus(amount.plus(weighted(ib, 64)))), ab, ib)
}

/// Under every satisfying assignment both components have 64 digits and the
/// packed lane is `amount + creation_id * 2^64`.
pub proof fn lemma_component_sound(
    c: Seq<Row>,
    packed: Lin,
    amount: Lin,
    id: Lin,
    z: Seq<F128>,
)
    requires
        sat(component_rows(c, packed, amount, id).0, z),
    ensures
        sat(c, z),
        ({
            let (_, ab, ib) = component_rows(c, packed, amount, id);
            let (a, i) = (bits_value(ab, z), bits_value(ib, z));
            &&& ab.len() == 64
            &&& ib.len() == 64
            &&& all_bits(ab, z)
            &&& all_bits(ib, z)
            &&& a < pow2(64)
            &&& i < pow2(64)
            &&& amount.eval(z) == F128::of_nat(a)
            &&& id.eval(z) == F128::of_nat(i)
            &&& packed.eval(z) == F128::of_nat(a + pow2(64) * i)
        }),
{
    broadcast use lemma_plus_is_zero;

    let (c1, ab) = range_rows(c, amount, 64);
    let (c2, ib) = range_rows(c1, id, 64);
    lemma_pin_sound(c2, packed.plus(amount.plus(weighted(ib, 64))), z);
    lemma_range_sound(c1, id, 64, z);
    lemma_range_sound(c, amount, 64, z);
    lemma_weighted(ib, 64, z);
    lemma_of_nat_pack(bits_value(ab, z), bits_value(ib, z));
}

/// Range-checks the components of a packed lane and binds them to it.
pub fn bind_packed_input_components(
    b: &mut FieldR1csBuilder,
    packed: &LinExpr,
    amount: &LinExpr,
    creation_id: &LinExpr,
) -> (r: PackedInputValueTrace)
    requires
        old(b)@.wf(),
        packed@.below(old(b)@.rows.len()),
        amount@.below(old(b)@.rows.len()),
        creation_id@.below(old(b)@.rows.len()),
    ensures
        (final(b)@.rows, r.amount.digits(), r.creation_id.digits()) == component_rows(
            old(b)@.rows,
            packed@,
            amount@,
            creation_id@,
        ),
        r.amount.value@ == amount@,
        r.creation_id.value@ == creation_id@,
        final(b)@.grows(old(b)@),
        r.below(final(b)@.rows.len()),
        ({
            let z = old(b)@.values;
            let (a, i) = (amount@.eval(z).bits, creation_id@.eval(z).bits);
            final(b)@.honest() <==> {
                &&& old(b)@.honest()
                &&& a < pow2(64)
                &&& i < pow2(64)
                &&& packed@.eval(z) == F128::of_nat((a + pow2(64) * i) as nat)
            }
        }),
{
    broadcast use lemma_plus_is_zero;

    let amount_trace = bind_u64(b, amount);
    let ghost b1 = b@;
    let id_trace = bind_u64(b, creation_id);
    let ghost b2 = b@;
    let ghost ib = id_trace.digits();
    proof {
        lemma_bits_stable(b1, b2, amount_trace.digits());
        lemma_weighted_below(ib, 64, b2.rows.len());
    }
    let id_exprs = wire_exprs(&id_trace.bits);
    let high = weighted_sum(&id_exprs, U64_BITS);
    let whole = amount.add(&high);
    pin_eq(b, packed, &whole);
    proof {
        lemma_bits_stable(b2, b@, amount_trace.digits());
        lemma_bits_stable(b2, b@, ib);
        if b2.honest() {
            lemma_range_sound(b1.rows, creation_id@, 64, b2.values);
            lemma_range_sound(old(b)@.rows, amount@, 64, b2.values);
            lemma_weighted(ib, 64, b2.values);
            lemma_of_nat_pack(
                bits_value(amount_trace.digits(), b2.values),
                bits_value(ib, b2.values),
            );
        }
    }
    PackedInputValueTrace { amount: amount_trace, creation_id: id_trace }
}

/// A split: two fresh wires, then the component rows.
pub open spec fn split_rows(c: Seq<Row>, packed: Lin) -> (
    Seq<Row>,
    Lin,
    Seq<Lin>,
    Lin,
    Seq<Lin>,
) {
    let amount = Lin::wire(c.len() as usize);
    let id = Lin::wire((c.len() + 1) as usize);
    let c1 = c.push(free_row(c.len() as usize));
    let c2 = c1.push(free_row((c.len() + 1) as usize));
    let (c3, ab, ib) = component_rows(c2, packed, amount, id);
    (c3, amount, ab, id, ib)
}

/// Splits a packed lane into amount and creation id.
pub fn split_packed_input_value(b: &mut FieldR1csBuilder, packed: &LinExpr) -> (r:
    PackedInputValueTrace)
    requires
        old(b)@.wf(),
        packed@.below(old(b)@.rows.len()),
    ensures
        ({
            let (rows, amount, ab, id, ib) = split_rows(old(b)@.rows, packed@);
            &&& final(b)@.rows == rows
            &&& r.amount.value@ == amount
            &&& r.amount.digits() == ab
            &&& r.creation_id.value@ == id
            &&& r.creation_id.digits() == ib
        }),
        final(b)@.grows(old(b)@),
        r.below(final(b)@.rows.len()),
        final(b)@.honest() <==> old(b)@.honest(),
        ({
            let v = packed@.eval(old(b)@.values).bits;
            &&& r.amount.value@.eval(final(b)@.values) == F128::of_nat((v % 0x1_0000_0000_0000_0000) as nat)
            &&& r.creation_id.value@.eval(final(b)@.values) == F128::of_nat(
                (v / 0x1_0000_0000_0000_0000) as nat,
            )
        }),
{
    let native: u128 = packed.eval(&b.values).bits;
    let amount = alloc_block(b, F128::from_u128(native % 0x1_0000_0000_0000_0000));
    let ghost b1 = b@;
    let creation_id = alloc_block(b, F128::from_u128(native / 0x1_0000_0000_0000_0000));
    let ghost b2 = b@;
    proof {
        vstd::arithmetic::power2::lemma2_to64_rest();
        let a = (native % 0x1_0000_0000_0000_0000) as nat;
        let i = (native / 0x1_0000_0000_0000_0000) as nat;
        assert(a + pow2(64) * i == native) by (nonlinear_arith)
            requires
                pow2(64) == 0x1_0000_0000_0000_0000,
                a == native % 0x1_0000_0000_0000_0000,
                i == native / 0x1_0000_0000_0000_0000,
        ;
    }
    bind_packed_input_components(b, packed, &amount, &creation_id)
}

// ---------------------------------------------------------------------------
// Counts and sums
// ---------------------------------------------------------------------------

/// The number of selectors that are one among the first `n`.
pub open spec fn ones(sels: Seq<Lin>, n: nat, z: Seq<F128>) -> nat
    decreases n,
{
    if n == 0 {
        0
    } else {
        ones(sels, (n - 1) as nat, z) + if sels[n - 1].eval(z) == F128::one() {
            1nat
        } else {
            0
        }
    }
}

/// Zero digits.
pub open spec fn zero_digits(width: nat) -> Seq<Lin> {
    Seq::new(width, |i: int| Lin::zero())
}

/// The rows that count the first `n` selectors, and the digits of the count.
pub open spec fn count_rows(c: Seq<Row>, sels: Seq<Lin>, width: nat, n: nat) -> (
    Seq<Row>,
    Seq<Lin>,
)
    decreases n,
{
    if n == 0 {
        (c, zero_digits(width))
    } else {
        let (c1, bits) = count_rows(c, sels, width, (n - 1) as nat);
        let (c2, next, carry) = increment_rows(c1, bits, sels[n - 1], bits.len());
        (pin_rows(c2, carry), next)
    }
}

proof fn lemma_zero_digits(width: nat, z: Seq<F128>)
    ensures
        all_bits(zero_digits(width), z),
        bits_value(zero_digits(width), z) == 0,
    decreases width,
{
    reveal(all_bits);
    if width > 0 {
        let w = (width - 1) as nat;
        lemma_zero_digits(w, z);
        assert(bools(zero_digits(width), z).drop_last() =~= bools(zero_digits(w), z));
    }
}

/// The digits count the selectors.
pub proof fn lemma_count_sound(c: Seq<Row>, sels: Seq<Lin>, width: nat, n: nat, z: Seq<F128>)
    requires
        n <= sels.len(),
        all_bits(sels, z),
        sat(count_rows(c, sels, width, n).0, z),
    ensures
        sat(c, z),
        count_rows(c, sels, width, n).1.len() == width,
        all_bits(count_rows(c, sels, width, n).1, z),
        bits_value(count_rows(c, sels, width, n).1, z) == ones(sels, n, z),
        ones(sels, n, z) < pow2(width),
    decreases n,
{
    if n == 0 {
        lemma_zero_digits(width, z);
        lemma_pow2_pos(width);
    } else {
        let (c1, bits) = count_rows(c, sels, width, (n - 1) as nat);
        let (c2, next, carry) = increment_rows(c1, bits, sels[n - 1], bits.len());
        lemma_pin_sound(c2, carry, z);
        lemma_increment_prefix(c1, bits, sels[n - 1], bits.len(), z);
        lemma_count_sound(c, sels, width, (n - 1) as nat, z);
        reveal(all_bits);
        assert(sels[n - 1].eval(z).is_bit());
        lemma_increment_sound(c1, bits, sels[n - 1], bits.len(), z);
        assert(bits.take(bits.len() as int) =~= bits);
        assert(0 * pow2(bits.len()) == 0) by (nonlinear_arith);
        lemma_bits_nat_bound(bools(next, z));
    }
}

proof fn lemma_count_prefix(c: Seq<Row>, sels: Seq<Lin>, width: nat, n: nat, z: Seq<F128>)
    requires
        sat(count_rows(c, sels, width, n).0, z),
    ensures
        sat(c, z),
    decreases n,
{
    if n > 0 {
        let (c1, bits) = count_rows(c, sels, width, (n - 1) as nat);
        let (c2, next, carry) = increment_rows(c1, bits, sels[n - 1], bits.len());
        lemma_pin_sound(c2, carry, z);
        lemma_increment_prefix(c1, bits, sels[n - 1], bits.len(), z);
        lemma_count_prefix(c, sels, width, (n - 1) as nat, z);
    }
}

proof fn lemma_ones_stable(old: Circuit, new: Circuit, sels: Seq<Lin>, n: nat)
    requires
        new.grows(old),
        n <= sels.len(),
        all_below(sels, old.rows.len()),
    ensures
        ones(sels, n, new.values) == ones(sels, n, old.values),
    decreases n,
{
    if n > 0 {
        lemma_ones_stable(old, new, sels, (n - 1) as nat);
        assert(sels[n - 1].below(old.rows.len()));
    }
}

/// Counts boolean selectors into `width` digits. A count of `2^width` or more
/// is unsatisfiable.
fn selector_count_bits(b: &mut FieldR1csBuilder, selectors: &Vec<LinExpr>, width: usize) -> (r:
    Vec<LinExpr>)
    requires
        old(b)@.wf(),
        all_below(lins(selectors@), old(b)@.rows.len()),
    ensures
        r@.len() == width,
        (final(b)@.rows, lins(r@)) == count_rows(
            old(b)@.rows,
            lins(selectors@),
            width as nat,
            selectors@.len(),
        ),
        final(b)@.grows(old(b)@),
        all_below(lins(r@), final(b)@.rows.len()),
        all_bits(lins(selectors@), old(b)@.values) ==> (final(b)@.honest() <==> old(b)@.honest()
            && ones(lins(selectors@), selectors@.len(), old(b)@.values) < pow2(width as nat)),
{
    let ghost sl = lins(selectors@);
    let ghost z0 = old(b)@.values;
    let ghost w = width as nat;
    let mut bits: Vec<LinExpr> = Vec::with_capacity(width);
    let mut k: usize = 0;
    while k < width
        invariant
            k <= width,
            bits@.len() == k,
            forall|j: int| 0 <= j < k ==> (#[trigger] bits@[j])@ == Lin::zero(),
        decreases width - k,
    {
        bits.push(LinExpr::zero());
        k += 1;
    }
    assert(lins(bits@) =~= zero_digits(w));
    assert(all_below(lins(bits@), b@.rows.len()));
    let mut i: usize = 0;
    proof {
        lemma_pow2_pos(w);
    }
    while i < selectors.len()
        invariant
            i <= selectors@.len(),
            sl == lins(selectors@),
            z0 == old(b)@.values,
            w == width,
            all_below(sl, old(b)@.rows.len()),
            b@.grows(old(b)@),
            bits@.len() == width,
            (b@.rows, lins(bits@)) == count_rows(old(b)@.rows, sl, w, i as nat),
            all_below(lins(bits@), b@.rows.len()),
            all_bits(sl, z0) ==> (b@.honest() <==> old(b)@.honest() && ones(sl, i as nat, z0)
                < pow2(w)),
        decreases selectors@.len() - i,
    {
        let ghost start = b@;
        let ghost prior = lins(bits@);
        assert(sl[i as int].below(old(b)@.rows.len()));
        let (next, carry) = increment_bits(b, &bits, &selectors[i]);
        let ghost mid = b@;
        pin_zero(b, &carry);
        proof {
            lemma_bits_stable(mid, b@, lins(next@));
            if all_bits(sl, z0) && start.honest() {
                lemma_bits_stable(old(b)@, mid, sl);
                lemma_increment_prefix(start.rows, prior, sl[i as int], w, mid.values);
                lemma_count_sound(old(b)@.rows, sl, w, i as nat, mid.values);
                lemma_ones_stable(old(b)@, mid, sl, i as nat);
                reveal(all_bits);
                assert(sl[i as int].eval(mid.values).is_bit());
                lemma_increment_sound(start.rows, prior, sl[i as int], w, mid.values);
                assert(prior.take(w as int) =~= prior);
                lemma_bits_nat_bound(bools(lins(next@), mid.values));
                assert(0 * pow2(w) == 0 && 1 * pow2(w) == pow2(w)) by (nonlinear_arith);
            }
        }
        bits = next;
        i += 1;
    }
    bits
}

/// The sum of the first `n` integers.
pub open spec fn digits_sum(terms: Seq<Seq<Lin>>, n: nat, z: Seq<F128>) -> nat
    decreases n,
{
    if n == 0 {
        0
    } else {
        digits_sum(terms, (n - 1) as nat, z) + bits_value(terms[n - 1], z)
    }
}

/// The rows that add the first `n` integers within `width` digits, and the
/// digits of the sum.
pub open spec fn sum_rows(c: Seq<Row>, terms: Seq<Seq<Lin>>, width: nat, n: nat) -> (
    Seq<Row>,
    Seq<Lin>,
)
    decreases n,
{
    if n <= 1 {
        (c, widened(terms[0], width))
    } else {
        let (c1, acc) = sum_rows(c, terms, width, (n - 1) as nat);
        checked_add_rows(c1, acc, widened(terms[n - 1], width))
    }
}

/// Every integer is given by 64 boolean digits.
pub open spec fn terms_hold(terms: Seq<Seq<Lin>>, z: Seq<F128>) -> bool {
    forall|i: int| 0 <= i < terms.len() ==> (#[trigger] terms[i]).len() == 64 && all_bits(terms[i], z)
}

proof fn lemma_sum_prefix(c: Seq<Row>, terms: Seq<Seq<Lin>>, width: nat, n: nat, z: Seq<F128>)
    requires
        sat(sum_rows(c, terms, width, n).0, z),
    ensures
        sat(c, z),
    decreases n,
{
    if n > 1 {
        let (c1, acc) = sum_rows(c, terms, width, (n - 1) as nat);
        lemma_checked_rows_prefix(c1, acc, widened(terms[n - 1], width), z);
        lemma_sum_prefix(c, terms, width, (n - 1) as nat, z);
    }
}

/// The digits are those of the integer sum.
pub proof fn lemma_sum_sound(c: Seq<Row>, terms: Seq<Seq<Lin>>, width: nat, n: nat, z: Seq<F128>)
    requires
        1 <= n <= terms.len(),
        64 <= width,
        terms_hold(terms, z),
        sat(sum_rows(c, terms, width, n).0, z),
    ensures
        sat(c, z),
        sum_rows(c, terms, width, n).1.len() == width,
        all_bits(sum_rows(c, terms, width, n).1, z),
        bits_value(sum_rows(c, terms, width, n).1, z) == digits_sum(terms, n, z),
    decreases n,
{
    assert(terms[n - 1].len() == 64 && all_bits(terms[n - 1], z));
    lemma_widened(terms[n - 1], width, z);
    if n == 1 {
        assert(digits_sum(terms, 0, z) == 0);
        assert(digits_sum(terms, 1, z) == bits_value(terms[0], z));
    } else {
        let (c1, acc) = sum_rows(c, terms, width, (n - 1) as nat);
        lemma_checked_rows_prefix(c1, acc, widened(terms[n - 1], width), z);
        lemma_sum_sound(c, terms, width, (n - 1) as nat, z);
        lemma_checked_add_sound(c1, acc, widened(terms[n - 1], width), z);
    }
}

/// The digits of every integer.
pub open spec fn all_digits(terms: Seq<U64Trace>) -> Seq<Seq<Lin>> {
    Seq::new(terms.len(), |i: int| terms[i].digits())
}

fn widen_u64_bits(value: &U64Trace, width: usize) -> (r: Vec<LinExpr>)
    requires
        value.bits@.len() == 64,
        64 <= width <= 128,
    ensures
        lins(r@) == widened(value.digits(), width as nat),
        r@.len() == width,
{
    let mut r = wire_exprs(&value.bits);
    let ghost d = value.digits();
    assert(lins(r@) =~= widened(d, 64));
    while r.len() < width
        invariant
            d.len() == 64,
            64 <= r@.len() <= width,
            lins(r@) == widened(d, r@.len()),
        decreases width - r@.len(),
    {
        let ghost prior = r@;
        r.push(LinExpr::zero());
        assert(lins(r@) =~= lins(prior).push(Lin::zero()));
        assert(widened(d, r@.len()) =~= widened(d, prior.len()).push(Lin::zero()));
    }
    r
}

proof fn lemma_widened_below(bits: Seq<Lin>, width: nat, n: nat)
    requires
        all_below(bits, n),
        bits.len() <= width,
    ensures
        all_below(widened(bits, width), n),
{
    let w = widened(bits, width);
    assert forall|i: int| 0 <= i < w.len() implies (#[trigger] w[i]).below(n) by {
        if i < bits.len() {
            assert(w[i] == bits[i]);
        } else {
            assert(w[i] == Lin::zero());
        }
    }
}

proof fn lemma_digits_sum_stable(old: Circuit, new: Circuit, terms: Seq<Seq<Lin>>, n: nat)
    requires
        new.grows(old),
        n <= terms.len(),
        rows_shaped(terms, 64, old.rows.len()),
    ensures
        digits_sum(terms, n, new.values) == digits_sum(terms, n, old.values),
        terms_hold(terms, new.values) == terms_hold(terms, old.values),
    decreases n,
{
    assert forall|i: int| 0 <= i < terms.len() implies (#[trigger] terms[i]).len() == 64
        && all_bits(terms[i], new.values) == all_bits(terms[i], old.values) && bits_value(
        terms[i],
        new.values,
    ) == bits_value(terms[i], old.values) by {
        lemma_bits_stable(old, new, terms[i]);
    }
    if n > 0 {
        lemma_digits_sum_stable(old, new, terms, (n - 1) as nat);
        let _ = terms[n - 1];
    }
}

/// Adds integers of 64 digits within `width` digits.
fn checked_sum_u64(b: &mut FieldR1csBuilder, terms: &Vec<U64Trace>, width: usize) -> (r: (
    Vec<LinExpr>,
    LinExpr,
))
    requires
        old(b)@.wf(),
        terms@.len() > 0,
        64 <= width <= 128,
        rows_shaped(all_digits(terms@), 64, old(b)@.rows.len()),
    ensures
        r.0@.len() == width,
        (final(b)@.rows, lins(r.0@)) == sum_rows(
            old(b)@.rows,
            all_digits(terms@),
            width as nat,
            terms@.len(),
        ),
        r.1@ == weighted(lins(r.0@), 0),
        final(b)@.grows(old(b)@),
        all_below(lins(r.0@), final(b)@.rows.len()),
        r.1@.below(final(b)@.rows.len()),
        terms_hold(all_digits(terms@), old(b)@.values) ==> (final(b)@.honest() <==> old(b)@.honest()
            && digits_sum(all_digits(terms@), terms@.len(), old(b)@.values) < pow2(width as nat)),
{
    let ghost tl = all_digits(terms@);
    let ghost z0 = old(b)@.values;
    let ghost w = width as nat;
    assert(tl[0].len() == 64 && all_below(tl[0], old(b)@.rows.len()));
    assert(tl[0] == terms@[0].digits());
    let mut acc = widen_u64_bits(&terms[0], width);
    proof {
        lemma_widened_below(tl[0], w, old(b)@.rows.len());
        if terms_hold(tl, z0) {
            lemma_bits_nat_bound(bools(tl[0], z0));
            lemma_pow2_bound(64, w);
            assert(digits_sum(tl, 0, z0) == 0);
            assert(digits_sum(tl, 1, z0) == bits_value(tl[0], z0));
        }
    }
    let mut i: usize = 1;
    while i < terms.len()
        invariant
            1 <= i <= terms@.len(),
            tl == all_digits(terms@),
            z0 == old(b)@.values,
            w == width,
            64 <= width <= 128,
            rows_shaped(tl, 64, old(b)@.rows.len()),
            b@.grows(old(b)@),
            acc@.len() == width,
            (b@.rows, lins(acc@)) == sum_rows(old(b)@.rows, tl, w, i as nat),
            all_below(lins(acc@), b@.rows.len()),
            terms_hold(tl, z0) ==> (b@.honest() <==> old(b)@.honest() && digits_sum(
                tl,
                i as nat,
                z0,
            ) < pow2(w)),
        decreases terms@.len() - i,
    {
        let ghost start = b@;
        let ghost prior = lins(acc@);
        assert(tl[i as int].len() == 64 && all_below(tl[i as int], old(b)@.rows.len()));
        assert(tl[i as int] == terms@[i as int].digits());
        let term = widen_u64_bits(&terms[i], width);
        proof {
            lemma_widened_below(tl[i as int], w, old(b)@.rows.len());
            lemma_bits_stable(old(b)@, start, lins(term@));
        }
        acc = checked_add_bits(b, &acc, &term);
        proof {
            if terms_hold(tl, z0) {
                lemma_digits_sum_stable(old(b)@, start, tl, i as nat);
                assert(all_bits(tl[i as int], start.values));
                lemma_bits_stable(old(b)@, start, tl[i as int]);
                lemma_widened(tl[i as int], w, start.values);
                if start.honest() {
                    lemma_sum_sound(old(b)@.rows, tl, w, i as nat, start.values);
                } else if b@.honest() {
                    lemma_grows_honest(start, b@);
                }
            }
        }
        i += 1;
    }
    proof {
        lemma_weighted_below(lins(acc@), 0, b@.rows.len());
    }
    let value = weighted_sum(&acc, 0);
    (acc, value)
}

// ---------------------------------------------------------------------------
// One page
// ---------------------------------------------------------------------------

/// The raw leaves of a transaction body that the arithmetic reads.
#[derive(Debug)]
pub struct SpineInputsTrace {
    pub leaves: Vec<[LinExpr; 2]>,
}

/// Raw leaves of a transaction body.
pub const TX_BODY_RAW_LEAVES: usize = 16;

/// Where the body keeps amounts: the leaf of the first input, the data leaf of
/// the first output (outputs take two leaves each), and the fee leaf.
#[derive(Clone, Copy, Debug, PartialEq, Eq, Structural)]
pub struct BodyLayout {
    pub input_base: usize,
    pub output_data: usize,
    pub fee: usize,
}

impl BodyLayout {
    /// Every position is a leaf of the body.
    pub open spec fn fits(self) -> bool {
        &&& self.input_base + 8 <= 16
        &&& self.output_data + 2 < 16
        &&& self.fee < 16
    }
}

/// Public arithmetic of one page.
pub struct UserPublicArithmeticTrace {
    pub tx_live: LinExpr,
    pub selected_input_live: Vec<LinExpr>,
    pub selected_output_live: Vec<LinExpr>,
    pub live_input_count_bits: Vec<LinExpr>,
    pub live_output_count_bits: Vec<LinExpr>,
    pub live_input_count: LinExpr,
    pub live_output_count: LinExpr,
    /// The exact split of every input position.
    pub inputs: Vec<PackedInputValueTrace>,
    pub outputs: Vec<U64Trace>,
    pub fee: U64Trace,
    /// Amounts of live selected positions.
    pub selected_inputs: Vec<LinExpr>,
    pub selected_outputs: Vec<LinExpr>,
    /// The fee of a live page, zero otherwise.
    pub paid_fee: LinExpr,
    pub raw_input_sum: LinExpr,
    pub raw_output_sum: LinExpr,
    pub raw_output_plus_fee: LinExpr,
    /// The raw sums of a live page, zero otherwise.
    pub input_sum: LinExpr,
    pub output_sum: LinExpr,
    pub output_plus_fee: LinExpr,
}

/// The splits of input positions: rows, amounts and creation ids with their
/// digits.
pub struct Splits {
    pub rows: Seq<Row>,
    pub amounts: Seq<Lin>,
    pub amount_digits: Seq<Seq<Lin>>,
    pub ids: Seq<Lin>,
    pub id_digits: Seq<Seq<Lin>>,
}

pub open spec fn splits(c: Seq<Row>, leaves: Seq<Seq<Lin>>, base: int, n: nat) -> Splits
    decreases n,
{
    if n == 0 {
        Splits {
            rows: c,
            amounts: Seq::empty(),
            amount_digits: Seq::empty(),
            ids: Seq::empty(),
            id_digits: Seq::empty(),
        }
    } else {
        let s = splits(c, leaves, base, (n - 1) as nat);
        let (rows, amount, ab, id, ib) = split_rows(s.rows, leaves[base + n - 1][1]);
        Splits {
            rows,
            amounts: s.amounts.push(amount),
            amount_digits: s.amount_digits.push(ab),
            ids: s.ids.push(id),
            id_digits: s.id_digits.push(ib),
        }
    }
}

/// The range checks of outputs and fee.
pub open spec fn output_rows(c: Seq<Row>, leaves: Seq<Seq<Lin>>, layout: BodyLayout) -> (
    Seq<Row>,
    Seq<Seq<Lin>>,
    Seq<Lin>,
) {
    let (c1, o0) = range_rows(c, leaves[layout.output_data as int][1], 64);
    let (c2, o1) = range_rows(c1, leaves[layout.output_data + 2][1], 64);
    let (c3, fee) = range_rows(c2, leaves[layout.fee as int][0], 64);
    (pin_rows(c3, leaves[layout.fee as int][1]), seq![o0, o1], fee)
}

/// The selected amounts of the first `n` inputs.
pub open spec fn selected_rows(
    c: Seq<Row>,
    sels: Seq<Lin>,
    values: Seq<Lin>,
    id_digits: Seq<Seq<Lin>>,
    n: nat,
) -> (Seq<Row>, Seq<Lin>)
    decreases n,
{
    if n == 0 {
        (c, Seq::empty())
    } else {
        let (c1, out) = selected_rows(c, sels, values, id_digits, (n - 1) as nat);
        let (c2, high) = mul_rows(c1, sels[n - 1], weighted(id_digits[n - 1], 64));
        (c2, out.push(values[n - 1].plus(high)))
    }
}

/// What the arithmetic of a page reads.
pub struct PageInputs {
    pub leaves: Seq<Seq<Lin>>,
    pub layout: BodyLayout,
    pub tx_live: Lin,
    pub selected_inputs: Seq<Lin>,
    pub selected_outputs: Seq<Lin>,
    pub input_values: Seq<Lin>,
    pub output_values: Seq<Lin>,
}

/// The arithmetic of a page: its rows and what it hands on.
pub struct PageArithmetic {
    pub rows: Seq<Row>,
    pub splits: Splits,
    pub output_digits: Seq<Seq<Lin>>,
    pub fee_digits: Seq<Lin>,
    pub selected_inputs: Seq<Lin>,
    pub input_count_bits: Seq<Lin>,
    pub output_count_bits: Seq<Lin>,
    pub raw_input_sum: Lin,
    pub raw_output_sum: Lin,
    pub raw_output_plus_fee: Lin,
    pub input_sum: Lin,
    pub output_sum: Lin,
    pub output_plus_fee: Lin,
    pub paid_fee: Lin,
}

/// The arithmetic of a page depends on its input expressions alone.
pub open spec fn page_arithmetic(c: Seq<Row>, p: PageInputs) -> PageArithmetic {
    let s = splits(c, p.leaves, p.layout.input_base as int, 8);
    let (c2, output_digits, fee_digits) = output_rows(s.rows, p.leaves, p.layout);
    let (c3, selected) = selected_rows(
        c2,
        p.selected_inputs,
        p.input_values,
        s.id_digits,
        8,
    );
    let (c4, in_bits) = count_rows(c3, p.selected_inputs, 4, 8);
    let (c5, out_bits) = count_rows(c4, p.selected_outputs, 2, 2);
    let (c6, in_sum) = sum_rows(c5, s.amount_digits, 67, 8);
    let (c7, out_sum) = sum_rows(c6, output_digits, 66, 2);
    let (c8, plus_fee) = checked_add_rows(c7, out_sum, widened(fee_digits, 66));
    let (c9, input_sum) = mul_rows(c8, p.tx_live, weighted(in_sum, 0));
    let (c10, output_sum) = mul_rows(c9, p.tx_live, weighted(out_sum, 0));
    let (c11, output_plus_fee) = mul_rows(c10, p.tx_live, weighted(plus_fee, 0));
    let (c12, paid_fee) = mul_rows(c11, p.tx_live, p.leaves[p.layout.fee as int][0]);
    PageArithmetic {
        rows: c12,
        splits: s,
        output_digits,
        fee_digits,
        selected_inputs: selected,
        input_count_bits: in_bits,
        output_count_bits: out_bits,
        raw_input_sum: weighted(in_sum, 0),
        raw_output_sum: weighted(out_sum, 0),
        raw_output_plus_fee: weighted(plus_fee, 0),
        input_sum,
        output_sum,
        output_plus_fee,
        paid_fee,
    }
}

/// The splits of the first `n` inputs are exact under `z`.
pub open spec fn splits_hold(
    s: Splits,
    leaves: Seq<Seq<Lin>>,
    base: int,
    n: nat,
    z: Seq<F128>,
) -> bool {
    &&& s.amounts.len() == n
    &&& s.ids.len() == n
    &&& s.amount_digits.len() == n
    &&& s.id_digits.len() == n
    &&& forall|i: int| 0 <= i < n ==> #[trigger] split_holds(s, leaves, base, i, z)
}

/// Input `i` is `amount + creation_id * 2^64` with 64 digits each.
pub open spec fn split_holds(
    s: Splits,
    leaves: Seq<Seq<Lin>>,
    base: int,
    i: int,
    z: Seq<F128>,
) -> bool {
    let (a, d) = (bits_value(s.amount_digits[i], z), bits_value(s.id_digits[i], z));
    &&& s.amount_digits[i].len() == 64
    &&& s.id_digits[i].len() == 64
    &&& all_bits(s.amount_digits[i], z)
    &&& all_bits(s.id_digits[i], z)
    &&& a < pow2(64)
    &&& d < pow2(64)
    &&& s.amounts[i].eval(z) == F128::of_nat(a)
    &&& s.ids[i].eval(z) == F128::of_nat(d)
    &&& leaves[base + i][1].eval(z) == F128::of_nat(a + pow2(64) * d)
}

proof fn lemma_splits_sound(
    c: Seq<Row>,
    leaves: Seq<Seq<Lin>>,
    base: int,
    n: nat,
    z: Seq<F128>,
)
    requires
        sat(splits(c, leaves, base, n).rows, z),
    ensures
        sat(c, z),
        splits_hold(splits(c, leaves, base, n), leaves, base, n, z),
    decreases n,
{
    if n > 0 {
        let s = splits(c, leaves, base, (n - 1) as nat);
        let packed = leaves[base + n - 1][1];
        let c1 = s.rows.push(free_row(s.rows.len() as usize));
        let c2 = c1.push(free_row(c1.len() as usize));
        lemma_component_sound(
            c2,
            packed,
            Lin::wire(s.rows.len() as usize),
            Lin::wire((s.rows.len() + 1) as usize),
            z,
        );
        lemma_free_sound(c1, z);
        lemma_free_sound(s.rows, z);
        lemma_splits_sound(c, leaves, base, (n - 1) as nat, z);
        let t = splits(c, leaves, base, n);
        assert forall|i: int| 0 <= i < n implies #[trigger] split_holds(t, leaves, base, i, z) by {
            if i < n - 1 {
                assert(split_holds(s, leaves, base, i, z));
            }
        }
    }
}

proof fn lemma_selected_sound(
    c: Seq<Row>,
    sels: Seq<Lin>,
    values: Seq<Lin>,
    id_digits: Seq<Seq<Lin>>,
    n: nat,
    z: Seq<F128>,
)
    requires
        n <= id_digits.len(),
        sat(selected_rows(c, sels, values, id_digits, n).0, z),
        forall|i: int|
            0 <= i < n ==> (#[trigger] id_digits[i]).len() == 64 && all_bits(id_digits[i], z),
    ensures
        sat(c, z),
        selected_rows(c, sels, values, id_digits, n).1.len() == n,
        forall|i: int|
            0 <= i < n ==> (#[trigger] selected_rows(c, sels, values, id_digits, n).1[i]).eval(z)
                == values[i].eval(z).plus(
                sels[i].eval(z).times(F128::of_nat(pow2(64) * bits_value(id_digits[i], z))),
            ),
    decreases n,
{
    if n > 0 {
        let (c1, out) = selected_rows(c, sels, values, id_digits, (n - 1) as nat);
        lemma_mul_sound(c1, sels[n - 1], weighted(id_digits[n - 1], 64), z);
        lemma_selected_sound(c, sels, values, id_digits, (n - 1) as nat, z);
        assert(id_digits[n - 1].len() == 64 && all_bits(id_digits[n - 1], z));
        lemma_weighted(id_digits[n - 1], 64, z);
        let all = selected_rows(c, sels, values, id_digits, n).1;
        assert forall|i: int| 0 <= i < n implies (#[trigger] all[i]).eval(z) == values[i].eval(
            z,
        ).plus(sels[i].eval(z).times(F128::of_nat(pow2(64) * bits_value(id_digits[i], z)))) by {
            if i < n - 1 {
                assert(all[i] == out[i]);
            }
        }
    }
}

proof fn lemma_selected_prefix(
    c: Seq<Row>,
    sels: Seq<Lin>,
    values: Seq<Lin>,
    id_digits: Seq<Seq<Lin>>,
    n: nat,
    z: Seq<F128>,
)
    requires
        sat(selected_rows(c, sels, values, id_digits, n).0, z),
    ensures
        sat(c, z),
    decreases n,
{
    if n > 0 {
        let (c1, out) = selected_rows(c, sels, values, id_digits, (n - 1) as nat);
        lemma_mul_sound(c1, sels[n - 1], weighted(id_digits[n - 1], 64), z);
        lemma_selected_prefix(c, sels, values, id_digits, (n - 1) as nat, z);
    }
}

/// What the arithmetic of a page binds under `z`.
pub open spec fn page_bound(p: PageInputs, a: PageArithmetic, z: Seq<F128>) -> bool {
    let live = p.tx_live.eval(z);
    let inputs = digits_sum(a.splits.amount_digits, 8, z);
    let outputs = digits_sum(a.output_digits, 2, z);
    let fee = bits_value(a.fee_digits, z);
    &&& splits_hold(a.splits, p.leaves, p.layout.input_base as int, 8, z)
    &&& terms_hold(a.output_digits, z)
    &&& a.output_digits.len() == 2
    &&& p.leaves[p.layout.output_data as int][1].eval(z) == F128::of_nat(
        bits_value(a.output_digits[0], z),
    )
    &&& p.leaves[p.layout.output_data + 2][1].eval(z) == F128::of_nat(
        bits_value(a.output_digits[1], z),
    )
    &&& p.leaves[p.layout.fee as int][0].eval(z) == F128::of_nat(fee)
    &&& p.leaves[p.layout.fee as int][1].eval(z) == F128::zero()
    &&& a.selected_inputs.len() == 8
    &&& forall|i: int|
        0 <= i < 8 ==> (#[trigger] a.selected_inputs[i]).eval(z) == p.input_values[i].eval(z).plus(
            p.selected_inputs[i].eval(z).times(
                F128::of_nat(pow2(64) * bits_value(a.splits.id_digits[i], z)),
            ),
        )
    &&& bits_value(a.input_count_bits, z) == ones(p.selected_inputs, 8, z)
    &&& bits_value(a.output_count_bits, z) == ones(p.selected_outputs, 2, z)
    &&& weighted(a.input_count_bits, 0).eval(z) == F128::of_nat(ones(p.selected_inputs, 8, z))
    &&& weighted(a.output_count_bits, 0).eval(z) == F128::of_nat(
        ones(p.selected_outputs, 2, z),
    )
    &&& a.raw_input_sum.eval(z) == F128::of_nat(inputs)
    &&& a.raw_output_sum.eval(z) == F128::of_nat(outputs)
    &&& a.raw_output_plus_fee.eval(z) == F128::of_nat(outputs + fee)
    &&& a.input_sum.eval(z) == live.times(F128::of_nat(inputs))
    &&& a.output_sum.eval(z) == live.times(F128::of_nat(outputs))
    &&& a.output_plus_fee.eval(z) == live.times(F128::of_nat(outputs + fee))
    &&& a.paid_fee.eval(z) == live.times(F128::of_nat(fee))
}

/// Under every satisfying assignment with boolean selectors, packed inputs are
/// split exactly, counts and sums are integer counts and sums, and a page that
/// is not live contributes zero.
pub proof fn lemma_page_sound(c: Seq<Row>, p: PageInputs, z: Seq<F128>)
    requires
        p.selected_inputs.len() == 8,
        p.selected_outputs.len() == 2,
        all_bits(p.selected_inputs, z),
        all_bits(p.selected_outputs, z),
        sat(page_arithmetic(c, p).rows, z),
    ensures
        sat(c, z),
        page_bound(p, page_arithmetic(c, p), z),
{
    let a = page_arithmetic(c, p);
    let s = a.splits;
    let (c2, output_digits, fee_digits) = output_rows(s.rows, p.leaves, p.layout);
    let (c3, selected) = selected_rows(
        c2,
        p.selected_inputs,
        p.input_values,
        s.id_digits,
        8,
    );
    let (c4, in_bits) = count_rows(c3, p.selected_inputs, 4, 8);
    let (c5, out_bits) = count_rows(c4, p.selected_outputs, 2, 2);
    let (c6, in_sum) = sum_rows(c5, s.amount_digits, 67, 8);
    let (c7, out_sum) = sum_rows(c6, output_digits, 66, 2);
    let (c8, plus_fee) = checked_add_rows(c7, out_sum, widened(fee_digits, 66));
    let (c9, input_sum) = mul_rows(c8, p.tx_live, weighted(in_sum, 0));
    let (c10, output_sum) = mul_rows(c9, p.tx_live, weighted(out_sum, 0));
    let (c11, output_plus_fee) = mul_rows(c10, p.tx_live, weighted(plus_fee, 0));
    let fee_leaf = p.leaves[p.layout.fee as int];
    lemma_mul_sound(c11, p.tx_live, fee_leaf[0], z);
    lemma_mul_sound(c10, p.tx_live, weighted(plus_fee, 0), z);
    lemma_mul_sound(c9, p.tx_live, weighted(out_sum, 0), z);
    lemma_mul_sound(c8, p.tx_live, weighted(in_sum, 0), z);
    lemma_checked_rows_prefix(c7, out_sum, widened(fee_digits, 66), z);
    lemma_sum_prefix(c6, output_digits, 66, 2, z);
    lemma_sum_prefix(c5, s.amount_digits, 67, 8, z);
    lemma_count_sound(c4, p.selected_outputs, 2, 2, z);
    lemma_count_sound(c3, p.selected_inputs, 4, 8, z);
    lemma_selected_prefix(c2, p.selected_inputs, p.input_values, s.id_digits, 8, z);
    let (d1, o0) = range_rows(s.rows, p.leaves[p.layout.output_data as int][1], 64);
    let (d2, o1) = range_rows(d1, p.leaves[p.layout.output_data + 2][1], 64);
    let (d3, _) = range_rows(d2, fee_leaf[0], 64);
    lemma_pin_sound(d3, fee_leaf[1], z);
    lemma_range_sound(d2, fee_leaf[0], 64, z);
    lemma_range_sound(d1, p.leaves[p.layout.output_data + 2][1], 64, z);
    lemma_range_sound(s.rows, p.leaves[p.layout.output_data as int][1], 64, z);
    lemma_splits_sound(c, p.leaves, p.layout.input_base as int, 8, z);
    assert forall|i: int| 0 <= i < 8 implies (#[trigger] s.id_digits[i]).len() == 64 && all_bits(
        s.id_digits[i],
        z,
    ) by {
        assert(split_holds(s, p.leaves, p.layout.input_base as int, i, z));
    }
    assert forall|i: int| 0 <= i < 8 implies (#[trigger] s.amount_digits[i]).len() == 64
        && all_bits(s.amount_digits[i], z) by {
        assert(split_holds(s, p.leaves, p.layout.input_base as int, i, z));
    }
    lemma_selected_sound(c2, p.selected_inputs, p.input_values, s.id_digits, 8, z);
    lemma_sum_sound(c5, s.amount_digits, 67, 8, z);
    assert(terms_hold(output_digits, z));
    lemma_sum_sound(c6, output_digits, 66, 2, z);
    lemma_widened(fee_digits, 66, z);
    lemma_checked_add_sound(c7, out_sum, widened(fee_digits, 66), z);
    lemma_weighted_value(in_sum, z);
    lemma_weighted_value(out_sum, z);
    lemma_weighted_value(plus_fee, z);
    lemma_weighted_value(in_bits, z);
    lemma_weighted_value(out_bits, z);
}

/// A selected row that carries `selected * packed` yields the selected amount.
pub proof fn lemma_selected_amount(sel: F128, amount: nat, id: nat)
    requires
        sel.is_bit(),
        amount < pow2(64),
        id < pow2(64),
    ensures
        sel.times(F128::of_nat(amount + pow2(64) * id)).plus(
            sel.times(F128::of_nat(pow2(64) * id)),
        ) == sel.times(F128::of_nat(amount)),
{
    broadcast use lemma_plus_is_zero;

    lemma_of_nat_pack(amount, id);
}

/// The splits that input traces stand for.
pub open spec fn splits_of(rows: Seq<Row>, inputs: Seq<PackedInputValueTrace>) -> Splits {
    Splits {
        rows,
        amounts: Seq::new(inputs.len(), |i: int| inputs[i].amount.value@),
        amount_digits: Seq::new(inputs.len(), |i: int| inputs[i].amount.digits()),
        ids: Seq::new(inputs.len(), |i: int| inputs[i].creation_id.value@),
        id_digits: Seq::new(inputs.len(), |i: int| inputs[i].creation_id.digits()),
    }
}

/// The value lanes of action rows.
pub open spec fn value_lanes(rows: Seq<ActionRowTrace>) -> Seq<Lin> {
    Seq::new(rows.len(), |i: int| rows[i].value@)
}

/// What a page's arithmetic reads of its body and surface.
pub open spec fn page_inputs(
    spine: SpineInputsTrace,
    layout: BodyLayout,
    surface: ActionSurfaceTrace,
) -> PageInputs {
    PageInputs {
        leaves: pairs(spine.leaves@),
        layout,
        tx_live: surface.tx_live@,
        selected_inputs: lins(surface.selected_inputs@),
        selected_outputs: lins(surface.selected_outputs@),
        input_values: value_lanes(surface.input_rows@),
        output_values: value_lanes(surface.output_rows@),
    }
}

/// The arithmetic that a trace stands for.
pub open spec fn trace_matches(t: UserPublicArithmeticTrace, p: PageInputs, a: PageArithmetic) -> bool {
    &&& t.tx_live@ == p.tx_live
    &&& lins(t.selected_input_live@) == p.selected_inputs
    &&& lins(t.selected_output_live@) == p.selected_outputs
    &&& lins(t.live_input_count_bits@) == a.input_count_bits
    &&& lins(t.live_output_count_bits@) == a.output_count_bits
    &&& t.live_input_count@ == weighted(a.input_count_bits, 0)
    &&& t.live_output_count@ == weighted(a.output_count_bits, 0)
    &&& splits_of(a.splits.rows, t.inputs@) == a.splits
    &&& all_digits(t.outputs@) == a.output_digits
    &&& t.outputs@.len() == 2
    &&& t.outputs@[0].value@ == p.leaves[p.layout.output_data as int][1]
    &&& t.outputs@[1].value@ == p.leaves[p.layout.output_data + 2][1]
    &&& t.fee.value@ == p.leaves[p.layout.fee as int][0]
    &&& t.fee.digits() == a.fee_digits
    &&& lins(t.selected_inputs@) == a.selected_inputs
    &&& lins(t.selected_outputs@) == p.output_values
    &&& t.paid_fee@ == a.paid_fee
    &&& t.raw_input_sum@ == a.raw_input_sum
    &&& t.raw_output_sum@ == a.raw_output_sum
    &&& t.raw_output_plus_fee@ == a.raw_output_plus_fee
    &&& t.input_sum@ == a.input_sum
    &&& t.output_sum@ == a.output_sum
    &&& t.output_plus_fee@ == a.output_plus_fee
}

/// Splits every input position of a page.
fn split_inputs(b: &mut FieldR1csBuilder, spine: &SpineInputsTrace, base: usize) -> (inputs: Vec<
    PackedInputValueTrace,
>)
    requires
        old(b)@.wf(),
        base + 8 <= spine.leaves@.len(),
        rows_shaped(pairs(spine.leaves@), 2, old(b)@.rows.len()),
    ensures
        inputs@.len() == 8,
        splits_of(final(b)@.rows, inputs@) == splits(
            old(b)@.rows,
            pairs(spine.leaves@),
            base as int,
            8,
        ),
        final(b)@.grows(old(b)@),
        final(b)@.honest() <==> old(b)@.honest(),
        forall|i: int|
            0 <= i < 8 ==> (#[trigger] inputs@[i]).below(final(b)@.rows.len()),
{
    let ghost leaves = pairs(spine.leaves@);
    let count: usize = spine.leaves.len();
    let mut inputs: Vec<PackedInputValueTrace> = Vec::with_capacity(INPUT_SELECTORS);
    let mut i: usize = 0;
    proof {
        let s = splits_of(b@.rows, inputs@);
        assert(s.amounts =~= Seq::empty() && s.ids =~= Seq::empty() && s.amount_digits
            =~= Seq::empty() && s.id_digits =~= Seq::empty());
    }
    while i < INPUT_SELECTORS
        invariant
            i <= 8,
            base + 8 <= count,
            count == spine.leaves@.len(),
            leaves == pairs(spine.leaves@),
            rows_shaped(leaves, 2, old(b)@.rows.len()),
            inputs@.len() == i,
            splits_of(b@.rows, inputs@) == splits(old(b)@.rows, leaves, base as int, i as nat),
            b@.grows(old(b)@),
            b@.honest() <==> old(b)@.honest(),
            forall|j: int| 0 <= j < i ==> (#[trigger] inputs@[j]).below(b@.rows.len()),
        decreases 8 - i,
    {
        let ghost start = b@;
        let ghost prior = inputs@;
        proof {
            assert(leaves[base + i] == pair(spine.leaves@[base + i]));
            assert(all_below(leaves[base + i], old(b)@.rows.len()));
            assert(leaves[base + i][1].below(old(b)@.rows.len()));
        }
        let input = split_packed_input_value(b, &spine.leaves[base + i][1]);
        inputs.push(input);
        proof {
            let s = splits(old(b)@.rows, leaves, base as int, i as nat);
            let t = splits(old(b)@.rows, leaves, base as int, (i + 1) as nat);
            let o = splits_of(b@.rows, inputs@);
            let q = splits_of(start.rows, prior);
            assert(base + (i + 1) - 1 == base + i);
            assert(o.amounts =~= q.amounts.push(input.amount.value@));
            assert(o.amount_digits =~= q.amount_digits.push(input.amount.digits()));
            assert(o.ids =~= q.ids.push(input.creation_id.value@));
            assert(o.id_digits =~= q.id_digits.push(input.creation_id.digits()));
            assert(o == t);
            assert forall|j: int| 0 <= j <= i implies (#[trigger] inputs@[j]).below(
                b@.rows.len(),
            ) by {
                if j < i {
                    assert(inputs@[j] == prior[j]);
                    lemma_input_below(start, b@, prior[j]);
                }
            }
        }
        i += 1;
    }
    inputs
}

proof fn lemma_input_below(old: Circuit, new: Circuit, input: PackedInputValueTrace)
    requires
        new.grows(old),
        input.below(old.rows.len()),
    ensures
        input.below(new.rows.len()),
{
    lemma_bits_stable(old, new, input.amount.digits());
    lemma_bits_stable(old, new, input.creation_id.digits());
}

/// The selected amounts of every input position.
fn select_inputs(
    b: &mut FieldR1csBuilder,
    surface: &ActionSurfaceTrace,
    inputs: &Vec<PackedInputValueTrace>,
) -> (out: Vec<LinExpr>)
    requires
        old(b)@.wf(),
        inputs@.len() == 8,
        surface.selected_inputs@.len() == 8,
        surface.input_rows@.len() == 8,
        all_below(lins(surface.selected_inputs@), old(b)@.rows.len()),
        all_below(value_lanes(surface.input_rows@), old(b)@.rows.len()),
        forall|i: int| 0 <= i < 8 ==> (#[trigger] inputs@[i]).below(old(b)@.rows.len()),
    ensures
        out@.len() == 8,
        (final(b)@.rows, lins(out@)) == selected_rows(
            old(b)@.rows,
            lins(surface.selected_inputs@),
            value_lanes(surface.input_rows@),
            splits_of(old(b)@.rows, inputs@).id_digits,
            8,
        ),
        final(b)@.grows(old(b)@),
        final(b)@.honest() <==> old(b)@.honest(),
{
    let ghost sl = lins(surface.selected_inputs@);
    let ghost vl = value_lanes(surface.input_rows@);
    let ghost ids = splits_of(old(b)@.rows, inputs@).id_digits;
    let mut out: Vec<LinExpr> = Vec::with_capacity(INPUT_SELECTORS);
    let mut i: usize = 0;
    assert(lins(out@) =~= Seq::empty());
    while i < INPUT_SELECTORS
        invariant
            i <= 8,
            inputs@.len() == 8,
            surface.selected_inputs@.len() == 8,
            surface.input_rows@.len() == 8,
            sl == lins(surface.selected_inputs@),
            vl == value_lanes(surface.input_rows@),
            ids == splits_of(old(b)@.rows, inputs@).id_digits,
            all_below(sl, old(b)@.rows.len()),
            all_below(vl, old(b)@.rows.len()),
            forall|j: int| 0 <= j < 8 ==> (#[trigger] inputs@[j]).below(old(b)@.rows.len()),
            out@.len() == i,
            (b@.rows, lins(out@)) == selected_rows(old(b)@.rows, sl, vl, ids, i as nat),
            b@.grows(old(b)@),
            b@.honest() <==> old(b)@.honest(),
        decreases 8 - i,
    {
        let ghost prior = out@;
        proof {
            assert(sl[i as int].below(old(b)@.rows.len()) && vl[i as int].below(
                old(b)@.rows.len(),
            ));
            assert(inputs@[i as int].below(old(b)@.rows.len()));
            assert(ids[i as int] == inputs@[i as int].creation_id.digits());
            lemma_weighted_below(ids[i as int], 64, old(b)@.rows.len());
        }
        let id_exprs = wire_exprs(&inputs[i].creation_id.bits);
        let high = weighted_sum(&id_exprs, U64_BITS);
        let selected_high = crate::circuit::mul(b, &surface.selected_inputs[i], &high);
        let amount = surface.input_rows[i].value.add(&selected_high);
        out.push(amount);
        assert(lins(out@) =~= lins(prior).push(amount@));
        i += 1;
    }
    out
}

fn dup_all(s: &Vec<LinExpr>) -> (r: Vec<LinExpr>)
    ensures
        lins(r@) == lins(s@),
{
    let mut r: Vec<LinExpr> = Vec::with_capacity(s.len());
    let mut i: usize = 0;
    while i < s.len()
        invariant
            i <= s@.len(),
            r@.len() == i,
            forall|j: int| 0 <= j < i ==> (#[trigger] r@[j])@ == s@[j]@,
        decreases s@.len() - i,
    {
        r.push(s[i].dup());
        i += 1;
    }
    assert(lins(r@) =~= lins(s@));
    r
}

proof fn lemma_ones_bound(sels: Seq<Lin>, n: nat, z: Seq<F128>)
    ensures
        ones(sels, n, z) <= n,
    decreases n,
{
    if n > 0 {
        lemma_ones_bound(sels, (n - 1) as nat, z);
    }
}

proof fn lemma_digits_sum_bound(terms: Seq<Seq<Lin>>, n: nat, z: Seq<F128>)
    requires
        n <= terms.len(),
        terms_hold(terms, z),
    ensures
        digits_sum(terms, n, z) <= n * pow2(64),
        n > 0 ==> digits_sum(terms, n, z) < n * pow2(64),
    decreases n,
{
    assert(0 * pow2(64) == 0) by (nonlinear_arith);
    if n > 0 {
        lemma_digits_sum_bound(terms, (n - 1) as nat, z);
        assert(terms[n - 1].len() == 64);
        lemma_bits_nat_bound(bools(terms[n - 1], z));
        assert((n - 1) * pow2(64) + pow2(64) == n * pow2(64)) by (nonlinear_arith);
    }
}

/// Binds the ranges, splits, counts and sums of one page to its body and
/// action surface.
///
/// See [`lemma_page_sound`] for what the constraints bind.
pub fn bind_user_public_arithmetic(
    b: &mut FieldR1csBuilder,
    spine: &SpineInputsTrace,
    layout: BodyLayout,
    surface: &ActionSurfaceTrace,
) -> (r: UserPublicArithmeticTrace)
    requires
        old(b)@.wf(),
        spine.leaves@.len() == 16,
        layout.fits(),
        surface.selected_inputs@.len() == 8,
        surface.selected_outputs@.len() == 2,
        surface.input_rows@.len() == 8,
        surface.output_rows@.len() == 2,
        rows_shaped(pairs(spine.leaves@), 2, old(b)@.rows.len()),
        surface.tx_live@.below(old(b)@.rows.len()),
        all_below(lins(surface.selected_inputs@), old(b)@.rows.len()),
        all_below(lins(surface.selected_outputs@), old(b)@.rows.len()),
        all_below(value_lanes(surface.input_rows@), old(b)@.rows.len()),
        all_below(value_lanes(surface.output_rows@), old(b)@.rows.len()),
    ensures
        ({
            let p = page_inputs(*spine, layout, *surface);
            let a = page_arithmetic(old(b)@.rows, p);
            let z = old(b)@.values;
            &&& final(b)@.rows == a.rows
            &&& trace_matches(r, p, a)
            &&& all_bits(p.selected_inputs, z) && all_bits(p.selected_outputs, z) ==> {
                final(b)@.honest() <==> {
                    &&& old(b)@.honest()
                    &&& p.leaves[layout.output_data as int][1].eval(z).bits < pow2(64)
                    &&& p.leaves[layout.output_data + 2][1].eval(z).bits < pow2(64)
                    &&& p.leaves[layout.fee as int][0].eval(z).bits < pow2(64)
                    &&& p.leaves[layout.fee as int][1].eval(z) == F128::zero()
                }
            }
        }),
        final(b)@.grows(old(b)@),
{
    let ghost p = page_inputs(*spine, layout, *surface);
    let ghost leaves = p.leaves;
    let ghost b0 = old(b)@;
    let ghost n0 = b0.rows.len();
    let ghost z0 = b0.values;
    let od: usize = layout.output_data;
    proof {
        assert(leaves[od as int] == pair(spine.leaves@[od as int]) && leaves[od + 2] == pair(
            spine.leaves@[od + 2],
        ) && leaves[layout.fee as int] == pair(spine.leaves@[layout.fee as int]));
        assert(all_below(leaves[od as int], n0) && all_below(leaves[od + 2], n0) && all_below(
            leaves[layout.fee as int],
            n0,
        ));
        assert(leaves[od as int][1].below(n0) && leaves[od + 2][1].below(n0)
            && leaves[layout.fee as int][0].below(n0) && leaves[layout.fee as int][1].below(n0));
    }
    let inputs = split_inputs(b, spine, layout.input_base);
    let ghost b1 = b@;
    let output0 = bind_u64(b, &spine.leaves[od][1]);
    let ghost b1a = b@;
    let output1 = bind_u64(b, &spine.leaves[od + 2][1]);
    let ghost b1b = b@;
    let fee = bind_u64(b, &spine.leaves[layout.fee][0]);
    let ghost b1c = b@;
    pin_zero(b, &spine.leaves[layout.fee][1]);
    let ghost b2 = b@;
    proof {
        lemma_bits_stable(b1a, b2, output0.digits());
        lemma_bits_stable(b1b, b2, output1.digits());
        lemma_bits_stable(b1c, b2, fee.digits());
        lemma_bits_stable(b0, b2, p.selected_inputs);
        lemma_bits_stable(b0, b2, p.selected_outputs);
        lemma_bits_stable(b0, b2, p.input_values);
        assert forall|i: int| 0 <= i < 8 implies (#[trigger] inputs@[i]).below(b2.rows.len()) by {
            lemma_input_below(b1, b2, inputs@[i]);
        }
        assert(splits_of(b1.rows, inputs@).id_digits == splits_of(b2.rows, inputs@).id_digits);
    }
    let selected_inputs = select_inputs(b, surface, &inputs);
    let ghost b3 = b@;
    let mut selected_outputs: Vec<LinExpr> = Vec::with_capacity(OUTPUT_SELECTORS);
    selected_outputs.push(surface.output_rows[0].value.dup());
    selected_outputs.push(surface.output_rows[1].value.dup());
    assert(lins(selected_outputs@) =~= p.output_values);
    proof {
        lemma_bits_stable(b2, b3, p.selected_inputs);
        lemma_bits_stable(b2, b3, p.selected_outputs);
    }
    let live_input_count_bits = selector_count_bits(b, &surface.selected_inputs, 4);
    let ghost b4 = b@;
    proof {
        lemma_bits_stable(b3, b4, p.selected_outputs);
    }
    let live_output_count_bits = selector_count_bits(b, &surface.selected_outputs, 2);
    let ghost b5 = b@;
    let live_input_count = weighted_sum(&live_input_count_bits, 0);
    let live_output_count = weighted_sum(&live_output_count_bits, 0);

    let mut amounts: Vec<U64Trace> = Vec::with_capacity(INPUT_SELECTORS);
    let mut i: usize = 0;
    while i < INPUT_SELECTORS
        invariant
            i <= 8,
            inputs@.len() == 8,
            amounts@.len() == i,
            forall|j: int|
                0 <= j < i ==> (#[trigger] amounts@[j]).digits() == inputs@[j].amount.digits(),
        decreases 8 - i,
    {
        amounts.push(inputs[i].amount.dup());
        i += 1;
    }
    let mut outputs: Vec<U64Trace> = Vec::with_capacity(OUTPUT_SELECTORS);
    outputs.push(output0);
    outputs.push(output1);
    let ghost ad = all_digits(amounts@);
    let ghost odg = all_digits(outputs@);
    proof {
        assert(ad =~= splits_of(b1.rows, inputs@).amount_digits);
        assert(odg =~= seq![output0.digits(), output1.digits()]);
        assert forall|j: int| 0 <= j < 8 implies (#[trigger] ad[j]).len() == 64 && all_below(
            ad[j],
            b5.rows.len(),
        ) by {
            assert(inputs@[j].below(b2.rows.len()));
            lemma_bits_stable(b2, b5, inputs@[j].amount.digits());
        }
        lemma_bits_stable(b2, b5, output0.digits());
        lemma_bits_stable(b2, b5, output1.digits());
        lemma_bits_stable(b2, b5, fee.digits());
    }
    let (_, raw_input_sum) = checked_sum_u64(b, &amounts, INPUT_SUM_BITS);
    let ghost b6 = b@;
    proof {
        lemma_bits_stable(b5, b6, output0.digits());
        lemma_bits_stable(b5, b6, output1.digits());
        assert(rows_shaped(odg, 64, b6.rows.len()));
    }
    let (output_bits, raw_output_sum) = checked_sum_u64(b, &outputs, OUTPUT_PLUS_FEE_BITS);
    let ghost b7 = b@;
    let fee_bits = widen_u64_bits(&fee, OUTPUT_PLUS_FEE_BITS);
    proof {
        lemma_bits_stable(b5, b7, fee.digits());
        lemma_widened_below(fee.digits(), 66, b7.rows.len());
    }
    let plus_fee_bits = checked_add_bits(b, &output_bits, &fee_bits);
    let ghost b8 = b@;
    let raw_output_plus_fee = weighted_sum(&plus_fee_bits, 0);
    proof {
        lemma_weighted_below(lins(plus_fee_bits@), 0, b8.rows.len());
    }
    let input_sum = crate::circuit::mul(b, &surface.tx_live, &raw_input_sum);
    let ghost b9 = b@;
    let output_sum = crate::circuit::mul(b, &surface.tx_live, &raw_output_sum);
    let ghost b10 = b@;
    let output_plus_fee = crate::circuit::mul(b, &surface.tx_live, &raw_output_plus_fee);
    let ghost b11 = b@;
    let paid_fee = crate::circuit::mul(b, &surface.tx_live, &fee.value);
    proof {
        if all_bits(p.selected_inputs, z0) && all_bits(p.selected_outputs, z0) {
            lemma_page_honest(
                p,
                (b0, b1, b2, b3, b4, b5, b6, b7, b8),
                ad,
                odg,
                fee.digits(),
                lins(output_bits@),
                lins(fee_bits@),
            );
        }
    }
    UserPublicArithmeticTrace {
        tx_live: surface.tx_live.dup(),
        selected_input_live: dup_all(&surface.selected_inputs),
        selected_output_live: dup_all(&surface.selected_outputs),
        live_input_count_bits,
        live_output_count_bits,
        live_input_count,
        live_output_count,
        inputs,
        outputs,
        fee,
        selected_inputs,
        selected_outputs,
        paid_fee,
        raw_input_sum,
        raw_output_sum,
        raw_output_plus_fee,
        input_sum,
        output_sum,
        output_plus_fee,
    }
}

/// Counts and sums of a page always fit their widths.
proof fn lemma_page_honest(
    p: PageInputs,
    bs: (Circuit, Circuit, Circuit, Circuit, Circuit, Circuit, Circuit, Circuit, Circuit),
    ad: Seq<Seq<Lin>>,
    od: Seq<Seq<Lin>>,
    fd: Seq<Lin>,
    out_bits: Seq<Lin>,
    fee_bits: Seq<Lin>,
)
    requires
        bs.1.grows(bs.0),
        bs.2.grows(bs.1),
        bs.3.grows(bs.2),
        bs.4.grows(bs.3),
        bs.5.grows(bs.4),
        bs.6.grows(bs.5),
        bs.7.grows(bs.6),
        bs.8.grows(bs.7),
        p.selected_inputs.len() == 8,
        p.selected_outputs.len() == 2,
        all_below(p.selected_inputs, bs.0.rows.len()),
        all_below(p.selected_outputs, bs.0.rows.len()),
        all_bits(p.selected_inputs, bs.0.values),
        all_bits(p.selected_outputs, bs.0.values),
        ad.len() == 8,
        od.len() == 2,
        splits(bs.0.rows, p.leaves, p.layout.input_base as int, 8).rows == bs.1.rows,
        splits(bs.0.rows, p.leaves, p.layout.input_base as int, 8).amount_digits == ad,
        (bs.2.rows, od, fd) == output_rows(bs.1.rows, p.leaves, p.layout),
        (bs.7.rows, out_bits) == sum_rows(bs.6.rows, od, 66, 2),
        fee_bits == widened(fd, 66),
        rows_shaped(ad, 64, bs.5.rows.len()),
        rows_shaped(od, 64, bs.6.rows.len()),
        bs.3.honest() <==> bs.2.honest(),
        all_bits(p.selected_inputs, bs.3.values) ==> (bs.4.honest() <==> bs.3.honest() && ones(
            p.selected_inputs,
            8,
            bs.3.values,
        ) < pow2(4)),
        all_bits(p.selected_outputs, bs.4.values) ==> (bs.5.honest() <==> bs.4.honest() && ones(
            p.selected_outputs,
            2,
            bs.4.values,
        ) < pow2(2)),
        terms_hold(ad, bs.5.values) ==> (bs.6.honest() <==> bs.5.honest() && digits_sum(
            ad,
            8,
            bs.5.values,
        ) < pow2(67)),
        terms_hold(od, bs.6.values) ==> (bs.7.honest() <==> bs.6.honest() && digits_sum(
            od,
            2,
            bs.6.values,
        ) < pow2(66)),
        all_bits(out_bits, bs.7.values) && all_bits(fee_bits, bs.7.values) ==> (bs.8.honest()
            <==> bs.7.honest() && bits_value(out_bits, bs.7.values) + bits_value(
            fee_bits,
            bs.7.values,
        ) < pow2(66)),
    ensures
        bs.8.honest() <==> bs.2.honest(),
{
    let (b0, b1, b2, b3, b4, b5, b6, b7, b8) = bs;
    lemma_bits_stable(b0, b3, p.selected_inputs);
    lemma_bits_stable(b0, b4, p.selected_outputs);
    lemma_ones_bound(p.selected_inputs, 8, b3.values);
    lemma_ones_bound(p.selected_outputs, 2, b4.values);
    vstd::arithmetic::power2::lemma2_to64();
    vstd::arithmetic::power2::lemma2_to64_rest();
    lemma_pow2_unfold(65);
    lemma_pow2_unfold(66);
    lemma_pow2_unfold(67);
    if b2.honest() {
        assert(b5.honest());
        crate::circuit::lemma_sat_stable(b2.rows, b2.values, b5.values);
        let leaf = p.leaves[p.layout.fee as int];
        let (d1, o0) = range_rows(b1.rows, p.leaves[p.layout.output_data as int][1], 64);
        let (d2, o1) = range_rows(d1, p.leaves[p.layout.output_data + 2][1], 64);
        let (d3, f) = range_rows(d2, leaf[0], 64);
        lemma_pin_sound(d3, leaf[1], b5.values);
        lemma_range_sound(d2, leaf[0], 64, b5.values);
        lemma_range_sound(d1, p.leaves[p.layout.output_data + 2][1], 64, b5.values);
        lemma_range_sound(b1.rows, p.leaves[p.layout.output_data as int][1], 64, b5.values);
        lemma_splits_sound(b0.rows, p.leaves, p.layout.input_base as int, 8, b5.values);
        let s = splits(b0.rows, p.leaves, p.layout.input_base as int, 8);
        assert forall|j: int| 0 <= j < 8 implies (#[trigger] ad[j]).len() == 64 && all_bits(
            ad[j],
            b5.values,
        ) by {
            assert(split_holds(s, p.leaves, p.layout.input_base as int, j, b5.values));
        }
        lemma_digits_sum_bound(ad, 8, b5.values);
        assert(b6.honest());
        crate::circuit::lemma_sat_stable(b2.rows, b2.values, b6.values);
        lemma_pin_sound(d3, leaf[1], b6.values);
        lemma_range_sound(d2, leaf[0], 64, b6.values);
        lemma_range_sound(d1, p.leaves[p.layout.output_data + 2][1], 64, b6.values);
        lemma_range_sound(b1.rows, p.leaves[p.layout.output_data as int][1], 64, b6.values);
        assert(terms_hold(od, b6.values));
        lemma_digits_sum_bound(od, 2, b6.values);
        assert(b7.honest());
        crate::circuit::lemma_sat_stable(b2.rows, b2.values, b7.values);
        lemma_pin_sound(d3, leaf[1], b7.values);
        lemma_range_sound(d2, leaf[0], 64, b7.values);
        lemma_range_sound(d1, p.leaves[p.layout.output_data + 2][1], 64, b7.values);
        lemma_range_sound(b1.rows, p.leaves[p.layout.output_data as int][1], 64, b7.values);
        assert(terms_hold(od, b7.values));
        lemma_sum_sound(b6.rows, od, 66, 2, b7.values);
        lemma_digits_sum_bound(od, 2, b7.values);
        lemma_widened(fd, 66, b7.values);
        lemma_bits_nat_bound(bools(fd, b7.values));
    } else {
        if b8.honest() {
            lemma_grows_honest(b2, b8);
        }
    }
}

} // verus!
