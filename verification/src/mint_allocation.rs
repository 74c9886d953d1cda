//! Creation ids of mints, in body order.

use vstd::prelude::*;
use vstd::arithmetic::power2::{lemma_pow2_adds, lemma_pow2_unfold, pow2};
use crate::action_surface::{action_rows, ActionRowTrace};
use crate::bits::{
    all_bits, bit_int, bits_value, increment_bits, increment_rows, lemma_bits_nat_bound,
    lemma_bits_stable, lemma_increment_prefix, lemma_increment_sound, lemma_of_nat_top,
    lemma_pow2_128, lemma_pow2_bound, lemma_range_sound, lemma_top_digit, lemma_weighted,
    lemma_weighted_below, lemma_weighted_value, range_check_bits, range_rows, weight, weighted,
    weighted_sum, wire_exprs, wire_lins,
};
use crate::circuit::{
    all_below, gate_rows, group_circuit, lemma_gate_sound, lemma_grows_honest, lemma_mul_sound,
    lemma_pin_sound, lins, mul_rows, pin_eq, pin_product, pin_rows, pin_zero, sat, Circuit,
    FieldR1csBuilder, Lin, LinExpr, Row,
};
use crate::field::{lemma_plus_is_zero, F128};
use crate::permutation_network::rows_shaped;

verus! {

broadcast use group_circuit;

/// The coinbase creation id, shifted to the upper half: bit 63 set above the
/// low 63 digits of the height.
pub open spec fn coinbase_high(height_bits: Seq<Lin>) -> Lin {
    weighted(height_bits.take(63), 64).plus_const(F128::of_nat(pow2(127)))
}

/// The allocator over the first `n` actions: the rows, the packed values and
/// the counter digits after them.
pub open spec fn allocate_rows(
    c: Seq<Row>,
    acts: Seq<Seq<Lin>>,
    counter: Seq<Lin>,
    coinbase: Lin,
    n: nat,
) -> (Seq<Row>, Seq<Lin>, Seq<Lin>)
    decreases n,
{
    if n == 0 {
        (c, Seq::empty(), counter)
    } else {
        let (c1, values, bits) = allocate_rows(c, acts, counter, coinbase, (n - 1) as nat);
        let mint = acts[n - 1][5];
        let (c2, next, carry) = increment_rows(c1, bits, mint, bits.len());
        let c3 = pin_rows(c2, carry);
        let c4 = gate_rows(c3, mint, next[63]);
        let id = if n == 1 {
            coinbase
        } else {
            weighted(next, 64)
        };
        let (c5, selected) = mul_rows(c4, mint, id);
        (c5, values.push(acts[n - 1][2].plus(selected)), next)
    }
}

/// The rows that pack creation ids, and the packed values.
pub open spec fn mint_rows(
    c: Seq<Row>,
    acts: Seq<Seq<Lin>>,
    parent: Lin,
    child: Lin,
    height: Lin,
) -> (Seq<Row>, Seq<Lin>) {
    let (c1, parent_bits) = range_rows(c, parent, 64);
    let (c2, height_bits) = range_rows(c1, height, 64);
    let (c3, values, counter) = allocate_rows(
        c2,
        acts,
        parent_bits,
        coinbase_high(height_bits),
        acts.len(),
    );
    (pin_rows(c3, weighted(counter, 0).plus(child)), values)
}

/// The number of mints among the first `n` actions.
pub open spec fn mint_count(acts: Seq<Seq<Lin>>, n: nat, z: Seq<F128>) -> nat
    decreases n,
{
    if n == 0 {
        0
    } else {
        mint_count(acts, (n - 1) as nat, z) + if acts[n - 1][5].eval(z) == F128::one() {
            1nat
        } else {
            0
        }
    }
}

/// The creation id of action `i` if it mints: the coinbase is the first one
/// and carries the tagged height, every other one the incremented allocator.
pub open spec fn creation_id(
    acts: Seq<Seq<Lin>>,
    parent: nat,
    height: nat,
    i: int,
    z: Seq<F128>,
) -> nat {
    if i == 0 {
        pow2(63) + height % pow2(63)
    } else {
        parent + mint_count(acts, (i + 1) as nat, z)
    }
}

/// The packed value of action `i`: a mint carries its creation id in the upper
/// half.
pub open spec fn packed_value(
    acts: Seq<Seq<Lin>>,
    parent: nat,
    height: nat,
    i: int,
    z: Seq<F128>,
) -> F128 {
    if acts[i][5].eval(z) == F128::one() {
        acts[i][2].eval(z).plus(
            F128::of_nat(pow2(64) * creation_id(acts, parent, height, i, z)),
        )
    } else {
        acts[i][2].eval(z)
    }
}

/// Every mint's allocator id stays below the tagged namespace.
pub open spec fn ids_fit(acts: Seq<Seq<Lin>>, parent: nat, n: nat, z: Seq<F128>) -> bool {
    forall|i: int|
        0 <= i < n && (#[trigger] acts[i])[5].eval(z) == F128::one() ==> parent + mint_count(
            acts,
            (i + 1) as nat,
            z,
        ) < pow2(63)
}

/// Every mint selector is zero or one.
pub open spec fn mints_are_bits(acts: Seq<Seq<Lin>>, z: Seq<F128>) -> bool {
    forall|i: int| 0 <= i < acts.len() ==> (#[trigger] acts[i])[5].eval(z).is_bit()
}

/// The coinbase id expression is the tagged height.
proof fn lemma_coinbase_high(height_bits: Seq<Lin>, z: Seq<F128>)
    requires
        height_bits.len() == 64,
        all_bits(height_bits, z),
    ensures
        coinbase_high(height_bits).eval(z) == F128::of_nat(
            pow2(64) * (pow2(63) + bits_value(height_bits, z) % pow2(63)),
        ),
{
    lemma_top_digit(height_bits, 63, z);
    let low = height_bits.take(63);
    lemma_weighted(low, 64, z);
    let v = bits_value(low, z);
    lemma_of_nat_top(pow2(64) * v, 127);
    lemma_pow2_adds(64, 63);
    assert(pow2(64) * (pow2(63) + v) == pow2(64) * v + pow2(64) * pow2(63)) by (nonlinear_arith);
}

/// One increment of the allocator.
proof fn lemma_allocate_step(
    c: Seq<Row>,
    bits: Seq<Lin>,
    mint: Lin,
    z: Seq<F128>,
)
    requires
        bits.len() == 64,
        all_bits(bits, z),
        mint.eval(z).is_bit(),
        sat(increment_rows(c, bits, mint, 64).0, z),
    ensures
        ({
            let (_, next, carry) = increment_rows(c, bits, mint, 64);
            let sum = bits_value(bits, z) + bit_int(mint.eval(z));
            &&& next.len() == 64
            &&& all_bits(next, z)
            &&& carry.eval(z) == F128::zero() <==> sum < pow2(64)
            &&& carry.eval(z) == F128::zero() ==> bits_value(next, z) == sum
            &&& next[63].eval(z).is_bit()
            &&& carry.eval(z) == F128::zero() ==> (next[63].eval(z) == F128::zero() <==> sum
                < pow2(63))
        }),
{
    let (_, next, carry) = increment_rows(c, bits, mint, 64);
    lemma_increment_sound(c, bits, mint, 64, z);
    assert(bits.take(64) =~= bits);
    lemma_top_digit(next, 63, z);
    let p = pow2(64);
    assert(1 * p == p && 0 * p == 0) by (nonlinear_arith);
}

proof fn lemma_allocate_sound(
    c: Seq<Row>,
    acts: Seq<Seq<Lin>>,
    counter: Seq<Lin>,
    coinbase: Lin,
    parent: nat,
    height: nat,
    n: nat,
    z: Seq<F128>,
)
    requires
        n <= acts.len(),
        counter.len() == 64,
        all_bits(counter, z),
        bits_value(counter, z) == parent,
        mints_are_bits(acts, z),
        coinbase.eval(z) == F128::of_nat(pow2(64) * (pow2(63) + height % pow2(63))),
        sat(allocate_rows(c, acts, counter, coinbase, n).0, z),
    ensures
        sat(c, z),
        ({
            let (_, values, bits) = allocate_rows(c, acts, counter, coinbase, n);
            &&& values.len() == n
            &&& bits.len() == 64
            &&& all_bits(bits, z)
            &&& bits_value(bits, z) == parent + mint_count(acts, n, z)
            &&& ids_fit(acts, parent, n, z)
            &&& forall|i: int|
                0 <= i < n ==> (#[trigger] values[i]).eval(z) == packed_value(
                    acts,
                    parent,
                    height,
                    i,
                    z,
                )
        }),
    decreases n,
{
    if n > 0 {
        let (c1, values, bits) = allocate_rows(c, acts, counter, coinbase, (n - 1) as nat);
        let mint = acts[n - 1][5];
        let (c2, next, carry) = increment_rows(c1, bits, mint, bits.len());
        let c3 = pin_rows(c2, carry);
        let c4 = gate_rows(c3, mint, next[63]);
        let id = if n == 1 {
            coinbase
        } else {
            weighted(next, 64)
        };
        let (c5, selected) = mul_rows(c4, mint, id);
        lemma_mul_sound(c4, mint, id, z);
        lemma_gate_sound(c3, mint, next[63], z);
        lemma_pin_sound(c2, carry, z);
        lemma_increment_prefix(c1, bits, mint, bits.len(), z);
        lemma_allocate_sound(c, acts, counter, coinbase, parent, height, (n - 1) as nat, z);
        assert(acts[n - 1][5].eval(z).is_bit());
        lemma_allocate_step(c1, bits, mint, z);
        lemma_weighted(next, 64, z);
        assert forall|i: int|
            0 <= i < n && (#[trigger] acts[i])[5].eval(z) == F128::one() implies parent
            + mint_count(acts, (i + 1) as nat, z) < pow2(63) by {
            if i < n - 1 {
                assert(acts[i][5].eval(z) == F128::one());
            }
        }
        let all = values.push(acts[n - 1][2].plus(selected));
        assert forall|i: int| 0 <= i < n implies (#[trigger] all[i]).eval(z) == packed_value(
            acts,
            parent,
            height,
            i,
            z,
        ) by {
            if i < n - 1 {
                assert(all[i] == values[i]);
            }
        }
    }
}

/// Under every satisfying assignment the mints take consecutive allocator ids
/// in body order, the first action carries the tagged height instead, no id
/// enters the tagged namespace, and the child counter is the parent counter
/// plus the number of mints.
pub proof fn lemma_mint_sound(
    c: Seq<Row>,
    acts: Seq<Seq<Lin>>,
    parent: Lin,
    child: Lin,
    height: Lin,
    z: Seq<F128>,
)
    requires
        mints_are_bits(acts, z),
        sat(mint_rows(c, acts, parent, child, height).0, z),
    ensures
        sat(c, z),
        ({
            let p = parent.eval(z).bits as nat;
            let h = height.eval(z).bits as nat;
            let values = mint_rows(c, acts, parent, child, height).1;
            &&& p < pow2(64)
            &&& h < pow2(64)
            &&& values.len() == acts.len()
            &&& ids_fit(acts, p, acts.len(), z)
            &&& p + mint_count(acts, acts.len(), z) < pow2(64)
            &&& child.eval(z) == F128::of_nat(p + mint_count(acts, acts.len(), z))
            &&& forall|i: int|
                0 <= i < acts.len() ==> (#[trigger] values[i]).eval(z) == packed_value(
                    acts,
                    p,
                    h,
                    i,
                    z,
                )
        }),
{
    broadcast use lemma_plus_is_zero;

    let (c1, parent_bits) = range_rows(c, parent, 64);
    let (c2, height_bits) = range_rows(c1, height, 64);
    let coinbase = coinbase_high(height_bits);
    let (c3, values, counter) = allocate_rows(c2, acts, parent_bits, coinbase, acts.len());
    lemma_pin_sound(c3, weighted(counter, 0).plus(child), z);
    lemma_allocate_prefix(c2, acts, parent_bits, coinbase, acts.len(), z);
    lemma_range_sound(c1, height, 64, z);
    lemma_range_sound(c, parent, 64, z);
    lemma_coinbase_high(height_bits, z);
    let p = bits_value(parent_bits, z);
    let h = bits_value(height_bits, z);
    lemma_allocate_sound(c2, acts, parent_bits, coinbase, p, h, acts.len(), z);
    lemma_weighted_value(counter, z);
    lemma_pow2_bound(64, 128);
    lemma_pow2_128();
    assert(parent.eval(z).bits == p);
    assert(height.eval(z).bits == h);
}

proof fn lemma_allocate_prefix(
    c: Seq<Row>,
    acts: Seq<Seq<Lin>>,
    counter: Seq<Lin>,
    coinbase: Lin,
    n: nat,
    z: Seq<F128>,
)
    requires
        sat(allocate_rows(c, acts, counter, coinbase, n).0, z),
    ensures
        sat(c, z),
    decreases n,
{
    if n > 0 {
        let (c1, values, bits) = allocate_rows(c, acts, counter, coinbase, (n - 1) as nat);
        let mint = acts[n - 1][5];
        let (c2, next, carry) = increment_rows(c1, bits, mint, bits.len());
        let c3 = pin_rows(c2, carry);
        let c4 = gate_rows(c3, mint, next[63]);
        let id = if n == 1 {
            coinbase
        } else {
            weighted(next, 64)
        };
        lemma_mul_sound(c4, mint, id, z);
        lemma_gate_sound(c3, mint, next[63], z);
        lemma_pin_sound(c2, carry, z);
        lemma_increment_prefix(c1, bits, mint, bits.len(), z);
        lemma_allocate_prefix(c, acts, counter, coinbase, (n - 1) as nat, z);
    }
}

proof fn lemma_mints_stable(old: Circuit, new: Circuit, acts: Seq<Seq<Lin>>, n: nat)
    requires
        new.grows(old),
        n <= acts.len(),
        rows_shaped(acts, 6, old.rows.len()),
    ensures
        mint_count(acts, n, new.values) == mint_count(acts, n, old.values),
        mints_are_bits(acts, new.values) == mints_are_bits(acts, old.values),
        forall|i: int|
            0 <= i < acts.len() ==> (#[trigger] acts[i])[5].eval(new.values) == acts[i][5].eval(
                old.values,
            ) && acts[i][5].below(new.rows.len()) && acts[i][2].below(new.rows.len()),
    decreases n,
{
    assert forall|i: int| 0 <= i < acts.len() implies (#[trigger] acts[i])[5].eval(new.values)
        == acts[i][5].eval(old.values) && acts[i][5].below(new.rows.len()) && acts[i][2].below(
        new.rows.len(),
    ) by {
        assert(acts[i].len() == 6 && all_below(acts[i], old.rows.len()));
        assert(acts[i][5].below(old.rows.len()) && acts[i][2].below(old.rows.len()));
    }
    if n > 0 {
        lemma_mints_stable(old, new, acts, (n - 1) as nat);
        assert(acts[n - 1][5].eval(new.values) == acts[n - 1][5].eval(old.values));
    }
}

/// Packs every mint's creation id into the upper half of its value, in body
/// order.
///
/// See [`lemma_mint_sound`] for what the constraints bind.
pub fn bind_mint_packed_values_body_order(
    b: &mut FieldR1csBuilder,
    actions: &mut Vec<ActionRowTrace>,
    parent_alloc_counter: &LinExpr,
    child_alloc_counter: &LinExpr,
    block_height: &LinExpr,
)
    requires
        old(b)@.wf(),
        rows_shaped(action_rows(old(actions)@), 6, old(b)@.rows.len()),
        parent_alloc_counter@.below(old(b)@.rows.len()),
        child_alloc_counter@.below(old(b)@.rows.len()),
        block_height@.below(old(b)@.rows.len()),
    ensures
        ({
            let acts = action_rows(old(actions)@);
            let (rows, values) = mint_rows(
                old(b)@.rows,
                acts,
                parent_alloc_counter@,
                child_alloc_counter@,
                block_height@,
            );
            &&& final(b)@.rows == rows
            &&& final(actions)@.len() == old(actions)@.len()
            &&& values.len() == acts.len()
            &&& forall|i: int|
                0 <= i < acts.len() ==> #[trigger] action_rows(final(actions)@)[i]
                    == acts[i].update(2, values[i])
        }),
        final(b)@.grows(old(b)@),
        rows_shaped(action_rows(final(actions)@), 6, final(b)@.rows.len()),
        ({
            let z = old(b)@.values;
            let acts = action_rows(old(actions)@);
            let p = parent_alloc_counter@.eval(z).bits as nat;
            mints_are_bits(acts, z) ==> {
                final(b)@.honest() <==> {
                    &&& old(b)@.honest()
                    &&& p < pow2(64)
                    &&& block_height@.eval(z).bits < pow2(64)
                    &&& ids_fit(acts, p, acts.len(), z)
                    &&& child_alloc_counter@.eval(z) == F128::of_nat(
                        p + mint_count(acts, acts.len(), z),
                    )
                }
            }
        }),
{
    let ghost z0 = old(b)@.values;
    let ghost acts = action_rows(old(actions)@);
    let ghost original = old(actions)@;
    let parent_wires = range_check_bits(b, parent_alloc_counter, 64);
    let ghost b1 = b@;
    let height_wires = range_check_bits(b, block_height, 64);
    let ghost b2 = b@;
    let ghost pb = wire_lins(parent_wires@);
    let ghost hb = wire_lins(height_wires@);
    proof {
        lemma_bits_stable(b1, b2, pb);
    }
    let mut counter = wire_exprs(&parent_wires);
    let mut low_height = wire_exprs(&height_wires);
    low_height.truncate(63);
    assert(lins(low_height@) =~= hb.take(63));
    let coinbase = weighted_sum(&low_height, 64).add_const(weight(127));
    assert(coinbase@ == coinbase_high(hb));
    proof {
        assert(all_below(hb.take(63), b2.rows.len())) by {
            assert forall|i: int| 0 <= i < hb.take(63).len() implies (
            #[trigger] hb.take(63)[i]).below(b2.rows.len()) by {
                assert(hb.take(63)[i] == hb[i]);
            }
        }
        lemma_weighted_below(hb.take(63), 64, b2.rows.len());
    }
    let ghost p = parent_alloc_counter@.eval(z0).bits as nat;
    let ghost h = block_height@.eval(z0).bits as nat;
    let ghost mut values: Seq<Lin> = Seq::empty();
    let mut i: usize = 0;
    proof {
        if b2.honest() {
            lemma_range_sound(b1.rows, block_height@, 64, b2.values);
            lemma_range_sound(old(b)@.rows, parent_alloc_counter@, 64, b2.values);
            lemma_coinbase_high(hb, b2.values);
            assert(bits_value(pb, b2.values) == p);
            assert(bits_value(hb, b2.values) == h);
        }
    }
    while i < actions.len()
        invariant
            i <= actions@.len(),
            actions@.len() == original.len(),
            z0 == old(b)@.values,
            original == old(actions)@,
            acts == action_rows(original),
            rows_shaped(acts, 6, old(b)@.rows.len()),
            b2.grows(old(b)@),
            b@.grows(b2),
            b@.grows(old(b)@),
            (b@.rows, values, lins(counter@)) == allocate_rows(
                b2.rows,
                acts,
                pb,
                coinbase@,
                i as nat,
            ),
            values.len() == i,
            counter@.len() == 64,
            pb.len() == 64,
            all_below(lins(counter@), b@.rows.len()),
            all_below(values, b@.rows.len()),
            all_below(pb, b2.rows.len()),
            coinbase@.below(b2.rows.len()),
            b2.honest() ==> all_bits(pb, b2.values) && bits_value(pb, b2.values) == p
                && coinbase@.eval(b2.values) == F128::of_nat(
                pow2(64) * (pow2(63) + h % pow2(63)),
            ),
            forall|j: int|
                0 <= j < i ==> (#[trigger] actions@[j]).lanes() == acts[j].update(2, values[j]),
            forall|j: int| i <= j < original.len() ==> #[trigger] actions@[j] == original[j],
            mints_are_bits(acts, z0) ==> (b@.honest() <==> b2.honest() && ids_fit(
                acts,
                p,
                i as nat,
                z0,
            )),
        decreases original.len() - i,
    {
        let ghost before = b@;
        proof {
            lemma_mints_stable(old(b)@, before, acts, i as nat);
            assert(acts[i as int] == original[i as int].lanes());
            assert(acts[i as int][5].below(before.rows.len()));
            assert(acts[i as int][2].below(before.rows.len()));
            assert(actions@[i as int] == original[i as int]);
        }
        let mut action = actions[i].dup();
        assert(action.lanes()[5] == action.is_mint@ && action.lanes()[2] == action.value@);
        let ghost bits = lins(counter@);
        let (next, carry) = increment_bits(b, &counter, &action.is_mint);
        let ghost c2 = b@;
        pin_zero(b, &carry);
        let ghost c3 = b@;
        assert(lins(next@)[63].below(c2.rows.len()));
        pin_product(b, &action.is_mint, &next[63]);
        let ghost c4 = b@;
        proof {
            lemma_bits_stable(c2, c4, lins(next@));
            lemma_weighted_below(lins(next@), 64, c4.rows.len());
        }
        let creation_high = if i == 0 {
            coinbase.dup()
        } else {
            weighted_sum(&next, 64)
        };
        let selected = crate::circuit::mul(b, &action.is_mint, &creation_high);
        let packed = action.value.add(&selected);
        let ghost old_lanes = action.lanes();
        action.value = packed;
        assert(action.lanes() =~= old_lanes.update(2, packed@));
        let ghost prior = values;
        proof {
            values = values.push(packed@);
            if mints_are_bits(acts, z0) && before.honest() {
                lemma_mints_stable(old(b)@, c2, acts, i as nat);
                lemma_bits_stable(b2, c2, pb);
                assert(coinbase@.eval(c2.values) == coinbase@.eval(b2.values));
                lemma_increment_prefix(before.rows, bits, action.is_mint@, 64, c2.values);
                lemma_allocate_sound(
                    b2.rows,
                    acts,
                    pb,
                    coinbase@,
                    p,
                    h,
                    i as nat,
                    c2.values,
                );
                assert(acts[i as int][5].eval(c2.values).is_bit());
                lemma_allocate_step(before.rows, bits, action.is_mint@, c2.values);
                lemma_bits_nat_bound(crate::bits::bools(bits, c2.values));
                assert(mint_count(acts, (i + 1) as nat, z0) == mint_count(acts, i as nat, z0)
                    + bit_int(acts[i as int][5].eval(z0)));
                lemma_pow2_unfold(64);
            }
            if mints_are_bits(acts, z0) {
                let here = acts[i as int][5].eval(z0) == F128::one() ==> p + mint_count(
                    acts,
                    (i + 1) as nat,
                    z0,
                ) < pow2(63);
                assert(acts[i as int][5].eval(z0).is_bit());
                assert(b@.honest() <==> before.honest() && here);
                assert(ids_fit(acts, p, (i + 1) as nat, z0) <==> ids_fit(acts, p, i as nat, z0)
                    && here);
            }
            lemma_bits_stable(c4, b@, lins(next@));
            assert forall|j: int| 0 <= j < values.len() implies (#[trigger] values[j]).below(
                b@.rows.len(),
            ) by {
                if j < i {
                    assert(prior[j].below(before.rows.len()));
                }
            }
        }
        actions.set(i, action);
        counter = next;
        i += 1;
    }
    let ghost b3 = b@;
    proof {
        lemma_weighted_below(lins(counter@), 0, b3.rows.len());
    }
    let final_counter = weighted_sum(&counter, 0);
    pin_eq(b, &final_counter, child_alloc_counter);
    proof {
        let n = acts.len();
        if mints_are_bits(acts, z0) && b3.honest() {
            lemma_grows_honest(b2, b3);
            lemma_mints_stable(old(b)@, b3, acts, n);
            lemma_bits_stable(b2, b3, pb);
            assert(coinbase@.eval(b3.values) == coinbase@.eval(b2.values));
            lemma_allocate_sound(b2.rows, acts, pb, coinbase@, p, h, n, b3.values);
            lemma_weighted_value(lins(counter@), b3.values);
        }
        let rs = action_rows(actions@);
        assert forall|j: int| 0 <= j < rs.len() implies (#[trigger] rs[j]).len() == 6 && all_below(
            rs[j],
            b@.rows.len(),
        ) by {
            assert(rs[j] == acts[j].update(2, values[j]));
            assert(all_below(acts[j], old(b)@.rows.len()) && acts[j].len() == 6);
            assert forall|l: int| 0 <= l < 6 implies (#[trigger] rs[j][l]).below(b@.rows.len()) by {
                if l == 2 {
                    assert(values[j].below(b3.rows.len()));
                } else {
                    assert(acts[j][l].below(old(b)@.rows.len()));
                }
            }
        }
    }
}

} // verus!
