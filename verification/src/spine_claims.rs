//! Linear relations over the states of a spine, and what they bind.
//!
//! The state column holds four lanes for every round of every slot. A relation
//! is a weighted sum of its cells; a chain of relations makes each slot start
//! from what the slots before it end on.

use vstd::prelude::*;
use vstd::arithmetic::power2::{lemma_pow2_adds, lemma_pow2_pos, lemma_pow2_unfold, pow2};
use crate::batch_eval::{
    linear_ok, linear_terms, linear_values, term_views, terms_at, terms_below, LinearEvalClaimTrace,
    LinearEvalTermTrace,
};
use crate::bits::nat_bit;
use crate::circuit::{all_below, group_circuit, group_lin, lins, Lin, LinExpr};
use crate::eval_gadgets::index_point;
use crate::field::{
    group_field_units, lemma_plus_assoc, lemma_plus_comm, lemma_plus_is_zero, lemma_plus_swap,
    lemma_times_comm, lemma_times_plus, F128,
};
use crate::multilinear::evals_at;
use crate::poseidon::{dot, mds, permuted, round_of, rounds_of, Permutation, PoseidonTables};

verus! {

broadcast use group_circuit;

// ---------------------------------------------------------------------------
// Cells
// ---------------------------------------------------------------------------

/// The cell of a lane at a round of a slot: two lane digits, seven round digits,
/// then the slot's.
pub open spec fn point_index(slot: nat, round: nat, lane: nat) -> nat {
    lane + 4 * round + 512 * slot
}

proof fn lemma_digit_split(low: nat, high: nat, k: nat, i: nat)
    requires
        low < pow2(k),
    ensures
        nat_bit(low + pow2(k) * high, i) == if i < k {
            nat_bit(low, i)
        } else {
            nat_bit(high, (i - k) as nat)
        },
{
    let v = low + pow2(k) * high;
    lemma_pow2_pos(k);
    lemma_pow2_pos(i);
    if i < k {
        let rest = (k - i) as nat;
        lemma_pow2_adds(i, rest);
        lemma_pow2_unfold(rest);
        let half = pow2((rest - 1) as nat) * high;
        assert(pow2(k) * high == pow2(i) * (2 * half)) by (nonlinear_arith)
            requires
                pow2(k) == pow2(i) * pow2(rest),
                pow2(rest) == 2 * pow2((rest - 1) as nat),
                half == pow2((rest - 1) as nat) * high,
        ;
        vstd::arithmetic::div_mod::lemma_hoist_over_denominator(
            low as int,
            (2 * half) as int,
            pow2(i),
        );
        assert(v / pow2(i) == low / pow2(i) + 2 * half);
    } else {
        let rest = (i - k) as nat;
        lemma_pow2_adds(k, rest);
        lemma_pow2_pos(rest);
        vstd::arithmetic::div_mod::lemma_div_denominator(
            v as int,
            pow2(k) as int,
            pow2(rest) as int,
        );
        assert(v == high * pow2(k) + low) by (nonlinear_arith)
            requires
                v == low + pow2(k) * high,
        ;
        vstd::arithmetic::div_mod::lemma_fundamental_div_mod_converse(
            v as int,
            pow2(k) as int,
            high as int,
            low as int,
        );
    }
}

/// The digits of a cell's index are those of lane, round and slot.
pub proof fn lemma_point_index(slot: nat, round: nat, lane: nat, n: nat)
    requires
        lane < 4,
        round < 128,
        n >= 9,
    ensures
        index_point(point_index(slot, round, lane), n) == index_point(lane, 2) + index_point(
            round,
            7,
        ) + index_point(slot, (n - 9) as nat),
{
    vstd::arithmetic::power2::lemma2_to64();
    let v = point_index(slot, round, lane);
    let w = round + 128 * slot;
    let all = index_point(lane, 2) + index_point(round, 7) + index_point(slot, (n - 9) as nat);
    assert forall|i: int| 0 <= i < n implies (#[trigger] index_point(v, n)[i]) == all[i] by {
        lemma_digit_split(lane, w, 2, i as nat);
        assert(v == lane + pow2(2) * w);
        if i >= 2 {
            lemma_digit_split(round, slot, 7, (i - 2) as nat);
        }
    }
    assert(index_point(v, n) =~= all);
}

/// The index of a cell.
pub fn spine_point_index(num_vars: usize, slot: usize, round: usize, lane: usize) -> (r: usize)
    requires
        9 <= num_vars < usize::BITS,
        slot < pow2((num_vars - 9) as nat),
        round < 128,
        lane < 4,
    ensures
        r == point_index(slot as nat, round as nat, lane as nat),
        r < pow2(num_vars as nat),
{
    proof {
        vstd::arithmetic::power2::lemma2_to64();
        lemma_pow2_adds(9, (num_vars - 9) as nat);
        crate::bits::lemma_pow2_bound(num_vars as nat, (usize::BITS - 1) as nat);
        lemma_word_bound();
        assert(512 * (slot + 1) <= pow2(num_vars as nat)) by (nonlinear_arith)
            requires
                slot + 1 <= pow2((num_vars - 9) as nat),
                pow2(num_vars as nat) == 512 * pow2((num_vars - 9) as nat),
        ;
    }
    lane + 4 * round + 512 * slot
}

proof fn lemma_word_bound()
    ensures
        pow2((usize::BITS - 1) as nat) <= usize::MAX,
{
    vstd::arithmetic::power2::lemma2_to64();
    vstd::layout::unsigned_int_max_values();
    if usize::BITS == 64 {
        assert(pow2(63) == 0x8000000000000000) by {
            vstd::arithmetic::power2::lemma2_to64_rest();
        }
    } else {
        assert(pow2(31) == 0x80000000);
    }
}

// ---------------------------------------------------------------------------
// Relations
// ---------------------------------------------------------------------------

/// The weighted sum of cells.
pub open spec fn terms_sum(terms: Seq<(nat, F128)>, column: Seq<F128>, n: nat) -> F128
    decreases n,
{
    if n == 0 {
        F128::zero()
    } else {
        terms_sum(terms, column, (n - 1) as nat).plus(
            terms[n - 1].1.times(column[terms[n - 1].0 as int]),
        )
    }
}

/// A relation holds of a column.
pub open spec fn relation_holds(terms: Seq<(nat, F128)>, value: F128, column: Seq<F128>) -> bool {
    terms_sum(terms, column, terms.len()) == value
}

/// Every relation holds of a column.
pub open spec fn relations_hold(
    terms: Seq<Seq<(nat, Lin)>>,
    values: Seq<Lin>,
    column: Seq<F128>,
    z: Seq<F128>,
) -> bool {
    forall|k: int|
        0 <= k < values.len() ==> relation_holds(
            terms_at(#[trigger] terms[k], z),
            values[k].eval(z),
            column,
        )
}

/// The state at a round of a slot.
pub open spec fn state_at(column: Seq<F128>, slot: nat, round: nat) -> Seq<F128> {
    Seq::new(4, |lane: int| column[point_index(slot, round, lane as nat) as int])
}

/// Every round of a slot follows from the one before.
pub open spec fn slot_follows(p: Permutation, column: Seq<F128>, slot: nat) -> bool {
    forall|r: nat|
        r < p.rounds() ==> state_at(column, slot, r + 1) == #[trigger] round_of(
            p,
            r as int,
            state_at(column, slot, r),
        )
}

/// A slot that starts from a state ends on its permutation.
pub proof fn lemma_slot_permutes(p: Permutation, column: Seq<F128>, slot: nat, raw: Seq<F128>)
    requires
        slot_follows(p, column, slot),
        state_at(column, slot, 0) == mds(p.full, raw),
    ensures
        state_at(column, slot, p.rounds()) == permuted(p, raw),
{
    lemma_slot_rounds(p, column, slot, raw, p.rounds());
}

proof fn lemma_slot_rounds(p: Permutation, column: Seq<F128>, slot: nat, raw: Seq<F128>, n: nat)
    requires
        slot_follows(p, column, slot),
        state_at(column, slot, 0) == mds(p.full, raw),
        n <= p.rounds(),
    ensures
        state_at(column, slot, n) == rounds_of(p, raw, n),
    decreases n,
{
    if n > 0 {
        let m = (n - 1) as nat;
        lemma_slot_rounds(p, column, slot, raw, m);
        assert(state_at(column, slot, m + 1) == round_of(p, m as int, state_at(column, slot, m)));
    }
}

/// A row times a state with two lanes added to its rate.
pub proof fn lemma_dot_absorbed(row: Seq<F128>, s: Seq<F128>, b0: F128, b1: F128)
    ensures
        dot(row, seq![s[0].plus(b0), s[1].plus(b1), s[2], s[3]], 4) == dot(row, s, 4).plus(
            b0.times(row[0]).plus(b1.times(row[1])),
        ),
{
    broadcast use group_field_units;

    reveal_with_fuel(dot, 5);
    lemma_times_plus(row[0], s[0], b0);
    lemma_times_plus(row[1], s[1], b1);
    lemma_times_comm(row[0], s[0].plus(b0));
    lemma_times_comm(row[0], s[0]);
    lemma_times_comm(row[0], b0);
    lemma_times_comm(row[1], s[1].plus(b1));
    lemma_times_comm(row[1], s[1]);
    lemma_times_comm(row[1], b1);
    let (x0, x1) = (s[0].times(row[0]), s[1].times(row[1]));
    let (x2, x3) = (s[2].times(row[2]), s[3].times(row[3]));
    let (y0, y1) = (b0.times(row[0]), b1.times(row[1]));
    let y = y0.plus(y1);
    lemma_plus_swap(x0, y0, x1, y1);
    // (x0 + x1) + y + x2 + x3
    lemma_plus_assoc(x0.plus(x1), y, x2);
    lemma_plus_comm(y, x2);
    lemma_plus_assoc(x0.plus(x1), x2, y);
    lemma_plus_assoc(x0.plus(x1).plus(x2), y, x3);
    lemma_plus_comm(y, x3);
    lemma_plus_assoc(x0.plus(x1).plus(x2), x3, y);
}

/// A cell, and the four cells of a state under a matrix row.
pub open spec fn link_cells(at: nat, from: nat, row: Seq<F128>) -> Seq<(nat, F128)> {
    seq![
        (at, F128::one()),
        (from, row[0]),
        (from + 1, row[1]),
        (from + 2, row[2]),
        (from + 3, row[3]),
    ]
}

pub proof fn lemma_link_sum(at: nat, slot: nat, round: nat, row: Seq<F128>, column: Seq<F128>)
    ensures
        terms_sum(link_cells(at, point_index(slot, round, 0), row), column, 5)
            == column[at as int].plus(dot(row, state_at(column, slot, round), 4)),
{
    broadcast use group_field_units;

    reveal_with_fuel(terms_sum, 6);
    reveal_with_fuel(dot, 5);
    let s = state_at(column, slot, round);
    lemma_times_comm(row[0], s[0]);
    lemma_times_comm(row[1], s[1]);
    lemma_times_comm(row[2], s[2]);
    lemma_times_comm(row[3], s[3]);
    let c = column[at as int];
    let (x0, x1) = (s[0].times(row[0]), s[1].times(row[1]));
    let (x2, x3) = (s[2].times(row[2]), s[3].times(row[3]));
    lemma_plus_assoc(c, x0, x1);
    lemma_plus_assoc(c, x0.plus(x1), x2);
    lemma_plus_assoc(c, x0.plus(x1).plus(x2), x3);
}

// ---------------------------------------------------------------------------
// Sponge chains
// ---------------------------------------------------------------------------

/// Two lanes added to the rate.
pub open spec fn absorbed(s: Seq<F128>, block: Seq<F128>) -> Seq<F128> {
    seq![s[0].plus(block[0]), s[1].plus(block[1]), s[2], s[3]]
}

/// The sponge after its first `n` blocks.
pub open spec fn sponge_state(p: Permutation, iv: Seq<F128>, blocks: Seq<Seq<F128>>, n: nat) -> Seq<
    F128,
>
    decreases n,
{
    if n == 0 {
        seq![F128::zero(), F128::zero(), iv[0], iv[1]]
    } else {
        permuted(p, absorbed(sponge_state(p, iv, blocks, (n - 1) as nat), blocks[n - 1]))
    }
}

/// The terms that tie a lane of a slot's first state to the slot before.
pub open spec fn chain_terms(p: Permutation, slot: nat, lane: int, first: bool) -> Seq<(nat, Lin)> {
    let own = seq![(point_index(slot, 0, lane as nat), Lin::constant(F128::one()))];
    if first {
        own
    } else {
        own + Seq::new(
            4,
            |l: int|
                (
                    point_index((slot - 1) as nat, p.rounds(), l as nat),
                    Lin::constant(p.full[lane][l]),
                ),
        )
    }
}

/// What a lane takes from a block, and from the capacity where the chain starts.
pub open spec fn chain_value(
    p: Permutation,
    iv: Seq<F128>,
    block: Seq<Lin>,
    lane: int,
    first: bool,
) -> Lin {
    let row = p.full[lane];
    let value = block[0].scale(row[0]).plus(block[1].scale(row[1]));
    if first {
        value.plus_const(iv[0].times(row[2]).plus(iv[1].times(row[3])))
    } else {
        value
    }
}

/// The terms of a chain's relations: four for every block, then one for every
/// lane of the digest.
pub open spec fn sponge_terms(p: Permutation, n: nat, lanes: nat, offset: nat) -> Seq<
    Seq<(nat, Lin)>,
> {
    Seq::new(
        4 * n + lanes,
        |k: int|
            if k < 4 * n {
                chain_terms(p, (offset + k / 4) as nat, k % 4, k / 4 == 0)
            } else {
                seq![
                    (
                        point_index((offset + n - 1) as nat, p.rounds(), (k - 4 * n) as nat),
                        Lin::constant(F128::one()),
                    ),
                ]
            },
    )
}

/// The values of a chain's relations.
pub open spec fn sponge_values(
    p: Permutation,
    iv: Seq<F128>,
    blocks: Seq<Seq<Lin>>,
    expected: Seq<Lin>,
) -> Seq<Lin> {
    let n = blocks.len();
    Seq::new(
        4 * n + expected.len(),
        |k: int|
            if k < 4 * n {
                chain_value(p, iv, blocks[k / 4], k % 4, k / 4 == 0)
            } else {
                expected[k - 4 * n]
            },
    )
}

pub open spec fn blocks_at(blocks: Seq<Seq<Lin>>, z: Seq<F128>) -> Seq<Seq<F128>> {
    Seq::new(blocks.len(), |i: int| evals_at(blocks[i], z))
}

/// The state that a slot of a chain starts from, before its first matrix.
pub open spec fn chain_input(
    p: Permutation,
    iv: Seq<F128>,
    blocks: Seq<Seq<F128>>,
    column: Seq<F128>,
    offset: nat,
    j: nat,
) -> Seq<F128> {
    absorbed(
        if j == 0 {
            seq![F128::zero(), F128::zero(), iv[0], iv[1]]
        } else {
            state_at(column, (offset + j - 1) as nat, p.rounds())
        },
        blocks[j as int],
    )
}

/// A chain's relation says what a lane of a slot's first state is.
proof fn lemma_chain_relation(
    p: Permutation,
    iv: Seq<F128>,
    blocks: Seq<Seq<Lin>>,
    column: Seq<F128>,
    offset: nat,
    j: nat,
    lane: int,
    z: Seq<F128>,
)
    requires
        j < blocks.len(),
        blocks[j as int].len() == 2,
        0 <= lane < 4,
    ensures
        relation_holds(
            terms_at(chain_terms(p, offset + j, lane, j == 0), z),
            chain_value(p, iv, blocks[j as int], lane, j == 0).eval(z),
            column,
        ) <==> state_at(column, offset + j, 0)[lane] == mds(
            p.full,
            chain_input(p, iv, blocks_at(blocks, z), column, offset, j),
        )[lane],
{
    broadcast use {group_lin, group_field_units, lemma_plus_is_zero};

    let slot = offset + j;
    let row = p.full[lane];
    let block = blocks[j as int];
    let at = point_index(slot, 0, lane as nat);
    let terms = terms_at(chain_terms(p, slot, lane, j == 0), z);
    let (b0, b1) = (block[0].eval(z), block[1].eval(z));
    let bv = blocks_at(blocks, z)[j as int];
    assert(bv[0] == b0 && bv[1] == b1);
    if j == 0 {
        let start = seq![F128::zero(), F128::zero(), iv[0], iv[1]];
        lemma_dot_absorbed(row, start, b0, b1);
        assert(terms =~= seq![(at, F128::one())]);
        reveal_with_fuel(terms_sum, 2);
        reveal_with_fuel(dot, 5);
        lemma_plus_comm(
            b0.times(row[0]).plus(b1.times(row[1])),
            iv[0].times(row[2]).plus(iv[1].times(row[3])),
        );
    } else {
        let prev = (slot - 1) as nat;
        let s = state_at(column, prev, p.rounds());
        lemma_dot_absorbed(row, s, b0, b1);
        lemma_link_sum(at, prev, p.rounds(), row, column);
        assert(terms =~= link_cells(at, point_index(prev, p.rounds(), 0), row));
        let (x, d) = (column[at as int], dot(row, s, 4));
        let v = b0.times(row[0]).plus(b1.times(row[1]));
        // x + d == v exactly where x == d + v
        lemma_plus_comm(x, d);
        assert(d.plus(d.plus(x)) == x);
        assert(d.plus(d.plus(v)) == v);
    }
}

/// What a chain's relations bind: over slots that follow the permutation, the
/// digest is that of the sponge.
pub proof fn lemma_sponge_binds(
    p: Permutation,
    iv: Seq<F128>,
    blocks: Seq<Seq<Lin>>,
    expected: Seq<Lin>,
    offset: nat,
    column: Seq<F128>,
    z: Seq<F128>,
)
    requires
        blocks.len() > 0,
        expected.len() <= 4,
        forall|j: int| 0 <= j < blocks.len() ==> (#[trigger] blocks[j]).len() == 2,
        forall|j: nat| j < blocks.len() ==> #[trigger] slot_follows(p, column, offset + j),
        relations_hold(
            sponge_terms(p, blocks.len(), expected.len(), offset),
            sponge_values(p, iv, blocks, expected),
            column,
            z,
        ),
    ensures
        forall|lane: int|
            0 <= lane < expected.len() ==> (#[trigger] expected[lane]).eval(z) == sponge_state(
                p,
                iv,
                blocks_at(blocks, z),
                blocks.len(),
            )[lane],
{
    broadcast use {group_lin, group_field_units};

    let n = blocks.len();
    lemma_sponge_slots(p, iv, blocks, expected, offset, column, n, z);
    let terms = sponge_terms(p, n, expected.len(), offset);
    let values = sponge_values(p, iv, blocks, expected);
    assert forall|lane: int| 0 <= lane < expected.len() implies (#[trigger] expected[lane]).eval(z)
        == sponge_state(p, iv, blocks_at(blocks, z), n)[lane] by {
        let k = 4 * n + lane;
        let at = point_index((offset + n - 1) as nat, p.rounds(), lane as nat);
        assert(relation_holds(terms_at(terms[k], z), values[k].eval(z), column));
        assert(terms_at(terms[k], z) =~= seq![(at, F128::one())]);
        reveal_with_fuel(terms_sum, 2);
        assert(state_at(column, (offset + n - 1) as nat, p.rounds())[lane] == column[at as int]);
    }
}

proof fn lemma_sponge_slots(
    p: Permutation,
    iv: Seq<F128>,
    blocks: Seq<Seq<Lin>>,
    expected: Seq<Lin>,
    offset: nat,
    column: Seq<F128>,
    n: nat,
    z: Seq<F128>,
)
    requires
        n <= blocks.len(),
        forall|j: int| 0 <= j < blocks.len() ==> (#[trigger] blocks[j]).len() == 2,
        forall|j: nat| j < blocks.len() ==> #[trigger] slot_follows(p, column, offset + j),
        relations_hold(
            sponge_terms(p, blocks.len(), expected.len(), offset),
            sponge_values(p, iv, blocks, expected),
            column,
            z,
        ),
    ensures
        n > 0 ==> state_at(column, (offset + n - 1) as nat, p.rounds()) == sponge_state(
            p,
            iv,
            blocks_at(blocks, z),
            n,
        ),
    decreases n,
{
    if n > 0 {
        let j = (n - 1) as nat;
        let bv = blocks_at(blocks, z);
        lemma_sponge_slots(p, iv, blocks, expected, offset, column, j, z);
        let terms = sponge_terms(p, blocks.len(), expected.len(), offset);
        let values = sponge_values(p, iv, blocks, expected);
        let raw = chain_input(p, iv, bv, column, offset, j);
        let start = state_at(column, offset + j, 0);
        assert(start =~= mds(p.full, raw)) by {
            assert forall|lane: int| 0 <= lane < 4 implies start[lane] == mds(p.full, raw)[lane] by {
                let k = 4 * j + lane;
                assert(k / 4 == j && k % 4 == lane);
                assert(relation_holds(terms_at(terms[k], z), values[k].eval(z), column));
                assert(blocks[j as int].len() == 2);
                lemma_chain_relation(p, iv, blocks, column, offset, j, lane, z);
            }
        }
        assert(slot_follows(p, column, offset + j));
        lemma_slot_permutes(p, column, offset + j, raw);
        assert(raw == absorbed(sponge_state(p, iv, bv, j), bv[j as int]));
    }
}

pub open spec fn block_lins(blocks: Seq<[LinExpr; 2]>) -> Seq<Seq<Lin>> {
    Seq::new(blocks.len(), |i: int| lins(blocks[i]@))
}

pub open spec fn blocks_below(blocks: Seq<[LinExpr; 2]>, n: nat) -> bool {
    forall|i: int| 0 <= i < blocks.len() ==> all_below(lins((#[trigger] blocks[i])@), n)
}

/// A term at a cell.
pub fn state_term(
    num_vars: usize,
    slot: usize,
    round: usize,
    lane: usize,
    coeff: LinExpr,
) -> (r: LinearEvalTermTrace)
    requires
        9 <= num_vars < usize::BITS,
        slot < pow2((num_vars - 9) as nat),
        round < 128,
        lane < 4,
    ensures
        r.index == point_index(slot as nat, round as nat, lane as nat),
        r.coeff@ == coeff@,
{
    LinearEvalTermTrace { index: spine_point_index(num_vars, slot, round, lane), coeff }
}

/// Two lanes under the first two entries of a matrix row.
pub fn mds_pair(row: &[F128; 4], pair: &[LinExpr; 2]) -> (r: LinExpr)
    ensures
        r@ == pair[0]@.scale(row[0]).plus(pair[1]@.scale(row[1])),
        forall|n: nat| #[trigger] all_below(lins(pair@), n) ==> r@.below(n),
{
    let r = pair[0].scale(row[0]).add(&pair[1].scale(row[1]));
    assert forall|n: nat| #[trigger] all_below(lins(pair@), n) implies r@.below(n) by {
        assert(lins(pair@)[0].below(n) && lins(pair@)[1].below(n));
    }
    r
}

/// A claim refers to wires below `n`.
pub open spec fn claim_below(c: LinearEvalClaimTrace, n: nat) -> bool {
    terms_below(c.terms@, n) && c.value@.below(n)
}

fn chain_claim(
    t: &PoseidonTables,
    iv: &[F128; 2],
    block: &[LinExpr; 2],
    slot: usize,
    lane: usize,
    first: bool,
    num_vars: usize,
) -> (r: LinearEvalClaimTrace)
    requires
        t@.rounds() < 128,
        9 <= num_vars < usize::BITS,
        slot < pow2((num_vars - 9) as nat),
        first || slot > 0,
        lane < 4,
    ensures
        term_views(r.terms@) == chain_terms(t@, slot as nat, lane as int, first),
        r.value@ == chain_value(t@, iv@, lins(block@), lane as int, first),
        forall|n: nat| #[trigger] all_below(lins(block@), n) ==> claim_below(r, n),
{
    let ghost p = t@;
    let row = &t.mds_full[lane];
    assert(p.full[lane as int] == row@);
    let mut terms: Vec<LinearEvalTermTrace> = Vec::new();
    terms.push(state_term(num_vars, slot, 0, lane, LinExpr::constant(F128::one())));
    let mut value = mds_pair(row, block);
    let ghost own = term_views(terms@);
    if first {
        value = value.add_const(iv[0].mul(row[2]).add(iv[1].mul(row[3])));
        assert(own =~= chain_terms(p, slot as nat, lane as int, first));
    } else {
        let mut l: usize = 0;
        while l < 4
            invariant
                l <= 4,
                p == t@,
                lane < 4,
                row@ == p.full[lane as int],
                p.rounds() == t.rc@.len(),
                p.rounds() < 128,
                9 <= num_vars < usize::BITS,
                0 < slot < pow2((num_vars - 9) as nat),
                terms@.len() == 1 + l,
                term_views(terms@) == chain_terms(p, slot as nat, lane as int, false).take(1 + l),
                forall|n: nat| #[trigger] terms_below(terms@, n),
            decreases 4 - l,
        {
            let ghost before = terms@;
            terms.push(
                state_term(num_vars, slot - 1, t.rc.len(), l, LinExpr::constant(row[l])),
            );
            proof {
                let want = chain_terms(p, slot as nat, lane as int, false);
                assert(term_views(terms@) =~= want.take(2 + l)) by {
                    assert(term_views(before) == want.take(1 + l));
                    assert(forall|i: int|
                        0 <= i < 1 + l ==> (#[trigger] term_views(terms@)[i]) == term_views(
                            before,
                        )[i]);
                }
                assert forall|n: nat| #[trigger] terms_below(terms@, n) by {
                    assert(terms_below(before, n));
                }
            }
            l += 1;
        }
        proof {
            let want = chain_terms(p, slot as nat, lane as int, false);
            assert(want.take(5) =~= want);
        }
    }
    LinearEvalClaimTrace { terms, value }
}

/// The relations of a sponge chain: every slot starts from the slot before with
/// a block added to its rate, the first from the capacity, and the last ends on
/// the digest.
pub fn sponge_chain_claims_trace(
    t: &PoseidonTables,
    blocks: &Vec<[LinExpr; 2]>,
    iv: &[F128; 2],
    expected: &Vec<LinExpr>,
    slot_offset: usize,
    num_vars: usize,
) -> (r: Vec<LinearEvalClaimTrace>)
    requires
        t@.rounds() < 128,
        blocks@.len() > 0,
        expected@.len() <= 4,
        9 <= num_vars < usize::BITS,
        slot_offset + blocks@.len() <= pow2((num_vars - 9) as nat),
        pow2((num_vars - 9) as nat) <= usize::MAX,
    ensures
        linear_terms(r@) == sponge_terms(
            t@,
            blocks@.len(),
            expected@.len(),
            slot_offset as nat,
        ),
        linear_values(r@) == sponge_values(t@, iv@, block_lins(blocks@), lins(expected@)),
        forall|n: nat|
            blocks_below(blocks@, n) && #[trigger] all_below(lins(expected@), n) ==> linear_ok(
                r@,
                n,
            ),
{
    let ghost p = t@;
    let ghost count = blocks@.len();
    let ghost terms = sponge_terms(p, count, expected@.len(), slot_offset as nat);
    let ghost values = sponge_values(p, iv@, block_lins(blocks@), lins(expected@));
    let mut r: Vec<LinearEvalClaimTrace> = Vec::new();
    let mut j: usize = 0;
    while j < blocks.len()
        invariant
            j <= blocks@.len(),
            p == t@,
            p.rounds() < 128,
            count == blocks@.len(),
            expected@.len() <= 4,
            9 <= num_vars < usize::BITS,
            slot_offset + blocks@.len() <= pow2((num_vars - 9) as nat),
            pow2((num_vars - 9) as nat) <= usize::MAX,
            terms == sponge_terms(p, count, expected@.len(), slot_offset as nat),
            values == sponge_values(p, iv@, block_lins(blocks@), lins(expected@)),
            r@.len() == 4 * j,
            forall|k: int| 0 <= k < r@.len() ==> term_views((#[trigger] r@[k]).terms@) == terms[k],
            forall|k: int| 0 <= k < r@.len() ==> (#[trigger] r@[k]).value@ == values[k],
            forall|n: nat, k: int|
                blocks_below(blocks@, n) && 0 <= k < r@.len() ==> #[trigger] claim_below(r@[k], n),
        decreases blocks@.len() - j,
    {
        let mut lane: usize = 0;
        while lane < 4
            invariant
                lane <= 4,
                j < blocks@.len(),
                p == t@,
                p.rounds() < 128,
                count == blocks@.len(),
                expected@.len() <= 4,
                9 <= num_vars < usize::BITS,
                slot_offset + blocks@.len() <= pow2((num_vars - 9) as nat),
                pow2((num_vars - 9) as nat) <= usize::MAX,
                terms == sponge_terms(p, count, expected@.len(), slot_offset as nat),
                values == sponge_values(p, iv@, block_lins(blocks@), lins(expected@)),
                r@.len() == 4 * j + lane,
                forall|k: int|
                    0 <= k < r@.len() ==> term_views((#[trigger] r@[k]).terms@) == terms[k],
                forall|k: int| 0 <= k < r@.len() ==> (#[trigger] r@[k]).value@ == values[k],
                forall|n: nat, k: int|
                    blocks_below(blocks@, n) && 0 <= k < r@.len() ==> #[trigger] claim_below(
                        r@[k],
                        n,
                    ),
            decreases 4 - lane,
        {
            let ghost before = r@;
            let c = chain_claim(t, iv, &blocks[j], slot_offset + j, lane, j == 0, num_vars);
            r.push(c);
            proof {
                let at = 4 * j + lane;
                assert(at / 4 == j && at % 4 == lane as int);
                assert(block_lins(blocks@)[j as int] == lins(blocks@[j as int]@));
                assert forall|n: nat, k: int|
                    blocks_below(blocks@, n) && 0 <= k < r@.len() implies #[trigger] claim_below(
                    r@[k],
                    n,
                ) by {
                    if k < at {
                        assert(r@[k] == before[k]);
                        assert(claim_below(before[k], n));
                    } else {
                        assert(all_below(lins(blocks@[j as int]@), n));
                    }
                }
            }
            lane += 1;
        }
        j += 1;
    }
    let last: usize = slot_offset + blocks.len() - 1;
    let mut lane: usize = 0;
    while lane < expected.len()
        invariant
            lane <= expected@.len(),
            expected@.len() <= 4,
            p == t@,
            p.rounds() == t.rc@.len(),
            p.rounds() < 128,
            count == blocks@.len(),
            last == slot_offset + count - 1,
            9 <= num_vars < usize::BITS,
            last < pow2((num_vars - 9) as nat),
            terms == sponge_terms(p, count, expected@.len(), slot_offset as nat),
            values == sponge_values(p, iv@, block_lins(blocks@), lins(expected@)),
            r@.len() == 4 * count + lane,
            forall|k: int| 0 <= k < r@.len() ==> term_views((#[trigger] r@[k]).terms@) == terms[k],
            forall|k: int| 0 <= k < r@.len() ==> (#[trigger] r@[k]).value@ == values[k],
            forall|n: nat, k: int|
                blocks_below(blocks@, n) && all_below(lins(expected@), n) && 0 <= k < r@.len()
                    ==> #[trigger] claim_below(r@[k], n),
        decreases expected@.len() - lane,
    {
        let ghost before = r@;
        let mut own: Vec<LinearEvalTermTrace> = Vec::new();
        own.push(state_term(num_vars, last, t.rc.len(), lane, LinExpr::constant(F128::one())));
        let c = LinearEvalClaimTrace { terms: own, value: expected[lane].dup() };
        r.push(c);
        proof {
            let at = 4 * count + lane;
            assert(term_views(own@) =~= terms[at]);
            assert forall|n: nat, k: int|
                blocks_below(blocks@, n) && all_below(lins(expected@), n) && 0 <= k
                    < r@.len() implies #[trigger] claim_below(r@[k], n) by {
                if k < at {
                    assert(r@[k] == before[k]);
                    assert(claim_below(before[k], n));
                } else {
                    assert(lins(expected@)[lane as int].below(n));
                }
            }
        }
        lane += 1;
    }
    proof {
        assert(linear_terms(r@) =~= terms);
        assert(linear_values(r@) =~= values);
        assert forall|n: nat|
            blocks_below(blocks@, n) && #[trigger] all_below(lins(expected@), n) implies linear_ok(
            r@,
            n,
        ) by {
            assert forall|k: int| 0 <= k < r@.len() implies terms_below(
                (#[trigger] r@[k]).terms@,
                n,
            ) && r@[k].value@.below(n) by {
                assert(claim_below(r@[k], n));
            }
        }
    }
    r
}

pub proof fn lemma_blocks_grow(blocks: Seq<[LinExpr; 2]>, m: nat, n: nat)
    requires
        blocks_below(blocks, m),
        m <= n,
    ensures
        blocks_below(blocks, n),
{
    assert forall|i: int| 0 <= i < blocks.len() implies all_below(
        lins((#[trigger] blocks[i])@),
        n,
    ) by {
        crate::eval_gadgets::lemma_below_grow(lins(blocks[i]@), m, n);
    }
}

} // verus!
