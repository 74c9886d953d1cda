//! Relations of paired Merkle-update columns.
//!
//! The consistency relation holds direction bits to bits, bridge cells to the
//! digests they carry, and the copies of siblings and directions to one
//! another. The substitution relation holds the walk's first layer to the
//! two-permutation compression of each level.

use vstd::prelude::*;
use crate::field::{
    group_field_units, lemma_plus_assoc, lemma_plus_is_zero, lemma_times_assoc, lemma_times_comm,
    lemma_times_plus, F128,
};
use crate::paired_merkle_update::{path_root, slot_cells, SlotCells, Update, PAIRED_UPDATE_STRIDE};
use crate::poseidon::{compressed, dot, mds, permuted, Permutation, PoseidonTables};
use crate::relations::{
    cell, equation_holds, factors_at, mixed, power, product_at, products, push_equation, push_term,
    residual, ColRef, ColumnTable, Equation, FixedPattern, Product, RelationTerm,
};

verus! {

/// Where the columns and tables of paired updates are.
#[derive(Clone, Copy, Debug, PartialEq, Eq)]
pub struct PairedMerkleUpdateRefs {
    pub c: [usize; 4],
    pub e: [usize; 2],
    pub sib: [usize; 2],
    pub d: usize,
    pub even: usize,
    pub even_start: usize,
    pub even_nonstart: usize,
    pub odd: usize,
    pub odd_start: usize,
    pub odd_nonstart: usize,
    pub old_even: usize,
    pub copy_step: usize,
    pub bridge: usize,
    pub iv: [usize; 2],
}

/// References to nine columns and eleven tables from two bases.
pub open spec fn refs_at(r: PairedMerkleUpdateRefs, committed: int, fixed: int) -> bool {
    &&& r.c@ == Seq::new(4, |i: int| (committed + i) as usize)
    &&& r.e@ == Seq::new(2, |i: int| (committed + 4 + i) as usize)
    &&& r.sib@ == Seq::new(2, |i: int| (committed + 6 + i) as usize)
    &&& r.d == committed + 8
    &&& r.even == fixed
    &&& r.even_start == fixed + 1
    &&& r.even_nonstart == fixed + 2
    &&& r.odd == fixed + 3
    &&& r.odd_start == fixed + 4
    &&& r.odd_nonstart == fixed + 5
    &&& r.old_even == fixed + 6
    &&& r.copy_step == fixed + 7
    &&& r.bridge == fixed + 8
    &&& r.iv@ == Seq::new(2, |i: int| (fixed + 9 + i) as usize)
}

/// References to nine columns and eleven tables from two bases.
pub fn paired_merkle_update_refs(committed_base: usize, fixed_base: usize) -> (r:
    PairedMerkleUpdateRefs)
    requires
        committed_base <= usize::MAX - 8,
        fixed_base <= usize::MAX - 10,
    ensures
        refs_at(r, committed_base as int, fixed_base as int),
{
    let r = PairedMerkleUpdateRefs {
        c: [committed_base, committed_base + 1, committed_base + 2, committed_base + 3],
        e: [committed_base + 4, committed_base + 5],
        sib: [committed_base + 6, committed_base + 7],
        d: committed_base + 8,
        even: fixed_base,
        even_start: fixed_base + 1,
        even_nonstart: fixed_base + 2,
        odd: fixed_base + 3,
        odd_start: fixed_base + 4,
        odd_nonstart: fixed_base + 5,
        old_even: fixed_base + 6,
        copy_step: fixed_base + 7,
        bridge: fixed_base + 8,
        iv: [fixed_base + 9, fixed_base + 10],
    };
    assert(r.c@ =~= Seq::new(4, |i: int| (committed_base + i) as usize));
    assert(r.e@ =~= Seq::new(2, |i: int| (committed_base + 4 + i) as usize));
    assert(r.sib@ =~= Seq::new(2, |i: int| (committed_base + 6 + i) as usize));
    assert(r.iv@ =~= Seq::new(2, |i: int| (fixed_base + 9 + i) as usize));
    r
}

/// Whether a selector table marks a slot of an update. The selectors are, in
/// order: even slots, those of the first level, the others; odd slots, those of
/// the first level, the others; the first slot of a level; the other slots of a
/// level; the slots that carry a digest.
pub open spec fn marks(table: int, local: int) -> bool {
    let start = local / 4 == 0;
    let role = local % 4;
    if table == 0 {
        local % 2 == 0
    } else if table == 1 {
        local % 2 == 0 && start
    } else if table == 2 {
        local % 2 == 0 && !start
    } else if table == 3 {
        local % 2 == 1
    } else if table == 4 {
        local % 2 == 1 && start
    } else if table == 5 {
        local % 2 == 1 && !start
    } else if table == 6 {
        role == 0
    } else if table == 7 {
        role != 0
    } else {
        role == 3 || (role == 1 && !start)
    }
}

/// What a table holds at a slot of an update.
pub open spec fn table_cell(table: int, iv: Seq<F128>, local: int) -> F128 {
    if table < 9 {
        F128::of_bool(marks(table, local))
    } else if local % 2 == 0 {
        iv[table - 9]
    } else {
        F128::zero()
    }
}

/// A table of one update's slots.
pub open spec fn table_of(table: int, iv: Seq<F128>) -> Seq<F128> {
    Seq::new(64, |i: int| table_cell(table, iv, i))
}

fn marks_slot(table: usize, local: usize) -> (r: bool)
    ensures
        r == marks(table as int, local as int),
{
    let start = local / 4 == 0;
    let role: usize = local % 4;
    let even = local % 2 == 0;
    if table == 0 {
        even
    } else if table == 1 {
        even && start
    } else if table == 2 {
        even && !start
    } else if table == 3 {
        !even
    } else if table == 4 {
        !even && start
    } else if table == 5 {
        !even && !start
    } else if table == 6 {
        role == 0
    } else if table == 7 {
        role != 0
    } else {
        role == 3 || (role == 1 && !start)
    }
}

/// The tables of the relations. They depend on nothing but the capacity value.
pub fn paired_merkle_update_fixed_patterns(iv_flat: [F128; 2]) -> (r: Vec<FixedPattern>)
    ensures
        r@.len() == 11,
        forall|k: int|
            0 <= k < 11 ==> (#[trigger] r@[k]).log_period == 6 && r@[k].table@ == table_of(
                k,
                iv_flat@,
            ),
{
    let mut r: Vec<FixedPattern> = Vec::new();
    while r.len() < 11
        invariant
            r@.len() <= 11,
            forall|k: int|
                0 <= k < r@.len() ==> (#[trigger] r@[k]).log_period == 6 && r@[k].table@
                    == table_of(k, iv_flat@),
        decreases 11 - r@.len(),
    {
        let k: usize = r.len();
        let mut table: Vec<F128> = Vec::new();
        while table.len() < PAIRED_UPDATE_STRIDE
            invariant
                k < 11,
                table@.len() <= 64,
                forall|i: int|
                    0 <= i < table@.len() ==> #[trigger] table@[i] == table_cell(
                        k as int,
                        iv_flat@,
                        i,
                    ),
            decreases 64 - table@.len(),
        {
            let local: usize = table.len();
            let value = if k < 9 {
                F128::from_bool(marks_slot(k, local))
            } else if local % 2 == 0 {
                iv_flat[k - 9]
            } else {
                F128::zero()
            };
            table.push(value);
        }
        assert(table@ =~= table_of(k as int, iv_flat@));
        r.push(FixedPattern { log_period: 6, table });
    }
    r
}

// ---------------------------------------------------------------------------
// Consistency
// ---------------------------------------------------------------------------

/// The equations of the consistency relation.
pub open spec fn consistency(r: PairedMerkleUpdateRefs) -> Seq<Equation> {
    let (old, bridge, copy) = (
        ColRef::Fixed(r.old_even),
        ColRef::Fixed(r.bridge),
        ColRef::Fixed(r.copy_step),
    );
    let d = ColRef::Committed(r.d);
    seq![
        Equation { left: seq![old, d, d], right: seq![old, d] },
        Equation {
            left: seq![bridge, ColRef::Committed(r.e@[0])],
            right: seq![bridge, ColRef::CommittedShift2(r.c@[0])],
        },
        Equation {
            left: seq![bridge, ColRef::Committed(r.e@[1])],
            right: seq![bridge, ColRef::CommittedShift2(r.c@[1])],
        },
        Equation {
            left: seq![copy, ColRef::Committed(r.sib@[0])],
            right: seq![copy, ColRef::CommittedShift(r.sib@[0])],
        },
        Equation {
            left: seq![copy, ColRef::Committed(r.sib@[1])],
            right: seq![copy, ColRef::CommittedShift(r.sib@[1])],
        },
        Equation { left: seq![copy, d], right: seq![copy, ColRef::CommittedShift(r.d)] },
    ]
}

/// The consistency relation, its equations mixed by powers of `mix`.
pub fn paired_merkle_update_consistency_terms(refs: &PairedMerkleUpdateRefs, mix: F128) -> (r: Vec<
    RelationTerm,
>)
    ensures
        products(r@) == mixed(consistency(*refs), mix, 6),
{
    let mut terms: Vec<RelationTerm> = Vec::new();
    let (old, bridge, copy) = (
        ColRef::Fixed(refs.old_even),
        ColRef::Fixed(refs.bridge),
        ColRef::Fixed(refs.copy_step),
    );
    let d = ColRef::Committed(refs.d);
    let ghost eqs = consistency(*refs);
    reveal_with_fuel(mixed, 7);
    reveal_with_fuel(power, 7);
    assert(products(terms@) =~= mixed(eqs, mix, 0));
    let mut weight = F128::one();
    let (l0, r0) = (vec![old, d, d], vec![old, d]);
    assert(l0@ =~= eqs[0].left && r0@ =~= eqs[0].right);
    push_equation(&mut terms, weight, l0, r0);
    assert(products(terms@) == mixed(eqs, mix, 1));
    weight = weight.mul(mix);
    let mut lane: usize = 0;
    while lane < 2
        invariant
            lane <= 2,
            eqs == consistency(*refs),
            bridge == ColRef::Fixed(refs.bridge),
            weight == power(mix, (lane + 1) as nat),
            products(terms@) == mixed(eqs, mix, (lane + 1) as nat),
        decreases 2 - lane,
    {
        let l = vec![bridge, ColRef::Committed(refs.e[lane])];
        let r = vec![bridge, ColRef::CommittedShift2(refs.c[lane])];
        assert(l@ =~= eqs[lane + 1].left && r@ =~= eqs[lane + 1].right);
        push_equation(&mut terms, weight, l, r);
        weight = weight.mul(mix);
        lane += 1;
    }
    lane = 0;
    while lane < 2
        invariant
            lane <= 2,
            eqs == consistency(*refs),
            copy == ColRef::Fixed(refs.copy_step),
            weight == power(mix, (lane + 3) as nat),
            products(terms@) == mixed(eqs, mix, (lane + 3) as nat),
        decreases 2 - lane,
    {
        let l = vec![copy, ColRef::Committed(refs.sib[lane])];
        let r = vec![copy, ColRef::CommittedShift(refs.sib[lane])];
        assert(l@ =~= eqs[lane + 3].left && r@ =~= eqs[lane + 3].right);
        push_equation(&mut terms, weight, l, r);
        weight = weight.mul(mix);
        lane += 1;
    }
    let (l5, r5) = (vec![copy, d], vec![copy, ColRef::CommittedShift(refs.d)]);
    assert(l5@ =~= eqs[5].left && r5@ =~= eqs[5].right);
    push_equation(&mut terms, weight, l5, r5);
    terms
}

// ---------------------------------------------------------------------------
// Substitution
// ---------------------------------------------------------------------------

/// The products that give a digest lane of the permutation input.
pub open spec fn lane_factors(r: PairedMerkleUpdateRefs, lane: int) -> Seq<Seq<ColRef>> {
    let c_shift = ColRef::CommittedShift(r.c@[lane]);
    let e = ColRef::Committed(r.e@[lane]);
    let e_shift = ColRef::CommittedShift(r.e@[lane]);
    let e_shift2 = ColRef::CommittedShift2(r.e@[lane]);
    let sib = ColRef::Committed(r.sib@[lane]);
    let sib_shift = ColRef::CommittedShift(r.sib@[lane]);
    let d = ColRef::Committed(r.d);
    let d_shift = ColRef::CommittedShift(r.d);
    seq![
        seq![c_shift],
        seq![ColRef::Fixed(r.even), c_shift],
        seq![ColRef::Fixed(r.even_start), e],
        seq![ColRef::Fixed(r.even_start), d, e],
        seq![ColRef::Fixed(r.even_nonstart), e_shift],
        seq![ColRef::Fixed(r.even_nonstart), d, e_shift],
        seq![ColRef::Fixed(r.even), d, sib],
        seq![ColRef::Fixed(r.odd), sib_shift],
        seq![ColRef::Fixed(r.odd), d_shift, sib_shift],
        seq![ColRef::Fixed(r.odd_start), d_shift, e_shift],
        seq![ColRef::Fixed(r.odd_nonstart), d_shift, e_shift2],
    ]
}

/// The products that give a capacity lane of the permutation input.
pub open spec fn capacity_factors(r: PairedMerkleUpdateRefs, lane: int) -> Seq<Seq<ColRef>> {
    let c_shift = ColRef::CommittedShift(r.c@[lane]);
    seq![
        seq![c_shift],
        seq![ColRef::Fixed(r.even), c_shift],
        seq![ColRef::Fixed(r.iv@[lane - 2])],
    ]
}

pub open spec fn input_factors(r: PairedMerkleUpdateRefs, lane: int) -> Seq<Seq<ColRef>> {
    if lane < 2 {
        lane_factors(r, lane)
    } else {
        capacity_factors(r, lane)
    }
}

/// Products under one coefficient.
pub open spec fn scaled(coeff: F128, factors: Seq<Seq<ColRef>>) -> Seq<Product> {
    Seq::new(factors.len(), |i: int| Product { coeff, factors: factors[i] })
}

/// The coefficient of an input lane: a column of the matrix under the first
/// four powers of `alpha`.
pub open spec fn lane_weight(full: Seq<Seq<F128>>, alpha: F128, lane: int, n: nat) -> F128
    decreases n,
{
    if n == 0 {
        F128::zero()
    } else {
        lane_weight(full, alpha, lane, (n - 1) as nat).plus(
            power(alpha, n).times(full[n - 1][lane]),
        )
    }
}

/// The products of the first `n` input lanes.
pub open spec fn substitution(
    r: PairedMerkleUpdateRefs,
    full: Seq<Seq<F128>>,
    alpha: F128,
    n: nat,
) -> Seq<Product>
    decreases n,
{
    if n == 0 {
        Seq::empty()
    } else {
        substitution(r, full, alpha, (n - 1) as nat) + scaled(
            lane_weight(full, alpha, n - 1, 4),
            input_factors(r, n - 1),
        )
    }
}

fn lane_coefficient(tables: &PoseidonTables, alpha: F128, lane: usize) -> (r: F128)
    requires
        lane < 4,
    ensures
        r == lane_weight(tables@.full, alpha, lane as int, 4),
{
    let mut value = F128::zero();
    let mut weight = F128::one();
    let mut out: usize = 0;
    while out < 4
        invariant
            out <= 4,
            lane < 4,
            weight == power(alpha, out as nat),
            value == lane_weight(tables@.full, alpha, lane as int, out as nat),
        decreases 4 - out,
    {
        weight = weight.mul(alpha);
        assert(tables@.full[out as int] == tables.mds_full@[out as int]@);
        value = value.add(weight.mul(tables.mds_full[out][lane]));
        out += 1;
    }
    value
}

/// The substitution relation: the walk's first layer, its lanes mixed by powers
/// of `alpha`, in terms of the columns.
pub fn paired_merkle_update_substitution_terms(
    tables: &PoseidonTables,
    refs: &PairedMerkleUpdateRefs,
    alpha: F128,
) -> (r: Vec<RelationTerm>)
    ensures
        products(r@) == substitution(*refs, tables@.full, alpha, 4),
{
    let mut terms: Vec<RelationTerm> = Vec::new();
    let mut lane: usize = 0;
    assert(products(terms@) =~= substitution(*refs, tables@.full, alpha, 0));
    while lane < 4
        invariant
            lane <= 4,
            products(terms@) == substitution(*refs, tables@.full, alpha, lane as nat),
        decreases 4 - lane,
    {
        let ghost before = products(terms@);
        let ghost wanted = input_factors(*refs, lane as int);
        let m = lane_coefficient(tables, alpha, lane);
        let even = ColRef::Fixed(refs.even);
        let c_shift = ColRef::CommittedShift(refs.c[lane]);
        let (f0, f1) = (vec![c_shift], vec![even, c_shift]);
        assert(f0@ =~= wanted[0] && f1@ =~= wanted[1]);
        push_term(&mut terms, m, f0);
        push_term(&mut terms, m, f1);
        if lane < 2 {
            let e = ColRef::Committed(refs.e[lane]);
            let e_shift = ColRef::CommittedShift(refs.e[lane]);
            let e_shift2 = ColRef::CommittedShift2(refs.e[lane]);
            let sib = ColRef::Committed(refs.sib[lane]);
            let sib_shift = ColRef::CommittedShift(refs.sib[lane]);
            let d = ColRef::Committed(refs.d);
            let d_shift = ColRef::CommittedShift(refs.d);
            let (start, later) = (ColRef::Fixed(refs.even_start), ColRef::Fixed(refs.even_nonstart));
            let odd = ColRef::Fixed(refs.odd);
            let f2 = vec![start, e];
            let f3 = vec![start, d, e];
            let f4 = vec![later, e_shift];
            let f5 = vec![later, d, e_shift];
            let f6 = vec![even, d, sib];
            let f7 = vec![odd, sib_shift];
            let f8 = vec![odd, d_shift, sib_shift];
            let f9 = vec![ColRef::Fixed(refs.odd_start), d_shift, e_shift];
            let f10 = vec![ColRef::Fixed(refs.odd_nonstart), d_shift, e_shift2];
            assert(f2@ =~= wanted[2] && f3@ =~= wanted[3] && f4@ =~= wanted[4]);
            assert(f5@ =~= wanted[5] && f6@ =~= wanted[6] && f7@ =~= wanted[7]);
            assert(f8@ =~= wanted[8] && f9@ =~= wanted[9] && f10@ =~= wanted[10]);
            push_term(&mut terms, m, f2);
            push_term(&mut terms, m, f3);
            push_term(&mut terms, m, f4);
            push_term(&mut terms, m, f5);
            push_term(&mut terms, m, f6);
            push_term(&mut terms, m, f7);
            push_term(&mut terms, m, f8);
            push_term(&mut terms, m, f9);
            push_term(&mut terms, m, f10);
        } else {
            let f2 = vec![ColRef::Fixed(refs.iv[lane - 2])];
            assert(f2@ =~= wanted[2]);
            push_term(&mut terms, m, f2);
        }
        assert(products(terms@) =~= before + scaled(m, wanted));
        lane += 1;
    }
    terms
}

// ---------------------------------------------------------------------------
// What the relations say
// ---------------------------------------------------------------------------

/// The tables are where the references say.
pub open spec fn tables_at(t: ColumnTable, r: PairedMerkleUpdateRefs, iv: Seq<F128>) -> bool {
    &&& iv.len() == 2
    &&& t.fixed[r.even as int] == table_of(0, iv)
    &&& t.fixed[r.even_start as int] == table_of(1, iv)
    &&& t.fixed[r.even_nonstart as int] == table_of(2, iv)
    &&& t.fixed[r.odd as int] == table_of(3, iv)
    &&& t.fixed[r.odd_start as int] == table_of(4, iv)
    &&& t.fixed[r.odd_nonstart as int] == table_of(5, iv)
    &&& t.fixed[r.old_even as int] == table_of(6, iv)
    &&& t.fixed[r.copy_step as int] == table_of(7, iv)
    &&& t.fixed[r.bridge as int] == table_of(8, iv)
    &&& t.fixed[r.iv@[0] as int] == table_of(9, iv)
    &&& t.fixed[r.iv@[1] as int] == table_of(10, iv)
}

/// One of two values by a bit.
pub open spec fn select(d: F128, unset: F128, set: F128) -> F128 {
    unset.plus(d.times(unset)).plus(d.times(set))
}

pub open spec fn col_c(t: ColumnTable, r: PairedMerkleUpdateRefs, lane: int, slot: int) -> F128 {
    t.committed[r.c@[lane] as int][slot]
}

pub open spec fn col_e(t: ColumnTable, r: PairedMerkleUpdateRefs, lane: int, slot: int) -> F128 {
    t.committed[r.e@[lane] as int][slot]
}

pub open spec fn col_sib(t: ColumnTable, r: PairedMerkleUpdateRefs, lane: int, slot: int) -> F128 {
    t.committed[r.sib@[lane] as int][slot]
}

pub open spec fn col_d(t: ColumnTable, r: PairedMerkleUpdateRefs, slot: int) -> F128 {
    t.committed[r.d as int][slot]
}

/// Where the digest that a slot compresses is held.
pub open spec fn digest_slot(slot: int) -> int {
    let local = slot % 64;
    if local % 2 == 0 {
        if local / 4 == 0 {
            slot
        } else {
            slot - 1
        }
    } else if local / 4 == 0 {
        slot - 1
    } else {
        slot - 2
    }
}

/// A lane of a slot's permutation input, as the columns give it.
pub open spec fn input_lane(
    t: ColumnTable,
    r: PairedMerkleUpdateRefs,
    iv: Seq<F128>,
    slot: int,
    lane: int,
) -> F128 {
    let at = digest_slot(slot);
    if slot % 2 == 0 {
        if lane < 2 {
            select(col_d(t, r, slot), col_e(t, r, lane, at), col_sib(t, r, lane, slot))
        } else {
            iv[lane - 2]
        }
    } else if lane < 2 {
        col_c(t, r, lane, slot - 1).plus(
            select(col_d(t, r, slot - 1), col_sib(t, r, lane, slot - 1), col_e(t, r, lane, at)),
        )
    } else {
        col_c(t, r, lane, slot - 1)
    }
}

/// A slot's permutation input, as the columns give it.
pub open spec fn input_at(
    t: ColumnTable,
    r: PairedMerkleUpdateRefs,
    iv: Seq<F128>,
    slot: int,
) -> Seq<F128> {
    Seq::new(4, |lane: int| input_lane(t, r, iv, slot, lane))
}

/// The sum of products of cells.
pub open spec fn factor_sum(t: ColumnTable, fs: Seq<Seq<ColRef>>, slot: int, n: nat) -> F128
    decreases n,
{
    if n == 0 {
        F128::zero()
    } else {
        factor_sum(t, fs, slot, (n - 1) as nat).plus(factors_at(t, fs[n - 1], slot))
    }
}

proof fn lemma_scaled(t: ColumnTable, m: F128, fs: Seq<Seq<ColRef>>, slot: int, n: nat)
    requires
        n <= fs.len(),
    ensures
        crate::relations::sum_at(t, scaled(m, fs), slot, n) == m.times(
            factor_sum(t, fs, slot, n),
        ),
    decreases n,
{
    broadcast use group_field_units;

    if n > 0 {
        lemma_scaled(t, m, fs, slot, (n - 1) as nat);
        crate::relations::lemma_product(t, m, fs[n - 1], slot);
        lemma_times_plus(m, factor_sum(t, fs, slot, (n - 1) as nat), factors_at(t, fs[n - 1], slot));
    }
}

proof fn lemma_sum_concat(t: ColumnTable, a: Seq<Product>, b: Seq<Product>, slot: int, n: nat)
    requires
        n <= b.len(),
    ensures
        crate::relations::sum_at(t, a + b, slot, a.len() + n) == residual(t, a, slot).plus(
            crate::relations::sum_at(t, b, slot, n),
        ),
    decreases n,
{
    broadcast use group_field_units;

    if n == 0 {
        crate::relations::lemma_sum_prefix(t, a + b, a, slot, a.len());
    } else {
        let k = (n - 1) as nat;
        lemma_sum_concat(t, a, b, slot, k);
        assert((a + b)[a.len() + n - 1] == b[n - 1]);
        lemma_plus_assoc(
            residual(t, a, slot),
            crate::relations::sum_at(t, b, slot, k),
            product_at(t, b[n - 1], slot, b[n - 1].factors.len()),
        );
    }
}

proof fn lemma_cell_fixed(t: ColumnTable, k: usize, table: int, iv: Seq<F128>, slot: int)
    requires
        t.fixed[k as int] == table_of(table, iv),
        slot >= 0,
    ensures
        cell(t, ColRef::Fixed(k), slot) == table_cell(table, iv, slot % 64),
{
}

/// The products of a digest lane add up to that lane of the input.
proof fn lemma_digest_lane(
    t: ColumnTable,
    r: PairedMerkleUpdateRefs,
    iv: Seq<F128>,
    slot: int,
    lane: int,
)
    requires
        tables_at(t, r, iv),
        slot >= 0,
        0 <= lane < 2,
    ensures
        factor_sum(t, lane_factors(r, lane), slot, 11) == input_lane(t, r, iv, slot, lane),
{
    broadcast use {group_field_units, lemma_plus_is_zero};

    let fs = lane_factors(r, lane);
    lemma_cell_fixed(t, r.even, 0, iv, slot);
    lemma_cell_fixed(t, r.even_start, 1, iv, slot);
    lemma_cell_fixed(t, r.even_nonstart, 2, iv, slot);
    lemma_cell_fixed(t, r.odd, 3, iv, slot);
    lemma_cell_fixed(t, r.odd_start, 4, iv, slot);
    lemma_cell_fixed(t, r.odd_nonstart, 5, iv, slot);
    reveal_with_fuel(factor_sum, 12);
    reveal_with_fuel(product_at, 4);
    assert(slot % 2 == (slot % 64) % 2);
    let c = cell(t, ColRef::CommittedShift(r.c@[lane]), slot);
    if slot % 2 == 0 {
        assert(c.plus(c) == F128::zero());
    } else {
        let (s, d) = (
            cell(t, ColRef::CommittedShift(r.sib@[lane]), slot),
            cell(t, ColRef::CommittedShift(r.d), slot),
        );
        let x = if slot % 64 / 4 == 0 {
            cell(t, ColRef::CommittedShift(r.e@[lane]), slot)
        } else {
            cell(t, ColRef::CommittedShift2(r.e@[lane]), slot)
        };
        assert(factor_sum(t, fs, slot, 11) == c.plus(s).plus(d.times(s)).plus(d.times(x)));
        lemma_plus_assoc(c, s, d.times(s));
        lemma_plus_assoc(c, s.plus(d.times(s)), d.times(x));
    }
}

/// The products of a capacity lane add up to that lane of the input.
proof fn lemma_capacity_lane(
    t: ColumnTable,
    r: PairedMerkleUpdateRefs,
    iv: Seq<F128>,
    slot: int,
    lane: int,
)
    requires
        tables_at(t, r, iv),
        slot >= 0,
        2 <= lane < 4,
    ensures
        factor_sum(t, capacity_factors(r, lane), slot, 3) == input_lane(t, r, iv, slot, lane),
{
    broadcast use {group_field_units, lemma_plus_is_zero};

    lemma_cell_fixed(t, r.even, 0, iv, slot);
    lemma_cell_fixed(t, r.iv@[lane - 2], lane + 7, iv, slot);
    reveal_with_fuel(factor_sum, 4);
    reveal_with_fuel(product_at, 4);
    assert(slot % 2 == (slot % 64) % 2);
}

/// The products of a lane add up to that lane of the input.
pub proof fn lemma_input_lane(
    t: ColumnTable,
    r: PairedMerkleUpdateRefs,
    iv: Seq<F128>,
    slot: int,
    lane: int,
)
    requires
        tables_at(t, r, iv),
        slot >= 0,
        0 <= lane < 4,
    ensures
        factor_sum(t, input_factors(r, lane), slot, input_factors(r, lane).len()) == input_lane(
            t,
            r,
            iv,
            slot,
            lane,
        ),
{
    if lane < 2 {
        lemma_digest_lane(t, r, iv, slot, lane);
    } else {
        lemma_capacity_lane(t, r, iv, slot, lane);
    }
}

/// The sum of the first `n` lanes of a state under powers of an element.
pub open spec fn mixed_lanes(alpha: F128, s: Seq<F128>, n: nat) -> F128
    decreases n,
{
    if n == 0 {
        F128::zero()
    } else {
        mixed_lanes(alpha, s, (n - 1) as nat).plus(power(alpha, n).times(s[n - 1]))
    }
}

/// The first `n` lanes under their weights.
spec fn weighted_lanes(full: Seq<Seq<F128>>, alpha: F128, s: Seq<F128>, n: nat, m: nat) -> F128
    decreases n,
{
    if n == 0 {
        F128::zero()
    } else {
        weighted_lanes(full, alpha, s, (n - 1) as nat, m).plus(
            lane_weight(full, alpha, n - 1, m).times(s[n - 1]),
        )
    }
}

proof fn lemma_weights_step(full: Seq<Seq<F128>>, alpha: F128, s: Seq<F128>, n: nat, m: nat)
    requires
        m > 0,
    ensures
        weighted_lanes(full, alpha, s, n, m) == weighted_lanes(
            full,
            alpha,
            s,
            n,
            (m - 1) as nat,
        ).plus(power(alpha, m).times(dot(full[m - 1], s, n))),
    decreases n,
{
    broadcast use group_field_units;

    if n > 0 {
        let k = (n - 1) as nat;
        lemma_weights_step(full, alpha, s, k, m);
        let a = power(alpha, m);
        let row = full[m - 1];
        let x = s[n - 1];
        let w = lane_weight(full, alpha, n - 1, (m - 1) as nat);
        lemma_times_comm(w.plus(a.times(row[n - 1])), x);
        lemma_times_plus(x, w, a.times(row[n - 1]));
        lemma_times_comm(x, w);
        lemma_times_comm(x, a.times(row[n - 1]));
        lemma_times_assoc(a, row[n - 1], x);
        lemma_times_comm(row[n - 1], x);
        lemma_times_plus(a, dot(row, s, k), x.times(row[n - 1]));
        crate::field::lemma_plus_swap(
            weighted_lanes(full, alpha, s, k, (m - 1) as nat),
            a.times(dot(row, s, k)),
            w.times(x),
            a.times(x.times(row[n - 1])),
        );
    }
}

proof fn lemma_weights(full: Seq<Seq<F128>>, alpha: F128, s: Seq<F128>, m: nat)
    requires
        m <= 4,
    ensures
        weighted_lanes(full, alpha, s, 4, m) == mixed_lanes(alpha, mds(full, s), m),
    decreases m,
{
    broadcast use group_field_units;

    if m > 0 {
        lemma_weights(full, alpha, s, (m - 1) as nat);
        lemma_weights_step(full, alpha, s, 4, m);
    } else {
        reveal_with_fuel(weighted_lanes, 5);
        assert(forall|l: int| #[trigger] lane_weight(full, alpha, l, 0) == F128::zero());
    }
}

proof fn lemma_substitution_lanes(
    t: ColumnTable,
    r: PairedMerkleUpdateRefs,
    full: Seq<Seq<F128>>,
    iv: Seq<F128>,
    alpha: F128,
    slot: int,
    n: nat,
)
    requires
        tables_at(t, r, iv),
        slot >= 0,
        n <= 4,
    ensures
        residual(t, substitution(r, full, alpha, n), slot) == weighted_lanes(
            full,
            alpha,
            input_at(t, r, iv, slot),
            n,
            4,
        ),
    decreases n,
{
    if n > 0 {
        let lane = n - 1;
        lemma_substitution_lanes(t, r, full, iv, alpha, slot, (n - 1) as nat);
        let fs = input_factors(r, lane);
        let m = lane_weight(full, alpha, lane, 4);
        let before = substitution(r, full, alpha, (n - 1) as nat);
        lemma_scaled(t, m, fs, slot, fs.len());
        lemma_sum_concat(t, before, scaled(m, fs), slot, fs.len());
        if lane < 2 {
            lemma_digest_lane(t, r, iv, slot, lane);
        } else {
            lemma_capacity_lane(t, r, iv, slot, lane);
        }
    }
}

/// At every slot the substitution relation is the first layer of the walk of
/// the input that the columns give, its lanes mixed by powers of `alpha`.
pub proof fn lemma_substitution_residual(
    t: ColumnTable,
    r: PairedMerkleUpdateRefs,
    p: Permutation,
    iv: Seq<F128>,
    alpha: F128,
    slot: int,
)
    requires
        tables_at(t, r, iv),
        slot >= 0,
    ensures
        residual(t, substitution(r, p.full, alpha, 4), slot) == mixed_lanes(
            alpha,
            mds(p.full, input_at(t, r, iv, slot)),
            4,
        ),
{
    lemma_substitution_lanes(t, r, p.full, iv, alpha, slot, 4);
    lemma_weights(p.full, alpha, input_at(t, r, iv, slot), 4);
}

/// What consistency means at a slot: a direction bit where a level starts,
/// copies of the siblings and of the direction after it, and the digests that
/// bridge cells carry.
pub open spec fn slot_consistent(t: ColumnTable, r: PairedMerkleUpdateRefs, slot: int) -> bool {
    let local = slot % 64;
    &&& local % 4 == 0 ==> col_d(t, r, slot).is_bit()
    &&& local % 4 != 0 ==> col_d(t, r, slot) == col_d(t, r, slot - 1) && forall|lane: int|
        0 <= lane < 2 ==> #[trigger] col_sib(t, r, lane, slot) == col_sib(t, r, lane, slot - 1)
    &&& local % 4 == 3 || (local % 4 == 1 && local >= 4) ==> forall|lane: int|
        0 <= lane < 2 ==> #[trigger] col_e(t, r, lane, slot) == col_c(t, r, lane, slot - 2)
}

/// Every equation of the consistency relation holds at a slot exactly where the
/// slot is consistent.
pub proof fn lemma_consistency(
    t: ColumnTable,
    r: PairedMerkleUpdateRefs,
    iv: Seq<F128>,
    slot: int,
)
    requires
        tables_at(t, r, iv),
        slot >= 0,
    ensures
        (forall|k: int| 0 <= k < 6 ==> equation_holds(t, #[trigger] consistency(r)[k], slot))
            <==> slot_consistent(t, r, slot),
{
    broadcast use {group_field_units, lemma_plus_is_zero};

    lemma_cell_fixed(t, r.old_even, 6, iv, slot);
    lemma_cell_fixed(t, r.copy_step, 7, iv, slot);
    lemma_cell_fixed(t, r.bridge, 8, iv, slot);
    reveal_with_fuel(product_at, 4);
    crate::field::lemma_square_fixed(col_d(t, r, slot));
    let e = consistency(r);
    let local = slot % 64;
    if slot_consistent(t, r, slot) {
        if local % 4 != 0 {
            assert(col_sib(t, r, 0, slot) == col_sib(t, r, 0, slot - 1));
            assert(col_sib(t, r, 1, slot) == col_sib(t, r, 1, slot - 1));
        }
        if local % 4 == 3 || (local % 4 == 1 && local >= 4) {
            assert(col_e(t, r, 0, slot) == col_c(t, r, 0, slot - 2));
            assert(col_e(t, r, 1, slot) == col_c(t, r, 1, slot - 2));
        }
        assert(equation_holds(t, e[0], slot));
        assert(equation_holds(t, e[1], slot));
        assert(equation_holds(t, e[2], slot));
        assert(equation_holds(t, e[3], slot));
        assert(equation_holds(t, e[4], slot));
        assert(equation_holds(t, e[5], slot));
    }
    if forall|k: int| 0 <= k < 6 ==> equation_holds(t, #[trigger] e[k], slot) {
        assert(equation_holds(t, e[0], slot));
        assert(equation_holds(t, e[1], slot));
        assert(equation_holds(t, e[2], slot));
        assert(equation_holds(t, e[3], slot));
        assert(equation_holds(t, e[4], slot));
        assert(equation_holds(t, e[5], slot));
    }
}

/// The update that the columns hold from a slot on.
pub open spec fn held_update(t: ColumnTable, r: PairedMerkleUpdateRefs, base: int) -> Update {
    Update {
        old_entry: seq![col_e(t, r, 0, base), col_e(t, r, 1, base)],
        new_entry: seq![col_e(t, r, 0, base + 2), col_e(t, r, 1, base + 2)],
        siblings: Seq::new(
            16,
            |i: int| seq![col_sib(t, r, 0, base + 4 * i), col_sib(t, r, 1, base + 4 * i)],
        ),
        directions: Seq::new(16, |i: int| col_d(t, r, base + 4 * i) == F128::one()),
    }
}

/// A slot's state is the permutation of the input that the columns give.
pub open spec fn slot_walked(
    t: ColumnTable,
    r: PairedMerkleUpdateRefs,
    p: Permutation,
    iv: Seq<F128>,
    slot: int,
) -> bool {
    forall|lane: int|
        0 <= lane < 4 ==> #[trigger] col_c(t, r, lane, slot) == permuted(
            p,
            input_at(t, r, iv, slot),
        )[lane]
}

pub open spec fn digest_at(t: ColumnTable, r: PairedMerkleUpdateRefs, slot: int) -> Seq<F128> {
    seq![col_c(t, r, 0, slot), col_c(t, r, 1, slot)]
}

proof fn lemma_select(d: F128, a: F128, b: F128)
    requires
        d.is_bit(),
    ensures
        select(d, a, b) == if d == F128::one() {
            b
        } else {
            a
        },
{
    broadcast use {group_field_units, lemma_plus_is_zero};

}

/// One level of one chain: where the digest cell holds the carried digest, the
/// odd slot holds its parent.
proof fn lemma_level_walk(
    t: ColumnTable,
    r: PairedMerkleUpdateRefs,
    p: Permutation,
    iv: Seq<F128>,
    base: int,
    level: int,
    new: bool,
    current: Seq<F128>,
)
    requires
        iv.len() == 2,
        base >= 0,
        base % 64 == 0,
        0 <= level < 16,
        forall|s: int| base <= s < base + 64 ==> #[trigger] slot_consistent(t, r, s),
        forall|s: int| base <= s < base + 64 ==> #[trigger] slot_walked(t, r, p, iv, s),
        current.len() == 2,
        ({
            let even = base + 4 * level + if new {
                2int
            } else {
                0
            };
            let at = digest_slot(even);
            current[0] == col_e(t, r, 0, at) && current[1] == col_e(t, r, 1, at)
        }),
    ensures
        ({
            let odd = base + 4 * level + if new {
                3int
            } else {
                1
            };
            let u = held_update(t, r, base);
            digest_at(t, r, odd) == crate::paired_merkle_update::parent(
                p,
                iv,
                current,
                u.siblings[level],
                u.directions[level],
            )
        }),
{
    let start = base + 4 * level;
    let even = start + if new {
        2int
    } else {
        0
    };
    let odd = even + 1;
    assert(start % 64 == 4 * level);
    assert((start + 1) % 64 == 4 * level + 1);
    assert((start + 2) % 64 == 4 * level + 2);
    assert((start + 3) % 64 == 4 * level + 3);
    assert((4 * level) / 4 == level && (4 * level + 1) / 4 == level && (4 * level + 2) / 4 == level
        && (4 * level + 3) / 4 == level);
    assert(even % 2 == 0 && odd % 2 == 1);
    assert(slot_consistent(t, r, start));
    assert(slot_consistent(t, r, start + 1));
    assert(slot_consistent(t, r, start + 2));
    assert(slot_consistent(t, r, start + 3));
    assert(col_sib(t, r, 0, start + 1) == col_sib(t, r, 0, start));
    assert(col_sib(t, r, 1, start + 1) == col_sib(t, r, 1, start));
    assert(col_sib(t, r, 0, start + 2) == col_sib(t, r, 0, start + 1));
    assert(col_sib(t, r, 1, start + 2) == col_sib(t, r, 1, start + 1));
    let d = col_d(t, r, start);
    assert(col_d(t, r, even) == d);
    assert(digest_slot(odd) == digest_slot(even));
    let at = digest_slot(even);
    let u = held_update(t, r, base);
    let sib = u.siblings[level];
    let right = u.directions[level];
    assert(d == F128::one() || d == F128::zero());
    lemma_select(d, col_e(t, r, 0, at), sib[0]);
    lemma_select(d, col_e(t, r, 1, at), sib[1]);
    lemma_select(d, sib[0], col_e(t, r, 0, at));
    lemma_select(d, sib[1], col_e(t, r, 1, at));
    let (left, child) = if right {
        (sib, current)
    } else {
        (current, sib)
    };
    let first = seq![left[0], left[1], iv[0], iv[1]];
    assert(input_at(t, r, iv, even) =~= first);
    assert(slot_walked(t, r, p, iv, even));
    let s = permuted(p, first);
    assert(col_c(t, r, 0, even) == s[0]);
    assert(col_c(t, r, 1, even) == s[1]);
    assert(col_c(t, r, 2, even) == s[2]);
    assert(col_c(t, r, 3, even) == s[3]);
    let second = seq![s[0].plus(child[0]), s[1].plus(child[1]), s[2], s[3]];
    assert(input_at(t, r, iv, odd) =~= second);
    assert(slot_walked(t, r, p, iv, odd));
    assert(col_c(t, r, 0, odd) == permuted(p, second)[0]);
    assert(col_c(t, r, 1, odd) == permuted(p, second)[1]);
    assert(digest_at(t, r, odd) =~= compressed(p, iv, left, child));
}

/// Soundness: in columns whose slots are consistent and walked, the root cells
/// of an update after any number of levels are the roots of one path of
/// siblings and directions, from the old and from the new entry.
pub proof fn lemma_paired_update_sound(
    t: ColumnTable,
    r: PairedMerkleUpdateRefs,
    p: Permutation,
    iv: Seq<F128>,
    base: int,
    depth: nat,
)
    requires
        iv.len() == 2,
        base >= 0,
        base % 64 == 0,
        1 <= depth <= 16,
        forall|s: int| base <= s < base + 64 ==> #[trigger] slot_consistent(t, r, s),
        forall|s: int| base <= s < base + 64 ==> #[trigger] slot_walked(t, r, p, iv, s),
    ensures
        ({
            let u = held_update(t, r, base);
            &&& digest_at(t, r, base + 4 * (depth - 1) + 1) == path_root(
                p,
                iv,
                u.old_entry,
                u.siblings,
                u.directions,
                depth,
            )
            &&& digest_at(t, r, base + 4 * (depth - 1) + 3) == path_root(
                p,
                iv,
                u.new_entry,
                u.siblings,
                u.directions,
                depth,
            )
        }),
    decreases depth,
{
    let u = held_update(t, r, base);
    let level = depth - 1;
    let start = base + 4 * level;
    assert(start % 64 == 4 * level && (start + 2) % 64 == 4 * level + 2);
    assert((4 * level) / 4 == level && (4 * level + 2) / 4 == level);
    if depth > 1 {
        lemma_paired_update_sound(t, r, p, iv, base, (depth - 1) as nat);
        assert((start - 1) % 64 == 4 * level - 1);
        assert((4 * level - 1) % 4 == 3);
        assert((start + 1) % 64 == 4 * level + 1);
        assert((4 * level + 1) % 4 == 1);
        assert(slot_consistent(t, r, start - 1));
        assert(slot_consistent(t, r, start + 1));
        assert(col_e(t, r, 0, start - 1) == col_c(t, r, 0, start - 3));
        assert(col_e(t, r, 1, start - 1) == col_c(t, r, 1, start - 3));
        assert(col_e(t, r, 0, start + 1) == col_c(t, r, 0, start - 1));
        assert(col_e(t, r, 1, start + 1) == col_c(t, r, 1, start - 1));
    }
    let old = path_root(p, iv, u.old_entry, u.siblings, u.directions, level as nat);
    let new = path_root(p, iv, u.new_entry, u.siblings, u.directions, level as nat);
    lemma_level_walk(t, r, p, iv, base, level, false, old);
    lemma_level_walk(t, r, p, iv, base, level, true, new);
}

/// The columns at a slot are those of an update.
pub open spec fn slot_held(
    t: ColumnTable,
    r: PairedMerkleUpdateRefs,
    s: SlotCells,
    slot: int,
) -> bool {
    &&& s.c == seq![
        col_c(t, r, 0, slot),
        col_c(t, r, 1, slot),
        col_c(t, r, 2, slot),
        col_c(t, r, 3, slot),
    ]
    &&& s.e == seq![col_e(t, r, 0, slot), col_e(t, r, 1, slot)]
    &&& s.sib == seq![col_sib(t, r, 0, slot), col_sib(t, r, 1, slot)]
    &&& s.d == col_d(t, r, slot)
}

/// Completeness: where the columns hold an update, every slot of it is
/// consistent and walked.
#[verifier::rlimit(40)]
pub proof fn lemma_paired_update_honest(
    t: ColumnTable,
    r: PairedMerkleUpdateRefs,
    p: Permutation,
    iv: Seq<F128>,
    u: Update,
    base: int,
    slot: int,
)
    requires
        iv.len() == 2,
        base >= 0,
        base % 64 == 0,
        base <= slot < base + 64,
        forall|i: int|
            base <= i < base + 64 ==> slot_held(t, r, #[trigger] slot_cells(p, iv, u, i - base), i),
    ensures
        slot_consistent(t, r, slot),
        slot_walked(t, r, p, iv, slot),
{
    broadcast use {group_field_units, lemma_plus_is_zero};

    let local = slot - base;
    let level = local / 4;
    assert(slot % 64 == local);
    assert(slot_held(t, r, slot_cells(p, iv, u, slot - base), slot));
    let here = slot_cells(p, iv, u, local);
    assert(here.sib[0] == col_sib(t, r, 0, slot) && here.sib[1] == col_sib(t, r, 1, slot));
    assert(here.e[0] == col_e(t, r, 0, slot) && here.e[1] == col_e(t, r, 1, slot));
    if local >= 1 {
        assert(slot_held(t, r, slot_cells(p, iv, u, slot - 1 - base), slot - 1));
        let prev = slot_cells(p, iv, u, local - 1);
        assert(prev.sib[0] == col_sib(t, r, 0, slot - 1) && prev.sib[1] == col_sib(
            t,
            r,
            1,
            slot - 1,
        ));
        assert(prev.e[0] == col_e(t, r, 0, slot - 1) && prev.e[1] == col_e(t, r, 1, slot - 1));
        assert(prev.c[0] == col_c(t, r, 0, slot - 1) && prev.c[1] == col_c(t, r, 1, slot - 1));
        assert(prev.c[2] == col_c(t, r, 2, slot - 1) && prev.c[3] == col_c(t, r, 3, slot - 1));
        if local % 4 != 0 {
            assert((local - 1) / 4 == level);
        }
    }
    if local >= 2 {
        assert(slot_held(t, r, slot_cells(p, iv, u, slot - 2 - base), slot - 2));
        let back = slot_cells(p, iv, u, local - 2);
        assert(back.e[0] == col_e(t, r, 0, slot - 2) && back.e[1] == col_e(t, r, 1, slot - 2));
        assert(back.c[0] == col_c(t, r, 0, slot - 2) && back.c[1] == col_c(t, r, 1, slot - 2));
        if local % 4 == 3 {
            crate::paired_merkle_update::lemma_roots_at_depth(p, iv, u, (level + 1) as nat);
            assert(local - 2 == 4 * level + 1);
            assert(back.c.take(2)[0] == back.c[0] && back.c.take(2)[1] == back.c[1]);
        } else if local % 4 == 1 && level > 0 {
            crate::paired_merkle_update::lemma_roots_at_depth(p, iv, u, level as nat);
            assert(local - 2 == 4 * (level - 1) + 3);
            assert(back.c.take(2)[0] == back.c[0] && back.c.take(2)[1] == back.c[1]);
        }
    }
    assert(slot_consistent(t, r, slot));
    let raw = crate::paired_merkle_update::slot_raw(p, iv, u, local);
    let d = F128::of_bool(u.directions[level]);
    let sib = u.siblings[level];
    let current = crate::paired_merkle_update::carried(p, iv, u, local % 4 >= 2, level as nat);
    let at = digest_slot(slot);
    assert(slot % 2 == local % 2);
    lemma_held_digest(t, r, p, iv, u, base, slot);
    lemma_select(d, current[0], sib[0]);
    lemma_select(d, current[1], sib[1]);
    lemma_select(d, sib[0], current[0]);
    lemma_select(d, sib[1], current[1]);
    if local % 2 == 1 {
        assert((local - 1) / 4 == level);
        assert((local - 1) % 4 >= 2 <==> local % 4 >= 2);
    }
    assert(input_at(t, r, iv, slot) =~= raw);
    assert forall|lane: int| 0 <= lane < 4 implies #[trigger] col_c(t, r, lane, slot) == permuted(
        p,
        raw,
    )[lane] by {
        assert(here.c[lane] == col_c(t, r, lane, slot));
    }
}

/// The digest cell of a slot holds the digest that its chain carries.
proof fn lemma_held_digest(
    t: ColumnTable,
    r: PairedMerkleUpdateRefs,
    p: Permutation,
    iv: Seq<F128>,
    u: Update,
    base: int,
    slot: int,
)
    requires
        base >= 0,
        base % 64 == 0,
        base <= slot < base + 64,
        forall|i: int|
            base <= i < base + 64 ==> slot_held(t, r, #[trigger] slot_cells(p, iv, u, i - base), i),
    ensures
        ({
            let local = slot - base;
            let current = crate::paired_merkle_update::carried(
                p,
                iv,
                u,
                local % 4 >= 2,
                (local / 4) as nat,
            );
            let at = digest_slot(slot);
            current[0] == col_e(t, r, 0, at) && current[1] == col_e(t, r, 1, at)
        }),
{
    let local = slot - base;
    let level = local / 4;
    let at = digest_slot(slot);
    assert(slot % 64 == local);
    let la = at - base;
    assert(0 <= la < 64);
    assert(slot_held(t, r, slot_cells(p, iv, u, at - base), at));
    let here = slot_cells(p, iv, u, la);
    assert(here.e[0] == col_e(t, r, 0, at) && here.e[1] == col_e(t, r, 1, at));
    if level == 0 {
        assert(la / 4 == 0);
    } else if local % 4 < 2 {
        assert(la == 4 * level - 1);
        assert(la / 4 == level - 1 && la % 4 == 3);
    } else {
        assert(la == 4 * level + 1);
        assert(la / 4 == level && la % 4 == 1);
    }
}

} // verus!
