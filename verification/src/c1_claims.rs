//! Claims that the extension-field walks leave behind.
//!
//! A column relation ends in claimed values of the cells it refers to. A
//! committed cell becomes a claim about its column; a shifted one becomes a
//! claim at the point that its shift discharge yields; a walk cell becomes a
//! lane of the walk's output. Points of relations and of shift discharges come
//! from their verification.

use vstd::prelude::*;
use crate::c1_terms::{
    c1_duplex_terms, c1_merkle_substitution_terms, c1_terms, c1_walk_a_union_terms, duplex_shapes,
    mds_weights, substitution_shapes, walk_a_shapes, weighted, with_recordings, C1RelationTerm,
    DuplexFamilyRefs, MerkleProtocolFamily, Shape, SpineUnionSpec, WalkAUnion,
};
use crate::circuit::{group_circuit, lemma_prefix_trans, prefix, FieldR1csBuilder, Row};
use crate::extension::{
    ext_below, ext_evals, ext_lins, ext_mul_rows, lemma_ext_mul_past, mul_ext, ExtExpr, ExtLin,
    Extension, F256,
};
use crate::field::F128;
use crate::gadget::{
    computed, holds_past, lemma_computed_refl, lemma_computed_trans, lemma_past_split,
};
use crate::poseidon::PoseidonTables;
use crate::relations::ColRef;

verus! {

broadcast use {group_circuit, lemma_computed_trans};

/// A value of the extension, native or in the trace.
pub trait Cell: View + Sized {
    spec fn zero_view() -> Self::V;

    spec fn one_view() -> Self::V;

    spec fn base_view(x: F128) -> Self::V;

    fn copied(&self) -> (r: Self)
        ensures
            r@ == self@,
    ;

    fn zero_cell() -> (r: Self)
        ensures
            r@ == Self::zero_view(),
    ;

    fn one_cell() -> (r: Self)
        ensures
            r@ == Self::one_view(),
    ;

    fn base_cell(x: F128) -> (r: Self)
        ensures
            r@ == Self::base_view(x),
    ;
}

impl View for F256 {
    type V = F256;

    open spec fn view(&self) -> F256 {
        *self
    }
}

impl Cell for F256 {
    open spec fn zero_view() -> F256 {
        F256::zero()
    }

    open spec fn one_view() -> F256 {
        F256::one()
    }

    open spec fn base_view(x: F128) -> F256 {
        F256::of_base(x)
    }

    fn copied(&self) -> (r: F256) {
        *self
    }

    fn zero_cell() -> (r: F256) {
        F256::zero()
    }

    fn one_cell() -> (r: F256) {
        F256::one()
    }

    fn base_cell(x: F128) -> (r: F256) {
        F256::from_base(x)
    }
}

impl Cell for ExtExpr {
    open spec fn zero_view() -> ExtLin {
        ExtLin::zero()
    }

    open spec fn one_view() -> ExtLin {
        ExtLin::one()
    }

    open spec fn base_view(x: F128) -> ExtLin {
        ExtLin::base(x)
    }

    fn copied(&self) -> (r: ExtExpr) {
        self.dup()
    }

    fn zero_cell() -> (r: ExtExpr) {
        ExtExpr::zero()
    }

    fn one_cell() -> (r: ExtExpr) {
        ExtExpr::one()
    }

    fn base_cell(x: F128) -> (r: ExtExpr) {
        ExtExpr::base(x)
    }
}

pub open spec fn cells<T: Cell>(s: Seq<T>) -> Seq<T::V> {
    Seq::new(s.len(), |i: int| s[i]@)
}

fn copy_cells<T: Cell>(s: &Vec<T>) -> (r: Vec<T>)
    ensures
        cells(r@) == cells(s@),
        r@.len() == s@.len(),
{
    let mut r: Vec<T> = Vec::new();
    while r.len() < s.len()
        invariant
            r@.len() <= s@.len(),
            forall|i: int| 0 <= i < r@.len() ==> (#[trigger] r@[i])@ == s@[i]@,
        decreases s@.len() - r@.len(),
    {
        let i: usize = r.len();
        r.push(s[i].copied());
    }
    assert(cells(r@) =~= cells(s@));
    r
}

/// A claim about a column.
#[derive(Debug)]
pub struct C1ColumnClaim<T> {
    pub column: usize,
    pub point: Vec<T>,
    pub value: T,
}

/// A claim about a column.
pub struct Claim<V> {
    pub column: usize,
    pub point: Seq<V>,
    pub value: V,
}

pub open spec fn claim_view<T: Cell>(c: C1ColumnClaim<T>) -> Claim<T::V> {
    Claim { column: c.column, point: cells(c.point@), value: c.value@ }
}

pub open spec fn claim_views<T: Cell>(s: Seq<C1ColumnClaim<T>>) -> Seq<Claim<T::V>> {
    Seq::new(s.len(), |i: int| claim_view(s[i]))
}

/// What the verification of a column relation gave: the cells it refers to,
/// their claimed values, and the point.
#[derive(Debug)]
pub struct RelationOutcome<T, E> {
    pub references: Vec<ColRef>,
    pub final_values: Vec<T>,
    pub point: Result<Vec<T>, E>,
}

/// What a shift discharge gave: its point and its value.
#[derive(Debug)]
pub struct ShiftOutcome<T, E> {
    pub point: Result<Vec<T>, E>,
    pub final_value: T,
}

/// What a shift discharge gave.
pub struct Shifted<V, E> {
    pub point: Result<Seq<V>, E>,
    pub value: V,
}

pub open spec fn point_view<T: Cell, E>(p: Result<Vec<T>, E>) -> Result<Seq<T::V>, E> {
    match p {
        Ok(v) => Ok(cells(v@)),
        Err(e) => Err(e),
    }
}

pub open spec fn shift_views<T: Cell, E>(s: Seq<ShiftOutcome<T, E>>) -> Seq<Shifted<T::V, E>> {
    Seq::new(
        s.len(),
        |i: int| Shifted { point: point_view(s[i].point), value: s[i].final_value@ },
    )
}

/// Why a union of walks is refused.
#[derive(Debug, PartialEq, Eq)]
pub enum UnionVerifyError<E> {
    Shape,
    Zero(E),
    Selection(E),
    Substitution(E),
    Shift(E),
    SpineExposure(E),
}

/// Which cells, besides committed ones, a pass takes.
#[derive(Clone, Copy, Debug, PartialEq, Eq, Structural)]
pub struct PassKinds {
    pub internal: bool,
    pub shift: bool,
    pub shift2: bool,
}

/// What a pass has gathered: walk lanes, claims, and how many shift discharges
/// it has used.
pub struct Pass<V> {
    pub internal: Seq<V>,
    pub pending: Seq<Claim<V>>,
    pub cursor: nat,
}

/// One reference of a pass.
pub open spec fn pass_step<V, E>(
    kinds: PassKinds,
    reference: ColRef,
    value: V,
    point: Seq<V>,
    shifts: Seq<Shifted<V, E>>,
    s: Pass<V>,
) -> Result<Pass<V>, UnionVerifyError<E>> {
    match reference {
        ColRef::Committed(column) => Ok(
            Pass { pending: s.pending.push(Claim { column, point, value }), ..s },
        ),
        ColRef::Internal(lane) => if kinds.internal && lane < 4 {
            Ok(Pass { internal: s.internal.update(lane as int, value), ..s })
        } else {
            Err(UnionVerifyError::Shape)
        },
        ColRef::CommittedShift(column) => if kinds.shift {
            shift_step(column, shifts, s)
        } else {
            Err(UnionVerifyError::Shape)
        },
        ColRef::CommittedShift2(column) => if kinds.shift2 {
            shift_step(column, shifts, s)
        } else {
            Err(UnionVerifyError::Shape)
        },
        _ => Err(UnionVerifyError::Shape),
    }
}

/// A shifted cell uses the next shift discharge.
pub open spec fn shift_step<V, E>(column: usize, shifts: Seq<Shifted<V, E>>, s: Pass<V>) -> Result<
    Pass<V>,
    UnionVerifyError<E>,
> {
    if s.cursor >= shifts.len() {
        Err(UnionVerifyError::Shape)
    } else {
        match shifts[s.cursor as int].point {
            Ok(point) => Ok(
                Pass {
                    pending: s.pending.push(
                        Claim { column, point, value: shifts[s.cursor as int].value },
                    ),
                    cursor: s.cursor + 1,
                    ..s
                },
            ),
            Err(e) => Err(UnionVerifyError::Shift(e)),
        }
    }
}

/// The first `n` references of a pass.
pub open spec fn pass_over<V, E>(
    kinds: PassKinds,
    references: Seq<ColRef>,
    values: Seq<V>,
    point: Seq<V>,
    shifts: Seq<Shifted<V, E>>,
    start: Pass<V>,
    n: nat,
) -> Result<Pass<V>, UnionVerifyError<E>>
    decreases n,
{
    if n == 0 {
        Ok(start)
    } else {
        match pass_over(kinds, references, values, point, shifts, start, (n - 1) as nat) {
            Ok(s) => pass_step(kinds, references[n - 1], values[n - 1], point, shifts, s),
            Err(e) => Err(e),
        }
    }
}

pub open spec fn lesser(a: nat, b: nat) -> nat {
    if a < b {
        a
    } else {
        b
    }
}

pub open spec fn pass_start<V>(zero: V) -> Pass<V> {
    Pass { internal: seq![zero, zero, zero, zero], pending: Seq::empty(), cursor: 0 }
}

/// A whole pass: every reference that has a value, and no shift discharge left
/// over.
pub open spec fn whole_pass<V, E>(
    kinds: PassKinds,
    references: Seq<ColRef>,
    values: Seq<V>,
    point: Seq<V>,
    shifts: Seq<Shifted<V, E>>,
    zero: V,
) -> Result<Pass<V>, UnionVerifyError<E>> {
    match pass_over(
        kinds,
        references,
        values,
        point,
        shifts,
        pass_start(zero),
        lesser(references.len(), values.len()),
    ) {
        Ok(s) => if s.cursor == shifts.len() {
            Ok(s)
        } else {
            Err(UnionVerifyError::Shape)
        },
        Err(e) => Err(e),
    }
}

/// An error stays: later references do not mend a pass.
proof fn lemma_pass_stuck<V, E>(
    kinds: PassKinds,
    references: Seq<ColRef>,
    values: Seq<V>,
    point: Seq<V>,
    shifts: Seq<Shifted<V, E>>,
    start: Pass<V>,
    m: nat,
    n: nat,
)
    requires
        m <= n,
        pass_over(kinds, references, values, point, shifts, start, m) is Err,
    ensures
        pass_over(kinds, references, values, point, shifts, start, n) == pass_over(
            kinds,
            references,
            values,
            point,
            shifts,
            start,
            m,
        ),
    decreases n,
{
    if m < n {
        lemma_pass_stuck(kinds, references, values, point, shifts, start, m, (n - 1) as nat);
    }
}

/// Claims from the references of a relation.
fn claim_pass<T: Cell, E: Copy>(
    kinds: PassKinds,
    references: &Vec<ColRef>,
    values: &Vec<T>,
    point: &Vec<T>,
    shifts: &Vec<ShiftOutcome<T, E>>,
) -> (r: Result<(Vec<T>, Vec<C1ColumnClaim<T>>), UnionVerifyError<E>>)
    ensures
        match whole_pass(
            kinds,
            references@,
            cells(values@),
            cells(point@),
            shift_views(shifts@),
            T::zero_view(),
        ) {
            Ok(s) => r is Ok && cells(r->Ok_0.0@) == s.internal && claim_views(r->Ok_0.1@)
                == s.pending && r->Ok_0.0@.len() == 4,
            Err(e) => r is Err && r->Err_0 == e,
        },
{
    let ghost vals = cells(values@);
    let ghost pt = cells(point@);
    let ghost sh = shift_views(shifts@);
    let ghost start = pass_start(T::zero_view());
    let mut internal: Vec<T> = Vec::new();
    internal.push(T::zero_cell());
    internal.push(T::zero_cell());
    internal.push(T::zero_cell());
    internal.push(T::zero_cell());
    let mut pending: Vec<C1ColumnClaim<T>> = Vec::new();
    let mut cursor: usize = 0;
    let mut i: usize = 0;
    let ghost total = lesser(references@.len(), values@.len());
    proof {
        assert(cells(internal@) =~= start.internal);
        assert(claim_views(pending@) =~= start.pending);
    }
    while i < references.len() && i < values.len()
        invariant
            i <= total,
            total == lesser(references@.len(), values@.len()),
            vals == cells(values@),
            pt == cells(point@),
            sh == shift_views(shifts@),
            start == pass_start(T::zero_view()),
            internal@.len() == 4,
            cursor <= shifts@.len(),
            pass_over(kinds, references@, vals, pt, sh, start, i as nat) == Ok::<
                Pass<T::V>,
                UnionVerifyError<E>,
            >(
                Pass {
                    internal: cells(internal@),
                    pending: claim_views(pending@),
                    cursor: cursor as nat,
                },
            ),
        decreases total - i,
    {
        let ghost before = pending@;
        let ghost lanes = internal@;
        let ghost next = pass_over(kinds, references@, vals, pt, sh, start, (i + 1) as nat);
        let reference = references[i];
        let shift_of: Option<usize> = match reference {
            ColRef::CommittedShift(column) => if kinds.shift {
                Some(column)
            } else {
                None
            },
            ColRef::CommittedShift2(column) => if kinds.shift2 {
                Some(column)
            } else {
                None
            },
            _ => None,
        };
        match shift_of {
            Some(column) => {
                if cursor >= shifts.len() {
                    proof {
                        lemma_pass_stuck(
                            kinds,
                            references@,
                            vals,
                            pt,
                            sh,
                            start,
                            (i + 1) as nat,
                            total,
                        );
                    }
                    return Err(UnionVerifyError::Shape);
                }
                match &shifts[cursor].point {
                    Ok(p) => {
                        let claim = C1ColumnClaim {
                            column,
                            point: copy_cells(p),
                            value: shifts[cursor].final_value.copied(),
                        };
                        pending.push(claim);
                        cursor += 1;
                        assert(claim_views(pending@) =~= claim_views(before).push(
                            claim_view(claim),
                        ));
                    },
                    Err(e) => {
                        proof {
                            lemma_pass_stuck(
                                kinds,
                                references@,
                                vals,
                                pt,
                                sh,
                                start,
                                (i + 1) as nat,
                                total,
                            );
                        }
                        return Err(UnionVerifyError::Shift(*e));
                    },
                }
            },
            None => match reference {
                ColRef::Committed(column) => {
                    let claim = C1ColumnClaim {
                        column,
                        point: copy_cells(point),
                        value: values[i].copied(),
                    };
                    pending.push(claim);
                    assert(claim_views(pending@) =~= claim_views(before).push(claim_view(claim)));
                },
                ColRef::Internal(lane) => {
                    if !(kinds.internal && lane < 4) {
                        proof {
                            lemma_pass_stuck(
                                kinds,
                                references@,
                                vals,
                                pt,
                                sh,
                                start,
                                (i + 1) as nat,
                                total,
                            );
                        }
                        return Err(UnionVerifyError::Shape);
                    }
                    let v = values[i].copied();
                    internal.set(lane, v);
                    assert(cells(internal@) =~= cells(lanes).update(lane as int, v@));
                },
                _ => {
                    proof {
                        lemma_pass_stuck(
                            kinds,
                            references@,
                            vals,
                            pt,
                            sh,
                            start,
                            (i + 1) as nat,
                            total,
                        );
                    }
                    return Err(UnionVerifyError::Shape);
                },
            },
        }
        i += 1;
    }
    assert(i == total);
    if cursor != shifts.len() {
        return Err(UnionVerifyError::Shape);
    }
    Ok((internal, pending))
}

// ---------------------------------------------------------------------------
// Prefixes and suffixes
// ---------------------------------------------------------------------------

/// Values of the four lanes at a point.
#[derive(Debug)]
pub struct C1LaneClaimGroup<T> {
    pub point: Vec<T>,
    pub values: Vec<T>,
}

/// What precedes a walk: claims, and the group that the walk starts from.
#[derive(Debug)]
pub struct C1WalkPrefix<T> {
    pub pending: Vec<C1ColumnClaim<T>>,
    pub walk_group: C1LaneClaimGroup<T>,
}

/// What precedes a walk.
pub struct Prefix<V> {
    pub pending: Seq<Claim<V>>,
    pub point: Seq<V>,
    pub values: Seq<V>,
}

pub open spec fn prefix_view<T: Cell>(p: C1WalkPrefix<T>) -> Prefix<T::V> {
    Prefix {
        pending: claim_views(p.pending@),
        point: cells(p.walk_group.point@),
        values: cells(p.walk_group.values@),
    }
}

pub open spec fn selection_kinds() -> PassKinds {
    PassKinds { internal: true, shift: false, shift2: false }
}

pub open spec fn merkle_kinds() -> PassKinds {
    PassKinds { internal: true, shift: true, shift2: true }
}

pub open spec fn duplex_kinds() -> PassKinds {
    PassKinds { internal: false, shift: true, shift2: false }
}

pub open spec fn walk_a_kinds() -> PassKinds {
    PassKinds { internal: false, shift: true, shift2: true }
}

/// The prefix that a selection relation gives.
pub open spec fn selection_prefix<V, E>(
    references: Seq<ColRef>,
    values: Seq<V>,
    point: Result<Seq<V>, E>,
    zero: V,
) -> Result<Prefix<V>, UnionVerifyError<E>> {
    match point {
        Err(e) => Err(UnionVerifyError::Selection(e)),
        Ok(p) => match whole_pass(
            selection_kinds(),
            references,
            values,
            p,
            Seq::<Shifted<V, E>>::empty(),
            zero,
        ) {
            Ok(s) => Ok(Prefix { pending: s.pending, point: p, values: s.internal }),
            Err(e) => Err(e),
        },
    }
}

/// A pass over a Merkle relation, which gives a value for every reference.
pub open spec fn merkle_pass<V, E>(
    references: Seq<ColRef>,
    values: Seq<V>,
    point: Seq<V>,
    shifts: Seq<Shifted<V, E>>,
    zero: V,
) -> Result<Pass<V>, UnionVerifyError<E>> {
    if references.len() != values.len() {
        Err(UnionVerifyError::Shape)
    } else {
        whole_pass(merkle_kinds(), references, values, point, shifts, zero)
    }
}

/// The prefix that a vanishing relation and a selection relation give.
pub open spec fn merkle_prefix<V, E>(
    zero_refs: Seq<ColRef>,
    zero_values: Seq<V>,
    zero_point: Result<Seq<V>, E>,
    zero_shifts: Seq<Shifted<V, E>>,
    references: Seq<ColRef>,
    values: Seq<V>,
    point: Result<Seq<V>, E>,
    zero: V,
) -> Result<Prefix<V>, UnionVerifyError<E>> {
    match zero_point {
        Err(e) => Err(UnionVerifyError::Zero(e)),
        Ok(zp) => match merkle_pass(zero_refs, zero_values, zp, zero_shifts, zero) {
            Err(e) => Err(e),
            Ok(first) => match point {
                Err(e) => Err(UnionVerifyError::Selection(e)),
                Ok(p) => match merkle_pass(
                    references,
                    values,
                    p,
                    Seq::<Shifted<V, E>>::empty(),
                    zero,
                ) {
                    Err(e) => Err(e),
                    Ok(second) => Ok(
                        Prefix {
                            pending: first.pending + second.pending,
                            point: p,
                            values: second.internal,
                        },
                    ),
                },
            },
        },
    }
}

/// The claims after a substitution relation whose references all matter.
pub open spec fn merkle_suffix<V, E>(
    pending: Seq<Claim<V>>,
    references: Seq<ColRef>,
    values: Seq<V>,
    point: Result<Seq<V>, E>,
    shifts: Seq<Shifted<V, E>>,
    zero: V,
) -> Result<Seq<Claim<V>>, UnionVerifyError<E>> {
    match point {
        Err(e) => Err(UnionVerifyError::Substitution(e)),
        Ok(p) => match merkle_pass(references, values, p, shifts, zero) {
            Err(e) => Err(e),
            Ok(s) => Ok(pending + s.pending),
        },
    }
}

/// The claims after a substitution relation.
pub open spec fn walk_suffix<V, E>(
    kinds: PassKinds,
    pending: Seq<Claim<V>>,
    references: Seq<ColRef>,
    values: Seq<V>,
    point: Result<Seq<V>, E>,
    shifts: Seq<Shifted<V, E>>,
    zero: V,
) -> Result<Seq<Claim<V>>, UnionVerifyError<E>> {
    match point {
        Err(e) => Err(UnionVerifyError::Substitution(e)),
        Ok(p) => match whole_pass(kinds, references, values, p, shifts, zero) {
            Err(e) => Err(e),
            Ok(s) => Ok(pending + s.pending),
        },
    }
}

fn joined_claims<T: Cell>(
    first: Vec<C1ColumnClaim<T>>,
    second: Vec<C1ColumnClaim<T>>,
) -> (r: Vec<C1ColumnClaim<T>>)
    ensures
        claim_views(r@) == claim_views(first@) + claim_views(second@),
{
    let mut r = first;
    let mut second = second;
    let ghost (f, s) = (claim_views(first@), claim_views(second@));
    r.append(&mut second);
    assert(claim_views(r@) =~= f + s);
    r
}

fn select<T: Cell, E: Copy>(selection: RelationOutcome<T, E>) -> (r: Result<
    C1WalkPrefix<T>,
    UnionVerifyError<E>,
>)
    ensures
        match selection_prefix(
            selection.references@,
            cells(selection.final_values@),
            point_view(selection.point),
            T::zero_view(),
        ) {
            Ok(p) => r is Ok && prefix_view(r->Ok_0) == p,
            Err(e) => r is Err && r->Err_0 == e,
        },
{
    let none: Vec<ShiftOutcome<T, E>> = Vec::new();
    assert(shift_views(none@) =~= Seq::empty());
    match selection.point {
        Err(e) => Err(UnionVerifyError::Selection(e)),
        Ok(point) => {
            let kinds = PassKinds { internal: true, shift: false, shift2: false };
            match claim_pass(
                kinds,
                &selection.references,
                &selection.final_values,
                &point,
                &none,
            ) {
                Ok((values, pending)) => Ok(
                    C1WalkPrefix { pending, walk_group: C1LaneClaimGroup { point, values } },
                ),
                Err(e) => Err(e),
            }
        },
    }
}

/// The prefix of the leaf walk.
pub fn verify_c1_walk_a_walk_prefix<T: Cell, E: Copy>(selection: RelationOutcome<T, E>) -> (r:
    Result<C1WalkPrefix<T>, UnionVerifyError<E>>)
    ensures
        match selection_prefix(
            selection.references@,
            cells(selection.final_values@),
            point_view(selection.point),
            T::zero_view(),
        ) {
            Ok(p) => r is Ok && prefix_view(r->Ok_0) == p,
            Err(e) => r is Err && r->Err_0 == e,
        },
{
    select(selection)
}

/// The prefix of a duplex walk.
pub fn verify_c1_duplex_walk_prefix<T: Cell, E: Copy>(selection: RelationOutcome<T, E>) -> (r:
    Result<C1WalkPrefix<T>, UnionVerifyError<E>>)
    ensures
        match selection_prefix(
            selection.references@,
            cells(selection.final_values@),
            point_view(selection.point),
            T::zero_view(),
        ) {
            Ok(p) => r is Ok && prefix_view(r->Ok_0) == p,
            Err(e) => r is Err && r->Err_0 == e,
        },
{
    select(selection)
}

/// A pass over a Merkle relation.
pub fn verify_c1_merkle_claim_pass<T: Cell, E: Copy>(
    references: &Vec<ColRef>,
    values: &Vec<T>,
    point: &Vec<T>,
    shifts: &Vec<ShiftOutcome<T, E>>,
) -> (r: Result<(Vec<T>, Vec<C1ColumnClaim<T>>), UnionVerifyError<E>>)
    ensures
        match merkle_pass(
            references@,
            cells(values@),
            cells(point@),
            shift_views(shifts@),
            T::zero_view(),
        ) {
            Ok(s) => r is Ok && cells(r->Ok_0.0@) == s.internal && claim_views(r->Ok_0.1@)
                == s.pending && r->Ok_0.0@.len() == 4,
            Err(e) => r is Err && r->Err_0 == e,
        },
{
    if references.len() != values.len() {
        return Err(UnionVerifyError::Shape);
    }
    let kinds = PassKinds { internal: true, shift: true, shift2: true };
    claim_pass(kinds, references, values, point, shifts)
}

/// The prefix of a Merkle walk.
pub fn verify_c1_merkle_walk_prefix<T: Cell, E: Copy>(
    zero: RelationOutcome<T, E>,
    zero_shifts: &Vec<ShiftOutcome<T, E>>,
    selection: RelationOutcome<T, E>,
) -> (r: Result<C1WalkPrefix<T>, UnionVerifyError<E>>)
    ensures
        match merkle_prefix(
            zero.references@,
            cells(zero.final_values@),
            point_view(zero.point),
            shift_views(zero_shifts@),
            selection.references@,
            cells(selection.final_values@),
            point_view(selection.point),
            T::zero_view(),
        ) {
            Ok(p) => r is Ok && prefix_view(r->Ok_0) == p,
            Err(e) => r is Err && r->Err_0 == e,
        },
{
    let zero_point = match zero.point {
        Ok(p) => p,
        Err(e) => {
            return Err(UnionVerifyError::Zero(e));
        },
    };
    let pending = match verify_c1_merkle_claim_pass(
        &zero.references,
        &zero.final_values,
        &zero_point,
        zero_shifts,
    ) {
        Ok((_, claims)) => claims,
        Err(e) => {
            return Err(e);
        },
    };
    let point = match selection.point {
        Ok(p) => p,
        Err(e) => {
            return Err(UnionVerifyError::Selection(e));
        },
    };
    let none: Vec<ShiftOutcome<T, E>> = Vec::new();
    assert(shift_views(none@) =~= Seq::empty());
    match verify_c1_merkle_claim_pass(
        &selection.references,
        &selection.final_values,
        &point,
        &none,
    ) {
        Ok((values, claims)) => Ok(
            C1WalkPrefix {
                pending: joined_claims(pending, claims),
                walk_group: C1LaneClaimGroup { point, values },
            },
        ),
        Err(e) => Err(e),
    }
}

/// The claims that a Merkle walk leaves behind.
pub fn verify_c1_merkle_walk_suffix<T: Cell, E: Copy>(
    prefix: C1WalkPrefix<T>,
    substitution: RelationOutcome<T, E>,
    shifts: &Vec<ShiftOutcome<T, E>>,
) -> (r: Result<Vec<C1ColumnClaim<T>>, UnionVerifyError<E>>)
    ensures
        match merkle_suffix(
            claim_views(prefix.pending@),
            substitution.references@,
            cells(substitution.final_values@),
            point_view(substitution.point),
            shift_views(shifts@),
            T::zero_view(),
        ) {
            Ok(s) => r is Ok && claim_views(r->Ok_0@) == s,
            Err(e) => r is Err && r->Err_0 == e,
        },
{
    let point = match substitution.point {
        Ok(p) => p,
        Err(e) => {
            return Err(UnionVerifyError::Substitution(e));
        },
    };
    match verify_c1_merkle_claim_pass(
        &substitution.references,
        &substitution.final_values,
        &point,
        shifts,
    ) {
        Ok((_, claims)) => Ok(joined_claims(prefix.pending, claims)),
        Err(e) => Err(e),
    }
}

fn walk_claims<T: Cell, E: Copy>(
    kinds: PassKinds,
    pending: Vec<C1ColumnClaim<T>>,
    substitution: RelationOutcome<T, E>,
    shifts: &Vec<ShiftOutcome<T, E>>,
) -> (r: Result<Vec<C1ColumnClaim<T>>, UnionVerifyError<E>>)
    ensures
        match walk_suffix(
            kinds,
            claim_views(pending@),
            substitution.references@,
            cells(substitution.final_values@),
            point_view(substitution.point),
            shift_views(shifts@),
            T::zero_view(),
        ) {
            Ok(s) => r is Ok && claim_views(r->Ok_0@) == s,
            Err(e) => r is Err && r->Err_0 == e,
        },
{
    let point = match substitution.point {
        Ok(p) => p,
        Err(e) => {
            return Err(UnionVerifyError::Substitution(e));
        },
    };
    match claim_pass(
        kinds,
        &substitution.references,
        &substitution.final_values,
        &point,
        shifts,
    ) {
        Ok((_, claims)) => Ok(joined_claims(pending, claims)),
        Err(e) => Err(e),
    }
}

/// The claims that a duplex walk leaves behind.
pub fn verify_c1_duplex_walk_suffix<T: Cell, E: Copy>(
    prefix: C1WalkPrefix<T>,
    substitution: RelationOutcome<T, E>,
    shifts: &Vec<ShiftOutcome<T, E>>,
) -> (r: Result<Vec<C1ColumnClaim<T>>, UnionVerifyError<E>>)
    ensures
        match walk_suffix(
            duplex_kinds(),
            claim_views(prefix.pending@),
            substitution.references@,
            cells(substitution.final_values@),
            point_view(substitution.point),
            shift_views(shifts@),
            T::zero_view(),
        ) {
            Ok(s) => r is Ok && claim_views(r->Ok_0@) == s,
            Err(e) => r is Err && r->Err_0 == e,
        },
{
    let kinds = PassKinds { internal: false, shift: true, shift2: false };
    walk_claims(kinds, prefix.pending, substitution, shifts)
}

// ---------------------------------------------------------------------------
// The spine
// ---------------------------------------------------------------------------

/// The parts of a point of the exposed spine.
pub open spec fn point_local<V>(spec: SpineUnionSpec, point: Seq<V>) -> Seq<V> {
    point.take(spec.local_log as int)
}

pub open spec fn point_instance<V>(spec: SpineUnionSpec, point: Seq<V>) -> Seq<V> {
    point.subrange(spec.local_log as int, spec.local_log + spec.cap_log)
}

pub open spec fn point_tx<V>(spec: SpineUnionSpec, point: Seq<V>) -> Seq<V> {
    point.skip(spec.local_log + spec.cap_log)
}

pub open spec fn base_cells<T: Cell>(bits: Seq<F128>) -> Seq<T::V> {
    Seq::new(bits.len(), |i: int| T::base_view(bits[i]))
}

/// The point of the walk at which a child column is opened.
pub open spec fn kid_point<T: Cell>(spec: SpineUnionSpec, point: Seq<T::V>) -> Seq<T::V> {
    point_local(spec, point) + seq![T::zero_view()] + point_instance(spec, point) + base_cells::<
        T,
    >(spec.base_bits@) + point_tx(spec, point) + base_cells::<T>(spec.walk_high_bits@)
}

/// The point of the walk at which a carried column is opened.
pub open spec fn carry_point<T: Cell>(spec: SpineUnionSpec, point: Seq<T::V>) -> Seq<T::V> {
    seq![T::one_view()] + point_local(spec, point) + point_instance(spec, point) + base_cells::<
        T,
    >(spec.base_bits@) + point_tx(spec, point) + base_cells::<T>(spec.walk_high_bits@)
}

fn extend_range<T: Cell>(out: &mut Vec<T>, point: &Vec<T>, from: usize, to: usize)
    requires
        from <= to <= point@.len(),
    ensures
        cells(final(out)@) == cells(old(out)@) + cells(point@).subrange(from as int, to as int),
{
    let ghost before = cells(out@);
    let ghost pt = cells(point@);
    let mut i: usize = from;
    assert(cells(out@) =~= before + pt.subrange(from as int, from as int));
    while i < to
        invariant
            from <= i <= to <= point@.len(),
            pt == cells(point@),
            cells(out@) == before + pt.subrange(from as int, i as int),
        decreases to - i,
    {
        let ghost prior = out@;
        let c = point[i].copied();
        out.push(c);
        assert(cells(out@) =~= cells(prior).push(c@));
        i += 1;
        assert(cells(out@) =~= before + pt.subrange(from as int, i as int));
    }
}

fn extend_base<T: Cell>(out: &mut Vec<T>, bits: &Vec<F128>)
    ensures
        cells(final(out)@) == cells(old(out)@) + base_cells::<T>(bits@),
{
    let ghost before = cells(out@);
    let ghost all = base_cells::<T>(bits@);
    let mut i: usize = 0;
    assert(cells(out@) =~= before + all.take(0));
    while i < bits.len()
        invariant
            i <= bits@.len(),
            all == base_cells::<T>(bits@),
            cells(out@) == before + all.take(i as int),
        decreases bits@.len() - i,
    {
        let ghost prior = out@;
        let c = T::base_cell(bits[i]);
        out.push(c);
        assert(cells(out@) =~= cells(prior).push(c@));
        i += 1;
        assert(cells(out@) =~= before + all.take(i as int));
    }
    assert(all.take(i as int) =~= all);
}

/// Where a spine column is opened in the walk.
pub fn repoint_c1_spine<T: Cell>(spec: &SpineUnionSpec, point: &Vec<T>, carry: bool) -> (r: Vec<T>)
    requires
        spec.local_log + spec.cap_log <= point@.len(),
    ensures
        cells(r@) == if carry {
            carry_point::<T>(*spec, cells(point@))
        } else {
            kid_point::<T>(*spec, cells(point@))
        },
{
    let ghost pt = cells(point@);
    let total: usize = point.len();
    let split: usize = spec.local_log + spec.cap_log;
    let mut out: Vec<T> = Vec::new();
    assert(cells(out@) =~= Seq::empty());
    let ghost mut head: Seq<T::V> = Seq::empty();
    if carry {
        let one = T::one_cell();
        out.push(one);
        assert(cells(out@) =~= seq![T::one_view()]);
        extend_range(&mut out, point, 0, spec.local_log);
        proof {
            head = seq![T::one_view()] + point_local(*spec, pt);
        }
        assert(cells(out@) =~= head);
    } else {
        extend_range(&mut out, point, 0, spec.local_log);
        let ghost prior = out@;
        let zero = T::zero_cell();
        out.push(zero);
        assert(cells(out@) =~= cells(prior).push(zero@));
        proof {
            head = point_local(*spec, pt) + seq![T::zero_view()];
        }
        assert(cells(out@) =~= head);
    }
    extend_range(&mut out, point, spec.local_log, split);
    extend_base(&mut out, &spec.base_bits);
    extend_range(&mut out, point, split, total);
    extend_base(&mut out, &spec.walk_high_bits);
    assert(pt.subrange(split as int, point@.len() as int) =~= point_tx(*spec, pt));
    assert(cells(out@) =~= head + point_instance(*spec, pt) + base_cells::<T>(spec.base_bits@)
        + point_tx(*spec, pt) + base_cells::<T>(spec.walk_high_bits@));
    out
}

/// The claim of one reference of the exposure relation.
pub open spec fn exposure_claim<T: Cell>(
    spec: SpineUnionSpec,
    reference: ColRef,
    value: T::V,
    point: Seq<T::V>,
) -> Option<Claim<T::V>> {
    match reference {
        ColRef::Committed(local) => if local < 2 {
            Some(
                Claim {
                    column: spec.kid_meta@[local as int],
                    point: kid_point::<T>(spec, point),
                    value,
                },
            )
        } else {
            None
        },
        ColRef::Window { col, stride_log, offset } => if stride_log == 1 && offset == 1 && 2
            <= col < 4 {
            Some(
                Claim {
                    column: spec.c_meta@[col - 2],
                    point: carry_point::<T>(spec, point),
                    value,
                },
            )
        } else {
            None
        },
        _ => None,
    }
}

/// The claims of the first `n` references of the exposure relation, each of
/// which is a spine column.
pub open spec fn exposure_claims<T: Cell>(
    spec: SpineUnionSpec,
    references: Seq<ColRef>,
    values: Seq<T::V>,
    point: Seq<T::V>,
    n: nat,
) -> Option<Seq<Claim<T::V>>>
    decreases n,
{
    if n == 0 {
        Some(Seq::empty())
    } else {
        match (
            exposure_claims::<T>(spec, references, values, point, (n - 1) as nat),
            exposure_claim::<T>(spec, references[n - 1], values[n - 1], point),
        ) {
            (Some(s), Some(c)) => Some(s.push(c)),
            _ => None,
        }
    }
}

/// The claims that the leaf walk leaves behind.
pub open spec fn walk_a_claims<T: Cell, E>(
    spine: Option<SpineUnionSpec>,
    pending: Seq<Claim<T::V>>,
    substitution: RelationOutcome<T, E>,
    shifts: Seq<ShiftOutcome<T, E>>,
    exposure: Option<RelationOutcome<T, E>>,
) -> Result<Seq<Claim<T::V>>, UnionVerifyError<E>> {
    match walk_suffix(
        walk_a_kinds(),
        pending,
        substitution.references@,
        cells(substitution.final_values@),
        point_view(substitution.point),
        shift_views(shifts),
        T::zero_view(),
    ) {
        Err(e) => Err(e),
        Ok(claims) => match (spine, exposure) {
            (None, None) => Ok(claims),
            (Some(spec), Some(x)) => match point_view(x.point) {
                Err(e) => Err(UnionVerifyError::SpineExposure(e)),
                Ok(p) => match exposure_claims::<T>(
                    spec,
                    x.references@,
                    cells(x.final_values@),
                    p,
                    lesser(x.references@.len(), x.final_values@.len()),
                ) {
                    Some(more) => Ok(claims + more),
                    None => Err(UnionVerifyError::Shape),
                },
            },
            _ => Err(UnionVerifyError::Shape),
        },
    }
}

/// The point of an exposure relation covers the local and instance parts.
pub open spec fn exposure_fits<T: Cell, E>(
    spine: Option<SpineUnionSpec>,
    exposure: Option<RelationOutcome<T, E>>,
) -> bool {
    spine is Some && exposure is Some && exposure->Some_0.point is Ok ==> spine->Some_0.local_log
        + spine->Some_0.cap_log <= exposure->Some_0.point->Ok_0@.len()
}

proof fn lemma_exposure_stuck<T: Cell>(
    spec: SpineUnionSpec,
    references: Seq<ColRef>,
    values: Seq<T::V>,
    point: Seq<T::V>,
    m: nat,
    n: nat,
)
    requires
        m <= n,
        exposure_claims::<T>(spec, references, values, point, m) is None,
    ensures
        exposure_claims::<T>(spec, references, values, point, n) is None,
    decreases n,
{
    if m < n {
        lemma_exposure_stuck::<T>(spec, references, values, point, m, (n - 1) as nat);
    }
}

fn expose<T: Cell>(
    spec: &SpineUnionSpec,
    references: &Vec<ColRef>,
    values: &Vec<T>,
    point: &Vec<T>,
) -> (r: Option<Vec<C1ColumnClaim<T>>>)
    requires
        spec.local_log + spec.cap_log <= point@.len(),
    ensures
        match exposure_claims::<T>(
            *spec,
            references@,
            cells(values@),
            cells(point@),
            lesser(references@.len(), values@.len()),
        ) {
            Some(s) => r is Some && claim_views(r->Some_0@) == s,
            None => r is None,
        },
{
    let ghost vals = cells(values@);
    let ghost pt = cells(point@);
    let ghost total = lesser(references@.len(), values@.len());
    let mut out: Vec<C1ColumnClaim<T>> = Vec::new();
    assert(claim_views(out@) =~= Seq::empty());
    let mut i: usize = 0;
    while i < references.len() && i < values.len()
        invariant
            i <= total,
            total == lesser(references@.len(), values@.len()),
            spec.local_log + spec.cap_log <= point@.len(),
            vals == cells(values@),
            pt == cells(point@),
            exposure_claims::<T>(*spec, references@, vals, pt, i as nat) == Some(
                claim_views(out@),
            ),
        decreases total - i,
    {
        let ghost before = out@;
        let target: Option<(usize, bool)> = match references[i] {
            ColRef::Committed(local) => if local < 2 {
                Some((spec.kid_meta[local], false))
            } else {
                None
            },
            ColRef::Window { col, stride_log, offset } => if stride_log == 1 && offset == 1 && 2
                <= col && col < 4 {
                Some((spec.c_meta[col - 2], true))
            } else {
                None
            },
            _ => None,
        };
        match target {
            Some((column, carry)) => {
                let claim = C1ColumnClaim {
                    column,
                    point: repoint_c1_spine(spec, point, carry),
                    value: values[i].copied(),
                };
                out.push(claim);
                assert(claim_views(out@) =~= claim_views(before).push(claim_view(claim)));
            },
            None => {
                proof {
                    lemma_exposure_stuck::<T>(
                        *spec,
                        references@,
                        vals,
                        pt,
                        (i + 1) as nat,
                        total,
                    );
                }
                return None;
            },
        }
        i += 1;
    }
    Some(out)
}

/// The claims that the leaf walk leaves behind, with those of the spine.
pub fn verify_c1_walk_a_walk_suffix<T: Cell, E: Copy>(
    spine: &Option<SpineUnionSpec>,
    prefix: C1WalkPrefix<T>,
    substitution: RelationOutcome<T, E>,
    shifts: &Vec<ShiftOutcome<T, E>>,
    exposure: Option<RelationOutcome<T, E>>,
) -> (r: Result<Vec<C1ColumnClaim<T>>, UnionVerifyError<E>>)
    requires
        exposure_fits(*spine, exposure),
    ensures
        match walk_a_claims(
            *spine,
            claim_views(prefix.pending@),
            substitution,
            shifts@,
            exposure,
        ) {
            Ok(s) => r is Ok && claim_views(r->Ok_0@) == s,
            Err(e) => r is Err && r->Err_0 == e,
        },
{
    let kinds = PassKinds { internal: false, shift: true, shift2: true };
    let claims = match walk_claims(kinds, prefix.pending, substitution, shifts) {
        Ok(c) => c,
        Err(e) => {
            return Err(e);
        },
    };
    match (spine, exposure) {
        (None, None) => Ok(claims),
        (Some(spec), Some(x)) => {
            let point = match x.point {
                Ok(p) => p,
                Err(e) => {
                    return Err(UnionVerifyError::SpineExposure(e));
                },
            };
            match expose(spec, &x.references, &x.final_values, &point) {
                Some(more) => Ok(joined_claims(claims, more)),
                None => Err(UnionVerifyError::Shape),
            }
        },
        _ => Err(UnionVerifyError::Shape),
    }
}

// ---------------------------------------------------------------------------
// Proving
// ---------------------------------------------------------------------------

/// The deferred proof of the leaf walk.
#[derive(Debug)]
pub struct C1WalkAUnionWalkDeferredProof<R, S> {
    pub selection: R,
    pub substitution: R,
    pub shifts: Vec<S>,
    pub spine_exposure: Option<R>,
}

/// The deferred proof of a Merkle walk.
#[derive(Debug)]
pub struct C1MerkleUnionWalkDeferredProof<R, S> {
    pub zero: R,
    pub zero_shifts: Vec<S>,
    pub selection: R,
    pub substitution: R,
    pub shifts: Vec<S>,
}

/// The deferred proof of a duplex walk.
#[derive(Debug)]
pub struct C1DuplexUnionWalkDeferredProof<R, S> {
    pub selection: R,
    pub substitution: R,
    pub shifts: Vec<S>,
}

/// The proof of the leaf walk with the claims that it leaves: those that its
/// verification leaves.
pub fn prove_c1_walk_a_walk_suffix<R, S, E: Copy>(
    spine: &Option<SpineUnionSpec>,
    prefix: C1WalkPrefix<F256>,
    selection: R,
    substitution: (R, RelationOutcome<F256, E>),
    shifts: (Vec<S>, Vec<ShiftOutcome<F256, E>>),
    exposure: (Option<R>, Option<RelationOutcome<F256, E>>),
) -> (r: Option<(C1WalkAUnionWalkDeferredProof<R, S>, Vec<C1ColumnClaim<F256>>)>)
    requires
        exposure_fits(*spine, exposure.1),
    ensures
        match walk_a_claims(
            *spine,
            claim_views(prefix.pending@),
            substitution.1,
            shifts.1@,
            exposure.1,
        ) {
            Ok(s) => r is Some && claim_views(r->Some_0.1@) == s && r->Some_0.0.selection
                == selection && r->Some_0.0.substitution == substitution.0 && r->Some_0.0.shifts
                == shifts.0 && r->Some_0.0.spine_exposure == exposure.0,
            Err(_) => r is None,
        },
{
    match verify_c1_walk_a_walk_suffix(spine, prefix, substitution.1, &shifts.1, exposure.1) {
        Ok(claims) => Some(
            (
                C1WalkAUnionWalkDeferredProof {
                    selection,
                    substitution: substitution.0,
                    shifts: shifts.0,
                    spine_exposure: exposure.0,
                },
                claims,
            ),
        ),
        Err(_) => None,
    }
}

/// The proof of a Merkle walk with the claims that it leaves.
pub fn prove_c1_merkle_walk_suffix<R, S, E: Copy>(
    prefix: C1WalkPrefix<F256>,
    zero: (R, Vec<S>),
    selection: R,
    substitution: (R, RelationOutcome<F256, E>),
    shifts: (Vec<S>, Vec<ShiftOutcome<F256, E>>),
) -> (r: Option<(C1MerkleUnionWalkDeferredProof<R, S>, Vec<C1ColumnClaim<F256>>)>)
    ensures
        match merkle_suffix(
            claim_views(prefix.pending@),
            substitution.1.references@,
            cells(substitution.1.final_values@),
            point_view(substitution.1.point),
            shift_views(shifts.1@),
            F256::zero(),
        ) {
            Ok(s) => r is Some && claim_views(r->Some_0.1@) == s && r->Some_0.0.zero == zero.0
                && r->Some_0.0.zero_shifts == zero.1 && r->Some_0.0.selection == selection
                && r->Some_0.0.substitution == substitution.0 && r->Some_0.0.shifts == shifts.0,
            Err(_) => r is None,
        },
{
    match verify_c1_merkle_walk_suffix(prefix, substitution.1, &shifts.1) {
        Ok(claims) => Some(
            (
                C1MerkleUnionWalkDeferredProof {
                    zero: zero.0,
                    zero_shifts: zero.1,
                    selection,
                    substitution: substitution.0,
                    shifts: shifts.0,
                },
                claims,
            ),
        ),
        Err(_) => None,
    }
}

/// The proof of a duplex walk with the claims that it leaves.
pub fn prove_c1_duplex_walk_suffix<R, S, E: Copy>(
    prefix: C1WalkPrefix<F256>,
    selection: R,
    substitution: (R, RelationOutcome<F256, E>),
    shifts: (Vec<S>, Vec<ShiftOutcome<F256, E>>),
) -> (r: Option<(C1DuplexUnionWalkDeferredProof<R, S>, Vec<C1ColumnClaim<F256>>)>)
    ensures
        match walk_suffix(
            duplex_kinds(),
            claim_views(prefix.pending@),
            substitution.1.references@,
            cells(substitution.1.final_values@),
            point_view(substitution.1.point),
            shift_views(shifts.1@),
            F256::zero(),
        ) {
            Ok(s) => r is Some && claim_views(r->Some_0.1@) == s && r->Some_0.0.selection
                == selection && r->Some_0.0.substitution == substitution.0 && r->Some_0.0.shifts
                == shifts.0,
            Err(_) => r is None,
        },
{
    match verify_c1_duplex_walk_suffix(prefix, substitution.1, &shifts.1) {
        Ok(claims) => Some(
            (
                C1DuplexUnionWalkDeferredProof {
                    selection,
                    substitution: substitution.0,
                    shifts: shifts.0,
                },
                claims,
            ),
        ),
        Err(_) => None,
    }
}

// ---------------------------------------------------------------------------
// Targets
// ---------------------------------------------------------------------------

/// The target of a substitution relation: the first `n` lanes of the walk's end
/// under powers of the challenge.
pub open spec fn lane_target(e: Extension, alpha: F256, values: Seq<F256>, n: nat) -> F256
    decreases n,
{
    if n == 0 {
        F256::zero()
    } else {
        lane_target(e, alpha, values, (n - 1) as nat).plus(
            e.times(e.pow(alpha, n), values[n - 1]),
        )
    }
}

/// The target of a substitution relation.
pub fn c1_target(e: &Extension, alpha: F256, terminal: &C1LaneClaimGroup<F256>) -> (r: F256)
    requires
        terminal.values@.len() == 4,
    ensures
        r == lane_target(*e, alpha, terminal.values@, 4),
{
    let mut sum = F256::zero();
    let mut power = F256::one();
    let mut lane: usize = 0;
    while lane < 4
        invariant
            lane <= 4,
            terminal.values@.len() == 4,
            power == e.pow(alpha, lane as nat),
            sum == lane_target(*e, alpha, terminal.values@, lane as nat),
        decreases 4 - lane,
    {
        power = e.mul(power, alpha);
        sum = sum.add(e.mul(power, terminal.values[lane]));
        lane += 1;
    }
    sum
}

/// The rows of the target, and its expression.
pub open spec fn target_rows(
    c: Seq<Row>,
    e: Extension,
    powers: Seq<ExtLin>,
    values: Seq<ExtLin>,
    n: nat,
) -> (Seq<Row>, ExtLin)
    decreases n,
{
    if n == 0 {
        (c, ExtLin::zero())
    } else {
        let (c1, sum) = target_rows(c, e, powers, values, (n - 1) as nat);
        let (c2, p) = ext_mul_rows(c1, e, powers[n as int], values[n - 1]);
        (c2, sum.plus(p))
    }
}

/// The target in the trace is the native target.
pub proof fn lemma_target_past(
    c: Seq<Row>,
    e: Extension,
    powers: Seq<ExtLin>,
    values: Seq<ExtLin>,
    alpha: F256,
    n: nat,
    z: Seq<F128>,
)
    requires
        n <= 4,
        powers.len() == 5,
        values.len() == 4,
        ext_evals(powers, z) == crate::extension::ext_powers(e, alpha, 5),
    ensures
        prefix(c, target_rows(c, e, powers, values, n).0),
        holds_past(target_rows(c, e, powers, values, n).0, c.len(), z) ==> target_rows(
            c,
            e,
            powers,
            values,
            n,
        ).1.eval(z) == lane_target(e, alpha, ext_evals(values, z), n),
    decreases n,
{
    broadcast use {lemma_prefix_trans, crate::circuit::group_lin};

    if n > 0 {
        let m = (n - 1) as nat;
        let (c1, sum) = target_rows(c, e, powers, values, m);
        lemma_target_past(c, e, powers, values, alpha, m, z);
        lemma_ext_mul_past(c1, e, powers[n as int], values[n - 1], z);
        let (c2, p) = ext_mul_rows(c1, e, powers[n as int], values[n - 1]);
        if holds_past(c2, c.len(), z) {
            lemma_past_split(c2, c1, c.len(), z);
            assert(ext_evals(powers, z)[n as int] == e.pow(alpha, n));
        }
    }
}

/// The target of a substitution relation, in the trace.
pub fn c1_target_trace(
    b: &mut FieldR1csBuilder,
    e: &Extension,
    powers: &Vec<ExtExpr>,
    values: &Vec<ExtExpr>,
) -> (r: ExtExpr)
    requires
        old(b)@.wf(),
        powers@.len() == 5,
        values@.len() == 4,
        ext_below(ext_lins(powers@), old(b)@.rows.len()),
        ext_below(ext_lins(values@), old(b)@.rows.len()),
    ensures
        (final(b)@.rows, r@) == target_rows(
            old(b)@.rows,
            *e,
            ext_lins(powers@),
            ext_lins(values@),
            4,
        ),
        computed(old(b)@, final(b)@),
        r@.below(final(b)@.rows.len()),
{
    let ghost b0 = b@;
    let ghost (pl, vl) = (ext_lins(powers@), ext_lins(values@));
    let mut sum = ExtExpr::zero();
    let mut lane: usize = 0;
    proof {
        lemma_computed_refl(b0);
    }
    while lane < 4
        invariant
            lane <= 4,
            powers@.len() == 5,
            values@.len() == 4,
            pl == ext_lins(powers@),
            vl == ext_lins(values@),
            ext_below(pl, b0.rows.len()),
            ext_below(vl, b0.rows.len()),
            b@.wf(),
            computed(b0, b@),
            (b@.rows, sum@) == target_rows(b0.rows, *e, pl, vl, lane as nat),
            sum@.below(b@.rows.len()),
        decreases 4 - lane,
    {
        proof {
            assert(pl[lane + 1].below(b0.rows.len()));
            assert(vl[lane as int].below(b0.rows.len()));
        }
        let p = mul_ext(b, e, &powers[lane + 1], &values[lane]);
        sum = sum.add(&p);
        lane += 1;
    }
    sum
}

// ---------------------------------------------------------------------------
// In the trace
// ---------------------------------------------------------------------------

/// Why a walk is refused in the trace.
#[derive(Clone, Copy, Debug, PartialEq, Eq, Structural)]
pub enum RegionSidecarError {
    InvalidProof,
}

/// How many rounds and claimed values a relation proof has.
#[derive(Clone, Copy, Debug, PartialEq, Eq, Structural)]
pub struct RelationShape {
    pub rounds: usize,
    pub values: usize,
}

/// Shifted references among the first `n`.
pub open spec fn shift_count(references: Seq<ColRef>, n: nat) -> nat
    decreases n,
{
    if n == 0 {
        0
    } else {
        shift_count(references, (n - 1) as nat) + if references[n - 1] is CommittedShift
            || references[n - 1] is CommittedShift2 {
            1nat
        } else {
            0
        }
    }
}

/// The shifted references.
pub fn c1_shift_count(references: &Vec<ColRef>) -> (r: usize)
    ensures
        r == shift_count(references@, references@.len()),
{
    let mut count: usize = 0;
    let mut i: usize = 0;
    while i < references.len()
        invariant
            i <= references@.len(),
            count <= i,
            count == shift_count(references@, i as nat),
        decreases references@.len() - i,
    {
        match references[i] {
            ColRef::CommittedShift(_) => {
                count += 1;
            },
            ColRef::CommittedShift2(_) => {
                count += 1;
            },
            _ => {},
        }
        i += 1;
    }
    count
}

/// A relation proof has a round for every variable and a value for every
/// reference.
pub fn preflight_c1_relation(proof: RelationShape, w_log: usize, values: usize) -> (r: bool)
    ensures
        r <==> proof.rounds == w_log && proof.values == values,
{
    proof.rounds == w_log && proof.values == values
}

/// There is a shift proof for every shifted reference, each with a round for
/// every variable. `rounds` holds the rounds of each.
pub fn preflight_c1_shifts(rounds: &Vec<usize>, count: usize, w_log: usize) -> (r: bool)
    ensures
        r <==> rounds@.len() == count && forall|i: int|
            0 <= i < rounds@.len() ==> (#[trigger] rounds@[i]) == w_log,
{
    if rounds.len() != count {
        return false;
    }
    let mut i: usize = 0;
    while i < rounds.len()
        invariant
            i <= rounds@.len(),
            forall|j: int| 0 <= j < i ==> (#[trigger] rounds@[j]) == w_log,
        decreases rounds@.len() - i,
    {
        if rounds[i] != w_log {
            return false;
        }
        i += 1;
    }
    true
}

/// The shape of a deferred proof of a walk.
#[derive(Debug)]
pub struct WalkShape {
    pub selection: RelationShape,
    pub substitution: RelationShape,
    pub shift_rounds: Vec<usize>,
    pub spine_exposure: Option<RelationShape>,
}

/// A deferred proof of the leaf walk has the shape that its references ask for.
pub open spec fn walk_a_shaped(
    w_log: usize,
    selection_refs: nat,
    substitution_refs: Seq<ColRef>,
    exposure_refs: nat,
    spine: Option<SpineUnionSpec>,
    proof: WalkShape,
) -> bool {
    &&& proof.selection.rounds == w_log
    &&& proof.selection.values == selection_refs
    &&& proof.substitution.rounds == w_log
    &&& proof.substitution.values == substitution_refs.len()
    &&& proof.shift_rounds@.len() == shift_count(substitution_refs, substitution_refs.len())
    &&& forall|i: int|
        0 <= i < proof.shift_rounds@.len() ==> (#[trigger] proof.shift_rounds@[i]) == w_log
    &&& match (spine, proof.spine_exposure) {
        (None, None) => true,
        (Some(spec), Some(x)) => x.rounds == spec.expo_wlog && x.values == exposure_refs,
        _ => false,
    }
}

/// Whether a deferred proof of the leaf walk has the shape that its references
/// ask for.
pub fn preflight_c1_walk_a(
    w_log: usize,
    selection_refs: usize,
    substitution_refs: &Vec<ColRef>,
    exposure_refs: usize,
    spine: &Option<SpineUnionSpec>,
    proof: &WalkShape,
) -> (r: bool)
    ensures
        r <==> walk_a_shaped(
            w_log,
            selection_refs as nat,
            substitution_refs@,
            exposure_refs as nat,
            *spine,
            *proof,
        ),
{
    let shifts: usize = c1_shift_count(substitution_refs);
    if !preflight_c1_relation(proof.selection, w_log, selection_refs) || !preflight_c1_relation(
        proof.substitution,
        w_log,
        substitution_refs.len(),
    ) || !preflight_c1_shifts(&proof.shift_rounds, shifts, w_log) {
        return false;
    }
    match (spine, &proof.spine_exposure) {
        (None, None) => true,
        (Some(spec), Some(x)) => preflight_c1_relation(*x, spec.expo_wlog, exposure_refs),
        _ => false,
    }
}

/// A deferred proof of a duplex walk has the shape that its references ask for.
pub fn preflight_c1_duplex_deferred(
    w_log: usize,
    selection_refs: usize,
    substitution_refs: &Vec<ColRef>,
    proof: &WalkShape,
) -> (r: bool)
    ensures
        r <==> proof.selection.rounds == w_log && proof.selection.values == selection_refs
            && proof.substitution.rounds == w_log && proof.substitution.values
            == substitution_refs@.len() && proof.shift_rounds@.len() == shift_count(
            substitution_refs@,
            substitution_refs@.len(),
        ) && forall|i: int|
            0 <= i < proof.shift_rounds@.len() ==> (#[trigger] proof.shift_rounds@[i]) == w_log,
{
    let shifts: usize = c1_shift_count(substitution_refs);
    preflight_c1_relation(proof.selection, w_log, selection_refs) && preflight_c1_relation(
        proof.substitution,
        w_log,
        substitution_refs.len(),
    ) && preflight_c1_shifts(&proof.shift_rounds, shifts, w_log)
}

/// A deferred proof of a Merkle walk has the shape that its references ask for.
pub fn preflight_c1_merkle(
    w_log: usize,
    zero_refs: &Vec<ColRef>,
    selection_refs: usize,
    substitution_refs: &Vec<ColRef>,
    zero: RelationShape,
    zero_shift_rounds: &Vec<usize>,
    proof: &WalkShape,
) -> (r: bool)
    ensures
        r <==> zero.rounds == w_log && zero.values == zero_refs@.len()
            && zero_shift_rounds@.len() == shift_count(zero_refs@, zero_refs@.len()) && (forall|
            i: int,
        |
            0 <= i < zero_shift_rounds@.len() ==> (#[trigger] zero_shift_rounds@[i]) == w_log)
            && proof.selection.rounds == w_log && proof.selection.values == selection_refs
            && proof.substitution.rounds == w_log && proof.substitution.values
            == substitution_refs@.len() && proof.shift_rounds@.len() == shift_count(
            substitution_refs@,
            substitution_refs@.len(),
        ) && forall|i: int|
            0 <= i < proof.shift_rounds@.len() ==> (#[trigger] proof.shift_rounds@[i]) == w_log,
{
    let zero_shifts: usize = c1_shift_count(zero_refs);
    preflight_c1_relation(zero, w_log, zero_refs.len()) && preflight_c1_shifts(
        zero_shift_rounds,
        zero_shifts,
        w_log,
    ) && preflight_c1_duplex_deferred(w_log, selection_refs, substitution_refs, proof)
}

/// Every claim from `from` on is at a point of `w_log` coordinates.
pub open spec fn points_fit<V>(claims: Seq<Claim<V>>, from: nat, w_log: nat) -> bool {
    forall|i: int| from <= i < claims.len() ==> (#[trigger] claims[i]).point.len() == w_log
}

fn points_are<T: Cell>(claims: &Vec<C1ColumnClaim<T>>, from: usize, w_log: usize) -> (r: bool)
    ensures
        r <==> points_fit(claim_views(claims@), from as nat, w_log as nat),
{
    let mut i: usize = from;
    while i < claims.len()
        invariant
            from <= i,
            forall|j: int|
                from <= j < i && j < claims@.len() ==> (#[trigger] claim_views(
                    claims@,
                )[j]).point.len() == w_log,
        decreases claims@.len() - i,
    {
        if claims[i].point.len() != w_log {
            assert(claim_views(claims@)[i as int].point.len() != w_log);
            return false;
        }
        i += 1;
    }
    true
}

/// The claims that the leaf walk leaves behind, in the trace: those of its
/// native verification, where the proof has the shape that its references ask
/// for and the spine's columns are opened at points of the walk.
pub fn verify_c1_walk_a_walk_suffix_trace<E: Copy>(
    w_log: usize,
    spine: &Option<SpineUnionSpec>,
    selection_refs: usize,
    exposure_refs: usize,
    proof: &WalkShape,
    prefix: C1WalkPrefix<ExtExpr>,
    walk_terminal: &C1LaneClaimGroup<ExtExpr>,
    substitution: RelationOutcome<ExtExpr, E>,
    shifts: &Vec<ShiftOutcome<ExtExpr, E>>,
    exposure: Option<RelationOutcome<ExtExpr, E>>,
) -> (r: Result<Vec<C1ColumnClaim<ExtExpr>>, RegionSidecarError>)
    requires
        exposure_fits(*spine, exposure),
    ensures
        ({
            let claims = walk_a_claims(
                *spine,
                claim_views(prefix.pending@),
                substitution,
                shifts@,
                exposure,
            );
            let plain = walk_suffix(
                walk_a_kinds(),
                claim_views(prefix.pending@),
                substitution.references@,
                cells(substitution.final_values@),
                point_view(substitution.point),
                shift_views(shifts@),
                ExtLin::zero(),
            );
            let accepted = walk_terminal.point@.len() == w_log && walk_a_shaped(
                w_log,
                selection_refs as nat,
                substitution.references@,
                exposure_refs as nat,
                *spine,
                *proof,
            ) && claims is Ok && points_fit(claims->Ok_0, plain->Ok_0.len(), w_log as nat);
            match r {
                Ok(c) => accepted && claim_views(c@) == claims->Ok_0,
                Err(e) => !accepted && e == RegionSidecarError::InvalidProof,
            }
        }),
{
    if walk_terminal.point.len() != w_log || !preflight_c1_walk_a(
        w_log,
        selection_refs,
        &substitution.references,
        exposure_refs,
        spine,
        proof,
    ) {
        return Err(RegionSidecarError::InvalidProof);
    }
    let kinds = PassKinds { internal: false, shift: true, shift2: true };
    let claims = match walk_claims(kinds, prefix.pending, substitution, shifts) {
        Ok(c) => c,
        Err(_) => {
            return Err(RegionSidecarError::InvalidProof);
        },
    };
    let start: usize = claims.len();
    match (spine, exposure) {
        (None, None) => Ok(claims),
        (Some(spec), Some(x)) => {
            let point = match x.point {
                Ok(p) => p,
                Err(_) => {
                    return Err(RegionSidecarError::InvalidProof);
                },
            };
            let more = match expose(spec, &x.references, &x.final_values, &point) {
                Some(m) => m,
                None => {
                    return Err(RegionSidecarError::InvalidProof);
                },
            };
            let all = joined_claims(claims, more);
            if !points_are(&all, start, w_log) {
                return Err(RegionSidecarError::InvalidProof);
            }
            Ok(all)
        },
        _ => Err(RegionSidecarError::InvalidProof),
    }
}

/// The claims that a duplex walk leaves behind, in the trace.
pub fn verify_c1_duplex_walk_suffix_trace<E: Copy>(
    w_log: usize,
    proof: &WalkShape,
    prefix: C1WalkPrefix<ExtExpr>,
    walk_terminal: &C1LaneClaimGroup<ExtExpr>,
    substitution: RelationOutcome<ExtExpr, E>,
    shifts: &Vec<ShiftOutcome<ExtExpr, E>>,
) -> (r: Result<Vec<C1ColumnClaim<ExtExpr>>, RegionSidecarError>)
    ensures
        ({
            let refs = substitution.references@;
            let claims = walk_suffix(
                walk_a_kinds(),
                claim_views(prefix.pending@),
                refs,
                cells(substitution.final_values@),
                point_view(substitution.point),
                shift_views(shifts@),
                ExtLin::zero(),
            );
            let accepted = walk_terminal.point@.len() == w_log && proof.substitution.rounds
                == w_log && proof.substitution.values == refs.len() && proof.shift_rounds@.len()
                == shift_count(refs, refs.len()) && (forall|i: int|
                0 <= i < proof.shift_rounds@.len() ==> (#[trigger] proof.shift_rounds@[i])
                    == w_log) && claims is Ok;
            match r {
                Ok(c) => accepted && claim_views(c@) == claims->Ok_0,
                Err(e) => !accepted && e == RegionSidecarError::InvalidProof,
            }
        }),
{
    let count: usize = c1_shift_count(&substitution.references);
    if walk_terminal.point.len() != w_log || !preflight_c1_relation(
        proof.substitution,
        w_log,
        substitution.references.len(),
    ) || !preflight_c1_shifts(&proof.shift_rounds, count, w_log) {
        return Err(RegionSidecarError::InvalidProof);
    }
    let kinds = PassKinds { internal: false, shift: true, shift2: true };
    match walk_claims(kinds, prefix.pending, substitution, shifts) {
        Ok(c) => Ok(c),
        Err(_) => Err(RegionSidecarError::InvalidProof),
    }
}

/// The claims that a Merkle walk leaves behind, in the trace.
pub fn verify_c1_merkle_walk_suffix_trace<E: Copy>(
    w_log: usize,
    prefix: C1WalkPrefix<ExtExpr>,
    walk_terminal: &C1LaneClaimGroup<ExtExpr>,
    substitution: RelationOutcome<ExtExpr, E>,
    shifts: &Vec<ShiftOutcome<ExtExpr, E>>,
) -> (r: Result<Vec<C1ColumnClaim<ExtExpr>>, RegionSidecarError>)
    ensures
        ({
            let claims = merkle_suffix(
                claim_views(prefix.pending@),
                substitution.references@,
                cells(substitution.final_values@),
                point_view(substitution.point),
                shift_views(shifts@),
                ExtLin::zero(),
            );
            let accepted = walk_terminal.point@.len() == w_log && claims is Ok;
            match r {
                Ok(c) => accepted && claim_views(c@) == claims->Ok_0,
                Err(e) => !accepted && e == RegionSidecarError::InvalidProof,
            }
        }),
{
    if walk_terminal.point.len() != w_log {
        return Err(RegionSidecarError::InvalidProof);
    }
    match verify_c1_merkle_walk_suffix(prefix, substitution, shifts) {
        Ok(c) => Ok(c),
        Err(_) => Err(RegionSidecarError::InvalidProof),
    }
}

/// Every committed or shifted reference of an accepted pass leaves one claim,
/// about the column it names.
pub proof fn lemma_pass_claims<V, E>(
    kinds: PassKinds,
    references: Seq<ColRef>,
    values: Seq<V>,
    point: Seq<V>,
    shifts: Seq<Shifted<V, E>>,
    start: Pass<V>,
    n: nat,
)
    requires
        n <= references.len(),
        pass_over(kinds, references, values, point, shifts, start, n) is Ok,
    ensures
        pass_over(kinds, references, values, point, shifts, start, n)->Ok_0.pending.map_values(
            |c: Claim<V>| c.column,
        ) == start.pending.map_values(|c: Claim<V>| c.column) + claimed_columns(references, n),
        pass_over(kinds, references, values, point, shifts, start, n)->Ok_0.cursor == start.cursor
            + shift_count(references, n),
    decreases n,
{
    let f = |c: Claim<V>| c.column;
    if n > 0 {
        let m = (n - 1) as nat;
        lemma_pass_claims(kinds, references, values, point, shifts, start, m);
        let before = pass_over(kinds, references, values, point, shifts, start, m)->Ok_0;
        let after = pass_over(kinds, references, values, point, shifts, start, n)->Ok_0;
        if after.pending.len() > before.pending.len() {
            assert(after.pending.map_values(f) =~= before.pending.map_values(f).push(
                after.pending.last().column,
            ));
            assert(after.pending.map_values(f) =~= start.pending.map_values(f) + claimed_columns(
                references,
                n,
            ));
        } else {
            assert(after.pending == before.pending);
            assert(claimed_columns(references, n) =~= claimed_columns(references, m));
        }
    } else {
        assert(start.pending.map_values(f) =~= start.pending.map_values(f) + claimed_columns(
            references,
            0,
        ));
    }
}

/// The columns that the first `n` references name.
pub open spec fn claimed_columns(references: Seq<ColRef>, n: nat) -> Seq<usize>
    decreases n,
{
    if n == 0 {
        Seq::empty()
    } else {
        let before = claimed_columns(references, (n - 1) as nat);
        match references[n - 1] {
            ColRef::Committed(c) => before.push(c),
            ColRef::CommittedShift(c) => before.push(c),
            ColRef::CommittedShift2(c) => before.push(c),
            _ => before,
        }
    }
}

/// The selection that starts a walk, in the trace.
pub fn verify_c1_walk_a_walk_prefix_trace<E: Copy>(
    w_log: usize,
    proof: RelationShape,
    selection: RelationOutcome<ExtExpr, E>,
) -> (r: Result<C1WalkPrefix<ExtExpr>, RegionSidecarError>)
    ensures
        ({
            let outcome = selection_prefix(
                selection.references@,
                cells(selection.final_values@),
                point_view(selection.point),
                ExtLin::zero(),
            );
            let accepted = proof.rounds == w_log && proof.values == selection.references@.len()
                && outcome is Ok;
            match r {
                Ok(p) => accepted && prefix_view(p) == outcome->Ok_0,
                Err(e) => !accepted && e == RegionSidecarError::InvalidProof,
            }
        }),
{
    if !preflight_c1_relation(proof, w_log, selection.references.len()) {
        return Err(RegionSidecarError::InvalidProof);
    }
    match verify_c1_walk_a_walk_prefix(selection) {
        Ok(p) => Ok(p),
        Err(_) => Err(RegionSidecarError::InvalidProof),
    }
}

/// The selection that starts a duplex walk, in the trace, once the whole deferred
/// proof has its shape.
pub fn verify_c1_duplex_walk_prefix_trace<E: Copy>(
    w_log: usize,
    substitution_refs: &Vec<ColRef>,
    proof: &WalkShape,
    selection: RelationOutcome<ExtExpr, E>,
) -> (r: Result<C1WalkPrefix<ExtExpr>, RegionSidecarError>)
    ensures
        ({
            let outcome = selection_prefix(
                selection.references@,
                cells(selection.final_values@),
                point_view(selection.point),
                ExtLin::zero(),
            );
            let accepted = proof.selection.rounds == w_log && proof.selection.values
                == selection.references@.len() && proof.substitution.rounds == w_log
                && proof.substitution.values == substitution_refs@.len()
                && proof.shift_rounds@.len() == shift_count(
                substitution_refs@,
                substitution_refs@.len(),
            ) && (forall|i: int|
                0 <= i < proof.shift_rounds@.len() ==> (#[trigger] proof.shift_rounds@[i])
                    == w_log) && outcome is Ok;
            match r {
                Ok(p) => accepted && prefix_view(p) == outcome->Ok_0,
                Err(e) => !accepted && e == RegionSidecarError::InvalidProof,
            }
        }),
{
    if !preflight_c1_duplex_deferred(
        w_log,
        selection.references.len(),
        substitution_refs,
        proof,
    ) {
        return Err(RegionSidecarError::InvalidProof);
    }
    match verify_c1_duplex_walk_prefix(selection) {
        Ok(p) => Ok(p),
        Err(_) => Err(RegionSidecarError::InvalidProof),
    }
}

/// The zero relation and the selection that start a Merkle walk, in the trace,
/// once the whole deferred proof has its shape.
pub fn verify_c1_merkle_walk_prefix_trace<E: Copy>(
    w_log: usize,
    zero_shape: RelationShape,
    zero_shift_rounds: &Vec<usize>,
    substitution_refs: &Vec<ColRef>,
    proof: &WalkShape,
    zero: RelationOutcome<ExtExpr, E>,
    zero_shifts: &Vec<ShiftOutcome<ExtExpr, E>>,
    selection: RelationOutcome<ExtExpr, E>,
) -> (r: Result<C1WalkPrefix<ExtExpr>, RegionSidecarError>)
    ensures
        ({
            let outcome = merkle_prefix(
                zero.references@,
                cells(zero.final_values@),
                point_view(zero.point),
                shift_views(zero_shifts@),
                selection.references@,
                cells(selection.final_values@),
                point_view(selection.point),
                ExtLin::zero(),
            );
            let accepted = zero_shape.rounds == w_log && zero_shape.values
                == zero.references@.len() && zero_shift_rounds@.len() == shift_count(
                zero.references@,
                zero.references@.len(),
            ) && (forall|i: int|
                0 <= i < zero_shift_rounds@.len() ==> (#[trigger] zero_shift_rounds@[i])
                    == w_log) && proof.selection.rounds == w_log && proof.selection.values
                == selection.references@.len() && proof.substitution.rounds == w_log
                && proof.substitution.values == substitution_refs@.len()
                && proof.shift_rounds@.len() == shift_count(
                substitution_refs@,
                substitution_refs@.len(),
            ) && (forall|i: int|
                0 <= i < proof.shift_rounds@.len() ==> (#[trigger] proof.shift_rounds@[i])
                    == w_log) && outcome is Ok;
            match r {
                Ok(p) => accepted && prefix_view(p) == outcome->Ok_0,
                Err(e) => !accepted && e == RegionSidecarError::InvalidProof,
            }
        }),
{
    if !preflight_c1_merkle(
        w_log,
        &zero.references,
        selection.references.len(),
        substitution_refs,
        zero_shape,
        zero_shift_rounds,
        proof,
    ) {
        return Err(RegionSidecarError::InvalidProof);
    }
    match verify_c1_merkle_walk_prefix(zero, zero_shifts, selection) {
        Ok(p) => Ok(p),
        Err(_) => Err(RegionSidecarError::InvalidProof),
    }
}

/// A prover's selection, with the claims and lanes that it leaves. `None` where
/// its references are not those of a selection.
pub fn prove_c1_walk_a_walk_prefix<R, E: Copy>(selection: (R, RelationOutcome<F256, E>)) -> (r:
    Option<(R, C1WalkPrefix<F256>)>)
    ensures
        match selection_prefix(
            selection.1.references@,
            cells(selection.1.final_values@),
            point_view(selection.1.point),
            F256::zero(),
        ) {
            Ok(p) => r is Some && r->Some_0.0 == selection.0 && prefix_view(r->Some_0.1) == p,
            Err(_) => r is None,
        },
{
    match verify_c1_walk_a_walk_prefix(selection.1) {
        Ok(prefix) => Some((selection.0, prefix)),
        Err(_) => None,
    }
}

/// A prover's selection over a duplex walk, with the claims and lanes that it
/// leaves.
pub fn prove_c1_duplex_walk_prefix<R, E: Copy>(selection: (R, RelationOutcome<F256, E>)) -> (r:
    Option<(R, C1WalkPrefix<F256>)>)
    ensures
        match selection_prefix(
            selection.1.references@,
            cells(selection.1.final_values@),
            point_view(selection.1.point),
            F256::zero(),
        ) {
            Ok(p) => r is Some && r->Some_0.0 == selection.0 && prefix_view(r->Some_0.1) == p,
            Err(_) => r is None,
        },
{
    match verify_c1_duplex_walk_prefix(selection.1) {
        Ok(prefix) => Some((selection.0, prefix)),
        Err(_) => None,
    }
}

/// A prover's zero relation and selection over a Merkle walk, with the claims and
/// lanes that they leave.
pub fn prove_c1_merkle_walk_prefix<R, S, E: Copy>(
    zero: (R, RelationOutcome<F256, E>),
    zero_shifts: (Vec<S>, Vec<ShiftOutcome<F256, E>>),
    selection: (R, RelationOutcome<F256, E>),
) -> (r: Option<((R, Vec<S>, R), C1WalkPrefix<F256>)>)
    ensures
        match merkle_prefix(
            zero.1.references@,
            cells(zero.1.final_values@),
            point_view(zero.1.point),
            shift_views(zero_shifts.1@),
            selection.1.references@,
            cells(selection.1.final_values@),
            point_view(selection.1.point),
            F256::zero(),
        ) {
            Ok(p) => r is Some && r->Some_0.0 == (zero.0, zero_shifts.0, selection.0)
                && prefix_view(r->Some_0.1) == p,
            Err(_) => r is None,
        },
{
    match verify_c1_merkle_walk_prefix(zero.1, &zero_shifts.1, selection.1) {
        Ok(prefix) => Some(((zero.0, zero_shifts.0, selection.0), prefix)),
        Err(_) => None,
    }
}

// ---------------------------------------------------------------------------
// What is asked outside
// ---------------------------------------------------------------------------

/// How many slots back a shifted cell looks, as a power of two.
pub open spec fn shift_of(reference: ColRef) -> Option<usize> {
    match reference {
        ColRef::CommittedShift(_) => Some(0),
        ColRef::CommittedShift2(_) => Some(1),
        _ => None,
    }
}

/// How many slots back a shifted cell looks, as a power of two.
pub fn shift_log(reference: &ColRef) -> (r: Option<usize>)
    ensures
        r == shift_of(*reference),
{
    match reference {
        ColRef::CommittedShift(_) => Some(0),
        ColRef::CommittedShift2(_) => Some(1),
        _ => None,
    }
}

/// A shift discharge that is asked for: what a cell that looks back is claimed
/// to hold at the relation's point.
#[derive(Debug)]
pub struct C1ShiftRequest<T> {
    pub shift_log: usize,
    pub point: Vec<T>,
    pub value: T,
}

/// A shift discharge that is asked for.
pub struct ShiftAsked<V> {
    pub shift_log: usize,
    pub point: Seq<V>,
    pub value: V,
}

pub open spec fn request_views<T: Cell>(s: Seq<C1ShiftRequest<T>>) -> Seq<ShiftAsked<T::V>> {
    Seq::new(
        s.len(),
        |i: int|
            ShiftAsked {
                shift_log: s[i].shift_log,
                point: cells(s[i].point@),
                value: s[i].value@,
            },
    )
}

/// The shift discharges of the first `n` references, in order.
pub open spec fn shifts_asked<V>(
    references: Seq<ColRef>,
    values: Seq<V>,
    point: Seq<V>,
    n: nat,
) -> Seq<ShiftAsked<V>>
    decreases n,
{
    if n == 0 {
        Seq::empty()
    } else {
        let before = shifts_asked(references, values, point, (n - 1) as nat);
        match shift_of(references[n - 1]) {
            Some(shift_log) => before.push(
                ShiftAsked { shift_log, point, value: values[n - 1] },
            ),
            None => before,
        }
    }
}

/// The shift discharges that a relation's outcome asks for. Those of a pass over
/// it are taken in this order.
pub fn c1_shift_requests<T: Cell>(
    references: &Vec<ColRef>,
    values: &Vec<T>,
    point: &Vec<T>,
) -> (r: Vec<C1ShiftRequest<T>>)
    ensures
        request_views(r@) == shifts_asked(
            references@,
            cells(values@),
            cells(point@),
            lesser(references@.len(), values@.len()),
        ),
{
    let ghost (vl, pl) = (cells(values@), cells(point@));
    let mut r: Vec<C1ShiftRequest<T>> = Vec::new();
    let mut i: usize = 0;
    assert(request_views(r@) =~= Seq::empty());
    while i < references.len() && i < values.len()
        invariant
            i <= references@.len(),
            i <= values@.len(),
            vl == cells(values@),
            pl == cells(point@),
            request_views(r@) == shifts_asked(references@, vl, pl, i as nat),
        decreases references@.len() - i,
    {
        match shift_log(&references[i]) {
            Some(shift_log) => {
                let ghost before = r@;
                let asked = C1ShiftRequest {
                    shift_log,
                    point: copy_cells(point),
                    value: values[i].copied(),
                };
                r.push(asked);
                assert(request_views(r@) =~= request_views(before).push(
                    ShiftAsked { shift_log, point: pl, value: vl[i as int] },
                ));
            },
            None => {},
        }
        i += 1;
    }
    r
}

/// A pass takes one discharge for each shift asked for: the discharge that a
/// shifted cell takes is that of its own request.
pub proof fn lemma_shifts_taken<V, E>(
    kinds: PassKinds,
    references: Seq<ColRef>,
    values: Seq<V>,
    point: Seq<V>,
    shifts: Seq<Shifted<V, E>>,
    zero: V,
    n: nat,
)
    ensures
        pass_over(kinds, references, values, point, shifts, pass_start(zero), n) is Ok ==> pass_over(
            kinds,
            references,
            values,
            point,
            shifts,
            pass_start(zero),
            n,
        )->Ok_0.cursor == shifts_asked(references, values, point, n).len(),
    decreases n,
{
    if n > 0 {
        lemma_shifts_taken(kinds, references, values, point, shifts, zero, (n - 1) as nat);
    }
}

/// What a walk asks of the relation verifier: terms that sum to a target at a
/// point.
#[derive(Debug)]
pub struct C1RelationRequest {
    pub terms: Vec<C1RelationTerm>,
    pub target: F256,
    pub point: Vec<F256>,
}

impl C1RelationRequest {
    /// The request that a challenge makes of the end of a walk.
    pub open spec fn asks(
        &self,
        e: Extension,
        full: Seq<Seq<F128>>,
        shapes: Seq<Shape>,
        alpha: F256,
        terminal: C1LaneClaimGroup<F256>,
    ) -> bool {
        &&& c1_terms(self.terms@) == weighted(shapes, mds_weights(e, full, alpha))
        &&& self.target == lane_target(e, alpha, terminal.values@, 4)
        &&& self.point@ == terminal.point@
    }
}

fn relation_request(
    e: &Extension,
    alpha: F256,
    terminal: &C1LaneClaimGroup<F256>,
    terms: Vec<C1RelationTerm>,
) -> (r: C1RelationRequest)
    requires
        terminal.values@.len() == 4,
    ensures
        r.terms == terms,
        r.target == lane_target(*e, alpha, terminal.values@, 4),
        r.point@ == terminal.point@,
{
    let target = c1_target(e, alpha, terminal);
    let point = copy_cells(&terminal.point);
    proof {
        assert(cells(point@) =~= point@);
        assert(cells(terminal.point@) =~= terminal.point@);
    }
    C1RelationRequest { terms, target, point }
}

/// What the leaf walk asks under a challenge.
pub fn request_c1_walk_a_suffix(
    e: &Extension,
    tables: &PoseidonTables,
    union: &WalkAUnion,
    terminal: &C1LaneClaimGroup<F256>,
    alpha: F256,
) -> (r: C1RelationRequest)
    requires
        terminal.values@.len() == 4,
    ensures
        r.asks(*e, tables@.full, walk_a_shapes(*union), alpha, *terminal),
{
    relation_request(e, alpha, terminal, c1_walk_a_union_terms(e, tables, union, alpha))
}

/// What a Merkle walk asks under a challenge.
pub fn request_c1_merkle_suffix(
    e: &Extension,
    tables: &PoseidonTables,
    families: &Vec<MerkleProtocolFamily>,
    terminal: &C1LaneClaimGroup<F256>,
    alpha: F256,
) -> (r: C1RelationRequest)
    requires
        terminal.values@.len() == 4,
    ensures
        r.asks(*e, tables@.full, substitution_shapes(families@), alpha, *terminal),
{
    relation_request(e, alpha, terminal, c1_merkle_substitution_terms(e, tables, families, alpha))
}

/// What a duplex walk asks under a challenge.
pub fn request_c1_duplex_suffix(
    e: &Extension,
    tables: &PoseidonTables,
    refs: &DuplexFamilyRefs,
    recording_refs: &Vec<DuplexFamilyRefs>,
    terminal: &C1LaneClaimGroup<F256>,
    alpha: F256,
) -> (r: C1RelationRequest)
    requires
        terminal.values@.len() == 4,
    ensures
        r.asks(
            *e,
            tables@.full,
            duplex_shapes(with_recordings(*refs, recording_refs@)),
            alpha,
            *terminal,
        ),
{
    relation_request(e, alpha, terminal, c1_duplex_terms(e, tables, refs, recording_refs, alpha))
}

} // verus!
