//! What holds of the claims that the extension-field walks leave behind: they are
//! true of the columns if what was verified is, they are opened where the walk put
//! their cells, and an honest walk meets the target that is asked of it.

use vstd::prelude::*;
use vstd::arithmetic::power2::{lemma_pow2_adds, pow2};
use crate::c1_claims::{
    carry_point, exposure_claim, exposure_claims, kid_point, lane_target, lesser, merkle_kinds,
    merkle_prefix, merkle_suffix, pass_over, pass_start, point_instance, point_local, point_tx,
    selection_kinds, selection_prefix, shift_count, walk_suffix, base_cells, C1LaneClaimGroup,
    C1RelationRequest, Claim, PassKinds, Shifted,
};
use crate::c1_meaning::weight_at;
use crate::c1_sums::{
    lanes_under, lemma_input_weights, lemma_relation_by_weight, relation_at, under_powers,
    weights_at,
};
use crate::c1_terms::{c1_terms, mds_weights, Shape, SpineUnionSpec};
use crate::extension::{Extension, F256};
use crate::field::{group_field_units, F128};
use crate::poseidon::mds;
use crate::relations::{ColRef, ColumnTable};

verus! {

// ---------------------------------------------------------------------------
// True claims
// ---------------------------------------------------------------------------

/// A claim holds of columns: its value is its column at its point.
pub open spec fn claim_holds<V>(ev: spec_fn(usize, Seq<V>) -> V, c: Claim<V>) -> bool {
    c.value == ev(c.column, c.point)
}

pub open spec fn claims_hold<V>(ev: spec_fn(usize, Seq<V>) -> V, s: Seq<Claim<V>>) -> bool {
    forall|i: int| 0 <= i < s.len() ==> claim_holds(ev, #[trigger] s[i])
}

/// What a relation's verification gave is true of columns: a committed cell has its
/// column's value at the relation's point, and the discharge of a shifted cell, by
/// its place among the shifted ones, its column's value at the discharge's point.
pub open spec fn outcome_true<V, E>(
    ev: spec_fn(usize, Seq<V>) -> V,
    references: Seq<ColRef>,
    values: Seq<V>,
    point: Seq<V>,
    shifts: Seq<Shifted<V, E>>,
    n: nat,
) -> bool {
    forall|i: int|
        0 <= i < n ==> match #[trigger] references[i] {
            ColRef::Committed(c) => values[i] == ev(c, point),
            ColRef::CommittedShift(c) => shift_true(ev, c, shifts, shift_count(references, i as nat)),
            ColRef::CommittedShift2(c) => shift_true(ev, c, shifts, shift_count(references, i as nat)),
            _ => true,
        }
}

pub open spec fn shift_true<V, E>(
    ev: spec_fn(usize, Seq<V>) -> V,
    column: usize,
    shifts: Seq<Shifted<V, E>>,
    k: nat,
) -> bool {
    k < shifts.len() && shifts[k as int].point is Ok ==> shifts[k as int].value == ev(
        column,
        shifts[k as int].point->Ok_0,
    )
}

proof fn lemma_pass_holds<V, E>(
    ev: spec_fn(usize, Seq<V>) -> V,
    kinds: PassKinds,
    references: Seq<ColRef>,
    values: Seq<V>,
    point: Seq<V>,
    shifts: Seq<Shifted<V, E>>,
    zero: V,
    n: nat,
)
    requires
        outcome_true(ev, references, values, point, shifts, n),
    ensures
        pass_over(kinds, references, values, point, shifts, pass_start(zero), n) is Ok ==> {
            let s = pass_over(kinds, references, values, point, shifts, pass_start(zero), n)->Ok_0;
            claims_hold(ev, s.pending) && s.cursor == shift_count(references, n)
        },
    decreases n,
{
    if n > 0 {
        let m = (n - 1) as nat;
        lemma_pass_holds(ev, kinds, references, values, point, shifts, zero, m);
        let before = pass_over(kinds, references, values, point, shifts, pass_start(zero), m);
        let after = pass_over(kinds, references, values, point, shifts, pass_start(zero), n);
        if after is Ok {
            let (s, r) = (before->Ok_0, after->Ok_0);
            let reference = references[n - 1];
            assert(r.pending == s.pending || (r.pending.len() == s.pending.len() + 1
                && r.pending.drop_last() =~= s.pending && claim_holds(ev, r.pending.last())));
            assert forall|i: int| 0 <= i < r.pending.len() implies claim_holds(
                ev,
                #[trigger] r.pending[i],
            ) by {
                if i < s.pending.len() {
                    assert(r.pending[i] == s.pending[i]);
                }
            }
        }
    }
}

proof fn lemma_joined_hold<V>(ev: spec_fn(usize, Seq<V>) -> V, a: Seq<Claim<V>>, b: Seq<Claim<V>>)
    requires
        claims_hold(ev, a),
        claims_hold(ev, b),
    ensures
        claims_hold(ev, a + b),
{
    assert forall|i: int| 0 <= i < (a + b).len() implies claim_holds(
        ev,
        #[trigger] (a + b)[i],
    ) by {
        if i < a.len() {
            assert((a + b)[i] == a[i]);
        } else {
            assert((a + b)[i] == b[i - a.len()]);
        }
    }
}

/// The claims after a substitution relation are true of the columns if the claims
/// before it are and what its verification gave is.
pub proof fn lemma_suffix_holds<V, E>(
    ev: spec_fn(usize, Seq<V>) -> V,
    kinds: PassKinds,
    pending: Seq<Claim<V>>,
    references: Seq<ColRef>,
    values: Seq<V>,
    point: Result<Seq<V>, E>,
    shifts: Seq<Shifted<V, E>>,
    zero: V,
)
    requires
        claims_hold(ev, pending),
        point is Ok ==> outcome_true(
            ev,
            references,
            values,
            point->Ok_0,
            shifts,
            lesser(references.len(), values.len()),
        ),
    ensures
        walk_suffix(kinds, pending, references, values, point, shifts, zero) is Ok ==> claims_hold(
            ev,
            walk_suffix(kinds, pending, references, values, point, shifts, zero)->Ok_0,
        ),
        merkle_suffix(pending, references, values, point, shifts, zero) is Ok ==> claims_hold(
            ev,
            merkle_suffix(pending, references, values, point, shifts, zero)->Ok_0,
        ),
{
    if let Ok(p) = point {
        let n = lesser(references.len(), values.len());
        lemma_pass_holds(ev, kinds, references, values, p, shifts, zero, n);
        lemma_pass_holds(ev, merkle_kinds(), references, values, p, shifts, zero, n);
        let a = pass_over(kinds, references, values, p, shifts, pass_start(zero), n);
        let b = pass_over(merkle_kinds(), references, values, p, shifts, pass_start(zero), n);
        if a is Ok {
            lemma_joined_hold(ev, pending, a->Ok_0.pending);
        }
        if b is Ok {
            lemma_joined_hold(ev, pending, b->Ok_0.pending);
        }
    }
}

/// The claims of a Merkle walk's prefix are true of the columns if what both of its
/// relations gave is.
pub proof fn lemma_prefix_holds<V, E>(
    ev: spec_fn(usize, Seq<V>) -> V,
    zero_refs: Seq<ColRef>,
    zero_values: Seq<V>,
    zero_point: Result<Seq<V>, E>,
    zero_shifts: Seq<Shifted<V, E>>,
    references: Seq<ColRef>,
    values: Seq<V>,
    point: Result<Seq<V>, E>,
    zero: V,
)
    requires
        zero_point is Ok ==> outcome_true(
            ev,
            zero_refs,
            zero_values,
            zero_point->Ok_0,
            zero_shifts,
            lesser(zero_refs.len(), zero_values.len()),
        ),
        point is Ok ==> outcome_true(
            ev,
            references,
            values,
            point->Ok_0,
            Seq::<Shifted<V, E>>::empty(),
            lesser(references.len(), values.len()),
        ),
    ensures
        ({
            let r = merkle_prefix(
                zero_refs,
                zero_values,
                zero_point,
                zero_shifts,
                references,
                values,
                point,
                zero,
            );
            r is Ok ==> claims_hold(ev, r->Ok_0.pending)
        }),
        ({
            let r = selection_prefix(references, values, point, zero);
            r is Ok ==> claims_hold(ev, r->Ok_0.pending)
        }),
{
    let none = Seq::<Shifted<V, E>>::empty();
    let n = lesser(references.len(), values.len());
    if let Ok(p) = point {
        lemma_pass_holds(ev, merkle_kinds(), references, values, p, none, zero, n);
        lemma_pass_holds(ev, selection_kinds(), references, values, p, none, zero, n);
        if let Ok(zp) = zero_point {
            let m = lesser(zero_refs.len(), zero_values.len());
            lemma_pass_holds(ev, merkle_kinds(), zero_refs, zero_values, zp, zero_shifts, zero, m);
            let a = pass_over(
                merkle_kinds(),
                zero_refs,
                zero_values,
                zp,
                zero_shifts,
                pass_start(zero),
                m,
            );
            let b = pass_over(merkle_kinds(), references, values, p, none, pass_start(zero), n);
            if a is Ok && b is Ok {
                lemma_joined_hold(ev, a->Ok_0.pending, b->Ok_0.pending);
            }
        }
    }
}

/// The lanes that a pass gathers are the values of its walk cells: a lane that just
/// one reference names has that reference's value, and one that none names is zero.
pub proof fn lemma_pass_lanes<V, E>(
    kinds: PassKinds,
    references: Seq<ColRef>,
    values: Seq<V>,
    point: Seq<V>,
    shifts: Seq<Shifted<V, E>>,
    zero: V,
    n: nat,
    lane: int,
    at: int,
)
    requires
        0 <= lane < 4,
        forall|i: int|
            0 <= i < n && i != at ==> #[trigger] references[i] != ColRef::Internal(lane as usize),
        0 <= at < n ==> references[at] == ColRef::Internal(lane as usize),
    ensures
        pass_over(kinds, references, values, point, shifts, pass_start(zero), n) is Ok ==> {
            let s = pass_over(kinds, references, values, point, shifts, pass_start(zero), n)->Ok_0;
            s.internal.len() == 4 && s.internal[lane] == if 0 <= at < n {
                values[at]
            } else {
                zero
            }
        },
    decreases n,
{
    if n > 0 {
        lemma_pass_lanes(
            kinds,
            references,
            values,
            point,
            shifts,
            zero,
            (n - 1) as nat,
            lane,
            at,
        );
    } else {
        let s = pass_start(zero);
        assert(s.internal[lane] == zero);
    }
}

// ---------------------------------------------------------------------------
// Where the spine's columns are opened
// ---------------------------------------------------------------------------

/// The number whose bits are the first `n` coordinates, the lowest first.
pub open spec fn slot_number(x: Seq<F256>, n: nat) -> nat
    decreases n,
{
    if n == 0 {
        0
    } else {
        slot_number(x, (n - 1) as nat) + if x[n - 1] == F256::spec_one() {
            pow2((n - 1) as nat)
        } else {
            0
        }
    }
}

/// A point that starts with one point and goes on with another.
proof fn lemma_slot_join(a: Seq<F256>, b: Seq<F256>, n: nat)
    requires
        n <= b.len(),
    ensures
        slot_number(a + b, a.len() + n) == slot_number(a, a.len()) + pow2(a.len()) * slot_number(
            b,
            n,
        ),
    decreases n,
{
    if n == 0 {
        lemma_slot_same(a + b, a, a.len());
        assert(pow2(a.len()) * 0 == 0) by (nonlinear_arith);
    } else {
        let m = (n - 1) as nat;
        lemma_slot_join(a, b, m);
        assert((a + b)[a.len() + n - 1] == b[n - 1]);
        lemma_pow2_adds(a.len(), m);
        let (p, q, s) = (pow2(a.len()) as int, pow2(m) as int, slot_number(b, m) as int);
        assert(p * (s + q) == p * s + p * q) by (nonlinear_arith);
    }
}

proof fn lemma_slot_same(a: Seq<F256>, b: Seq<F256>, n: nat)
    requires
        forall|i: int| 0 <= i < n ==> #[trigger] a[i] == b[i],
    ensures
        slot_number(a, n) == slot_number(b, n),
    decreases n,
{
    if n > 0 {
        lemma_slot_same(a, b, (n - 1) as nat);
        assert(a[n - 1] == b[n - 1]);
    }
}

/// What of a point of the exposed spine tells the spine's instance and place, rather
/// than the slot within it.
pub open spec fn spine_place(spec: SpineUnionSpec, point: Seq<F256>) -> Seq<F256> {
    point_instance(spec, point) + base_cells::<F256>(spec.base_bits@) + point_tx(spec, point)
        + base_cells::<F256>(spec.walk_high_bits@)
}

/// The children at slot `k` of a spine are opened at slot `k` of its block, and the
/// carried digests at slot `2 k + 1`: the slots that the exposure relates. The block
/// is the same for both.
pub proof fn lemma_exposed_slots(spec: SpineUnionSpec, point: Seq<F256>)
    requires
        spec.local_log + spec.cap_log <= point.len(),
    ensures
        ({
            let local = point_local(spec, point);
            let rest = spine_place(spec, point);
            let k = slot_number(local, spec.local_log as nat);
            let block = pow2((spec.local_log + 1) as nat) * slot_number(rest, rest.len());
            let (kid, carry) = (
                kid_point::<F256>(spec, point),
                carry_point::<F256>(spec, point),
            );
            &&& slot_number(kid, kid.len()) == k + block
            &&& slot_number(carry, carry.len()) == 2 * k + 1 + block
            &&& kid.len() == carry.len()
        }),
{
    let local = point_local(spec, point);
    let rest = spine_place(spec, point);
    let l = spec.local_log as nat;
    let (kid, carry) = (kid_point::<F256>(spec, point), carry_point::<F256>(spec, point));
    assert(F256::spec_one() != F256::spec_zero());
    vstd::arithmetic::power2::lemma2_to64();
    let zero = seq![F256::spec_zero()];
    let low = local + zero;
    assert(kid =~= low + rest);
    lemma_slot_join(low, rest, rest.len());
    lemma_slot_join(local, zero, 1);
    reveal_with_fuel(slot_number, 2);
    assert(slot_number(zero, 1) == 0);
    assert(pow2(l) * 0 == 0) by (nonlinear_arith);
    let one = seq![F256::spec_one()];
    let odd = one + local;
    assert(carry =~= odd + rest);
    lemma_slot_join(odd, rest, rest.len());
    lemma_slot_join(one, local, l);
    assert(slot_number(one, 1) == 1);
}

/// The claims of an exposure relation are true of the columns if its values are: those
/// of the first two cells of the children's columns, those of the other two of the
/// carried ones, each where it is opened.
pub proof fn lemma_exposure_holds(
    ev: spec_fn(usize, Seq<F256>) -> F256,
    spec: SpineUnionSpec,
    references: Seq<ColRef>,
    values: Seq<F256>,
    point: Seq<F256>,
    n: nat,
)
    requires
        forall|i: int|
            0 <= i < n ==> match #[trigger] references[i] {
                ColRef::Committed(l) => l < 2 ==> values[i] == ev(
                    spec.kid_meta@[l as int],
                    kid_point::<F256>(spec, point),
                ),
                ColRef::Window { col, .. } => 2 <= col < 4 ==> values[i] == ev(
                    spec.c_meta@[col - 2],
                    carry_point::<F256>(spec, point),
                ),
                _ => true,
            },
    ensures
        exposure_claims::<F256>(spec, references, values, point, n) is Some ==> claims_hold(
            ev,
            exposure_claims::<F256>(spec, references, values, point, n)->Some_0,
        ),
    decreases n,
{
    if n > 0 {
        let m = (n - 1) as nat;
        lemma_exposure_holds(ev, spec, references, values, point, m);
        let after = exposure_claims::<F256>(spec, references, values, point, n);
        if after is Some {
            let before = exposure_claims::<F256>(spec, references, values, point, m)->Some_0;
            let last = exposure_claim::<F256>(spec, references[m as int], values[m as int], point);
            lemma_joined_hold(ev, before, seq![last->Some_0]);
            assert(after->Some_0 =~= before + seq![last->Some_0]);
        }
    }
}

// ---------------------------------------------------------------------------
// Targets
// ---------------------------------------------------------------------------

proof fn lemma_target_base(e: Extension, alpha: F256, values: Seq<F256>, y: Seq<F128>, n: nat)
    requires
        forall|l: int| 0 <= l < n ==> #[trigger] values[l] == F256::of_base(y[l]),
    ensures
        lane_target(e, alpha, values, n) == under_powers(e, alpha, y, n),
    decreases n,
{
    broadcast use group_field_units;

    if n > 0 {
        lemma_target_base(e, alpha, values, y, (n - 1) as nat);
        assert(values[n - 1] == F256::of_base(y[n - 1]));
        let p = e.pow(alpha, n);
        assert(e.times(p, F256::of_base(y[n - 1])) == p.scaled(y[n - 1]));
    }
}

proof fn lemma_weights_lanes(
    t: ColumnTable,
    s: Seq<Shape>,
    table: Seq<F256>,
    x: Seq<F128>,
    slot: int,
    k: nat,
)
    requires
        forall|l: int| 0 <= l < k ==> #[trigger] x[l] == weight_at(t, s, l as nat, slot),
    ensures
        weights_at(t, s, table, slot, s.len(), k) == lanes_under(table, x, k),
    decreases k,
{
    if k > 0 {
        lemma_weights_lanes(t, s, table, x, slot, (k - 1) as nat);
        assert(x[k - 1] == weight_at(t, s, (k - 1) as nat, slot));
    }
}

/// An honest walk meets what is asked of it: where the walk's lanes are the first
/// matrix times the inputs that the terms make, lane by lane, the terms sum to the
/// target.
pub proof fn lemma_request_met(
    r: C1RelationRequest,
    e: Extension,
    full: Seq<Seq<F128>>,
    s: Seq<Shape>,
    alpha: F256,
    terminal: C1LaneClaimGroup<F256>,
    t: ColumnTable,
    slot: int,
    x: Seq<F128>,
)
    requires
        r.asks(e, full, s, alpha, terminal),
        forall|l: int| 0 <= l < 4 ==> #[trigger] x[l] == weight_at(t, s, l as nat, slot),
        forall|l: int|
            0 <= l < 4 ==> #[trigger] terminal.values@[l] == F256::of_base(mds(full, x)[l]),
    ensures
        relation_at(t, c1_terms(r.terms@), slot, c1_terms(r.terms@).len()) == r.target,
{
    let w = mds_weights(e, full, alpha);
    lemma_relation_by_weight(t, s, w, slot, s.len());
    lemma_weights_lanes(t, s, w, x, slot, 4);
    lemma_input_weights(e, full, alpha, x);
    lemma_target_base(e, alpha, terminal.values@, mds(full, x), 4);
}

} // verus!
