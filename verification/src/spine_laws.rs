//! What the spine's unified sumcheck is for: its constraint vanishes on the cube
//! exactly where the columns run the permutation, and an honest proof is accepted.

use vstd::prelude::*;
use vstd::arithmetic::power2::{lemma_pow2_unfold, pow2};
use crate::batch_eval::reversed;
use crate::block_spine::{
    carried_at, constant_weights, constraint_at, cross, lane_weights, matrix_weights, schedules_at,
    sigma_weights, tensors_of, total, unified_checks, Schedules,
};
use crate::eval_gadgets::{inner, lemma_tensor_len, tensor};
use crate::field::{
    group_field_units, lemma_plus_assoc, lemma_plus_comm, lemma_plus_is_zero, lemma_times_assoc,
    lemma_times_comm, F128,
};
use crate::poseidon::{dot, mds, pow7, round_of, rounds_of, sboxes, Permutation};
use crate::round_poly::poly_at;
use crate::sumcheck::{
    affine, along, degree, gives, honest_polys, is_poly, joined, lemma_affine_constant,
    lemma_affine_degree, lemma_affine_product, lemma_affine_same, lemma_affine_sum,
    lemma_affine_wider, lemma_cube_zero, lemma_degree_product, lemma_degree_sum, lemma_degree_wider,
    lemma_sumcheck_complete, lemma_tensor_affine, lemma_tensor_prefix, on_cube,
};

verus! {

// ---------------------------------------------------------------------------
// Points of the cube
// ---------------------------------------------------------------------------

/// The number whose bits are the first `n` coordinates, the lowest first.
pub open spec fn number(x: Seq<F128>, n: nat) -> nat
    decreases n,
{
    if n == 0 {
        0
    } else {
        number(x, (n - 1) as nat) + if x[n - 1] == F128::one() {
            pow2((n - 1) as nat)
        } else {
            0
        }
    }
}

/// A table with a single one.
pub open spec fn unit(len: nat, i: int) -> Seq<F128> {
    Seq::new(len, |k: int| F128::of_bool(k == i))
}

/// The tensor of a point of the cube is one at its number and zero elsewhere.
pub proof fn lemma_tensor_unit(x: Seq<F128>, n: nat)
    requires
        on_cube(x),
        n <= x.len(),
    ensures
        number(x, n) < pow2(n),
        tensor(x, n) == unit(pow2(n), number(x, n) as int),
    decreases n,
{
    broadcast use {group_field_units, lemma_plus_is_zero};

    vstd::arithmetic::power2::lemma2_to64();
    if n == 0 {
        assert(tensor(x, 0) =~= unit(1, 0));
    } else {
        let m = (n - 1) as nat;
        lemma_tensor_unit(x, m);
        lemma_pow2_unfold(n);
        assert(x[n - 1].is_bit());
        assert(F128::one() != F128::zero());
        assert(tensor(x, n) =~= unit(pow2(n), number(x, n) as int));
    }
}

/// Every number has its point.
pub proof fn lemma_point_of(i: nat, n: nat) -> (x: Seq<F128>)
    requires
        i < pow2(n),
    ensures
        x.len() == n,
        on_cube(x),
        number(x, n) == i,
    decreases n,
{
    vstd::arithmetic::power2::lemma2_to64();
    if n == 0 {
        Seq::empty()
    } else {
        let m = (n - 1) as nat;
        lemma_pow2_unfold(n);
        assert(F128::one() != F128::zero());
        let half = pow2(m);
        let high = i >= half;
        let y = lemma_point_of(
            if high {
                (i - half) as nat
            } else {
                i
            },
            m,
        );
        let x = y.push(F128::of_bool(high));
        lemma_number_prefix(x, y, m);
        x
    }
}

proof fn lemma_number_prefix(x: Seq<F128>, y: Seq<F128>, n: nat)
    requires
        forall|i: int| 0 <= i < n ==> #[trigger] x[i] == y[i],
    ensures
        number(x, n) == number(y, n),
    decreases n,
{
    if n > 0 {
        lemma_number_prefix(x, y, (n - 1) as nat);
        assert(x[n - 1] == y[n - 1]);
    }
}

pub proof fn lemma_inner_unit(w: Seq<F128>, len: nat, i: int, n: nat)
    requires
        n <= len,
        0 <= i,
    ensures
        inner(w, unit(len, i), n) == if i < n {
            w[i]
        } else {
            F128::zero()
        },
        inner(unit(len, i), w, n) == if i < n {
            w[i]
        } else {
            F128::zero()
        },
    decreases n,
{
    broadcast use group_field_units;

    if n > 0 {
        lemma_inner_unit(w, len, i, (n - 1) as nat);
    }
}

proof fn lemma_total_unit(len: nat, i: int, n: nat)
    requires
        n <= len,
        0 <= i,
    ensures
        total(unit(len, i), n) == F128::of_bool(i < n),
    decreases n,
{
    broadcast use group_field_units;

    if n > 0 {
        lemma_total_unit(len, i, (n - 1) as nat);
    }
}

/// The lane, the round and the slot of a point of the cube.
pub open spec fn lane_of(x: Seq<F128>) -> int {
    number(x.subrange(0, 2), 2) as int
}

pub open spec fn round_at(x: Seq<F128>) -> int {
    number(x.subrange(2, 9), 7) as int
}

pub open spec fn slot_of(x: Seq<F128>) -> int {
    number(x.subrange(9, x.len() as int), (x.len() - 9) as nat) as int
}

/// The point follows a round of a live slot.
pub open spec fn follows_round(p: Permutation, x: Seq<F128>, live: nat) -> bool {
    1 <= round_at(x) <= p.rounds() && slot_of(x) < live
}

/// A lane has an S-box in a round: every lane in a full round, the first in a
/// partial one.
pub open spec fn has_sbox(p: Permutation, round: int, lane: int) -> bool {
    p.half_full <= round < p.half_full + p.partials ==> lane == 0
}

/// What the opened values of a point that follows a round must satisfy: with `f[0]`,
/// `f[1]` and `f[2]` the S-box input, the S-box output and the state of the lane in
/// that round, `f[3]` the state that follows it, and the outputs and states of all
/// lanes behind.
pub open spec fn runs_round(p: Permutation, round: int, lane: int, f: Seq<F128>) -> bool {
    &&& has_sbox(p, round, lane) ==> f[0] == f[2].plus(p.rc[round][lane]) && f[1] == pow7(f[0])
    &&& !has_sbox(p, round, lane) ==> f[1] == f[0]
    &&& f[3] == dot(
        if p.half_full <= round < p.half_full + p.partials {
            p.partial[lane]
        } else {
            p.full[lane]
        },
        Seq::new(
            4,
            |j: int|
                if has_sbox(p, round, j) {
                    f[4 + j]
                } else {
                    f[8 + j]
                },
        ),
        4,
    )
}

proof fn lemma_schedules_on_cube(p: Permutation, rho: Seq<F128>, x: Seq<F128>, live: nat)
    requires
        p.rounds() < 128,
        on_cube(x),
        x.len() >= 9,
        live <= pow2((x.len() - 9) as nat),
    ensures
        ({
            let v = schedules_at(p, tensors_of(rho), tensors_of(x), live);
            let (e, t, s) = (lane_of(x), round_at(x), slot_of(x));
            let r = tensors_of(rho);
            &&& 0 <= e < 4
            &&& follows_round(p, x, live) ==> {
                &&& v.u == r.slots[s].times(r.rounds[t - 1]).times(r.elem[e])
                &&& v.sigma == F128::of_bool(has_sbox(p, t - 1, e))
                &&& v.constants == if has_sbox(p, t - 1, e) {
                    p.rc[t - 1][e]
                } else {
                    F128::zero()
                }
                &&& forall|j: int|
                    0 <= j < 4 ==> #[trigger] v.matrix[j] == if p.half_full <= t - 1 < p.half_full
                        + p.partials {
                        p.partial[e][j]
                    } else {
                        p.full[e][j]
                    }
                &&& forall|j: int|
                    0 <= j < 4 ==> #[trigger] v.lanes[j] == F128::of_bool(has_sbox(p, t - 1, j))
            }
            &&& !follows_round(p, x, live) ==> v.u == F128::zero()
        }),
{
    broadcast use group_field_units;

    let n = p.rounds();
    let (a, b, c) = (x.subrange(0, 2), x.subrange(2, 9), x.subrange(9, x.len() as int));
    let k = (x.len() - 9) as nat;
    let (e, t, s) = (lane_of(x), round_at(x), slot_of(x));
    vstd::arithmetic::power2::lemma2_to64();
    lemma_tensor_unit(a, 2);
    lemma_tensor_unit(b, 7);
    lemma_tensor_unit(c, k);
    let x_at = tensors_of(x);
    let r = tensors_of(rho);
    let v = schedules_at(p, r, x_at, live);
    lemma_inner_unit(r.slots, pow2(k), s, live);
    lemma_total_unit(pow2(k), s, live);
    lemma_inner_unit(r.elem, 4, e, 4);
    let later = x_at.rounds.subrange(1, n as int + 1);
    let re = cross(x_at.rounds, x_at.elem, 4 * n);
    if t >= 1 {
        assert(later =~= unit(n, t - 1));
        lemma_inner_unit(r.rounds, n, t - 1, n);
        let at = 4 * (t - 1) + e;
        assert forall|i: int| 0 <= i < 4 * n implies re[i] == #[trigger] unit(4 * n, at)[i] by {
            assert(i / 4 + 1 == t && i % 4 == e <==> i == at);
        }
        assert(re =~= unit(4 * n, at));
        lemma_inner_unit(sigma_weights(p), 4 * n, at, 4 * n);
        lemma_inner_unit(constant_weights(p), 4 * n, at, 4 * n);
        if t <= n {
            assert(at / 4 == t - 1 && at % 4 == e);
        }
        assert forall|j: int| 0 <= j < 4 && t <= n && s < live implies #[trigger] v.matrix[j]
            == if p.half_full <= t - 1 < p.half_full + p.partials {
            p.partial[e][j]
        } else {
            p.full[e][j]
        } by {
            lemma_inner_unit(matrix_weights(p, j), 4 * n, at, 4 * n);
        }
        assert forall|j: int| 0 <= j < 4 && t <= n && s < live implies #[trigger] v.lanes[j]
            == F128::of_bool(has_sbox(p, t - 1, j)) by {
            lemma_inner_unit(lane_weights(p, j), n, t - 1, n);
        }
    } else {
        assert forall|i: int| 0 <= i < n implies #[trigger] later[i] == F128::zero() by {
            assert(later[i] == unit(128, 0)[i + 1]);
        }
        lemma_inner_none(r.rounds, later, n);
    }
}

proof fn lemma_inner_none(w: Seq<F128>, z: Seq<F128>, n: nat)
    requires
        forall|i: int| 0 <= i < n ==> #[trigger] z[i] == F128::zero(),
    ensures
        inner(w, z, n) == F128::zero(),
    decreases n,
{
    broadcast use group_field_units;

    if n > 0 {
        lemma_inner_none(w, z, (n - 1) as nat);
    }
}

/// The three parts of the constraint at such a point.
proof fn lemma_parts(p: Permutation, round: int, lane: int, v: Schedules, f: Seq<F128>)
    requires
        0 <= lane < 4,
        v.sigma == F128::of_bool(has_sbox(p, round, lane)),
        v.constants == if has_sbox(p, round, lane) {
            p.rc[round][lane]
        } else {
            F128::zero()
        },
        forall|j: int|
            0 <= j < 4 ==> #[trigger] v.matrix[j] == if p.half_full <= round < p.half_full
                + p.partials {
                p.partial[lane][j]
            } else {
                p.full[lane][j]
            },
        forall|j: int|
            0 <= j < 4 ==> #[trigger] v.lanes[j] == F128::of_bool(has_sbox(p, round, j)),
    ensures
        runs_round(p, round, lane, f) <==> {
            &&& v.sigma.times(pow7(f[0])).plus(f[1]).plus(f[0]).plus(v.sigma.times(f[0]))
                == F128::zero()
            &&& v.sigma.times(f[0].plus(f[2]).plus(v.constants)) == F128::zero()
            &&& carried_at(v, f, 4) == F128::zero()
        },
{
    broadcast use {group_field_units, lemma_plus_is_zero};

    let (a, b, c) = (f[0], f[1], f[2]);
    let q = pow7(a);
    // The S-box.
    if has_sbox(p, round, lane) {
        assert(q.plus(b).plus(a).plus(a) == q.plus(b));
        lemma_plus_is_zero(q, b);
        let k = p.rc[round][lane];
        lemma_plus_assoc(a, c, k);
        lemma_plus_is_zero(a, c.plus(k));
    } else {
        lemma_plus_comm(F128::zero(), b);
        lemma_plus_is_zero(b, a);
    }
    // The matrix.
    let row = if p.half_full <= round < p.half_full + p.partials {
        p.partial[lane]
    } else {
        p.full[lane]
    };
    let mixed = Seq::new(
        4,
        |j: int|
            if has_sbox(p, round, j) {
                f[4 + j]
            } else {
                f[8 + j]
            },
    );
    lemma_carried(v, f, row, mixed, 4);
    lemma_plus_is_zero(f[3], dot(row, mixed, 4));
}

proof fn lemma_carried(v: Schedules, f: Seq<F128>, row: Seq<F128>, mixed: Seq<F128>, n: nat)
    requires
        n <= 4,
        forall|j: int| 0 <= j < n ==> #[trigger] v.matrix[j] == row[j],
        forall|j: int|
            0 <= j < n ==> {
                ||| #[trigger] v.lanes[j] == F128::one() && mixed[j] == f[4 + j]
                ||| v.lanes[j] == F128::zero() && mixed[j] == f[8 + j]
            },
    ensures
        carried_at(v, f, n) == f[3].plus(dot(row, mixed, n)),
    decreases n,
{
    broadcast use {group_field_units, lemma_plus_is_zero};

    if n > 0 {
        let j = n - 1;
        lemma_carried(v, f, row, mixed, (n - 1) as nat);
        assert(v.matrix[j] == row[j]);
        assert(v.lanes[j] == F128::one() || v.lanes[j] == F128::zero());
        lemma_times_comm(row[j], mixed[j]);
        lemma_plus_assoc(f[3], dot(row, mixed, (n - 1) as nat), mixed[j].times(row[j]));
    }
}

/// The weighted constraint over opened values, at a point.
pub open spec fn constraint_over(
    p: Permutation,
    rho: Seq<F128>,
    x: Seq<F128>,
    f: Seq<F128>,
    beta: F128,
    gamma: F128,
    live: nat,
) -> F128 {
    constraint_at(schedules_at(p, tensors_of(rho), tensors_of(x), live), f, beta, gamma)
}

/// Whatever the challenges, the constraint vanishes at a point.
pub open spec fn vanishes(p: Permutation, x: Seq<F128>, f: Seq<F128>, live: nat) -> bool {
    forall|rho: Seq<F128>, beta: F128, gamma: F128|
        rho.len() == x.len() ==> #[trigger] constraint_over(p, rho, x, f, beta, gamma, live)
            == F128::zero()
}

/// At a point of the cube that follows a round of a live slot, the constraint
/// vanishes under all challenges exactly where the opened values run that round; at
/// every other point of the cube it vanishes whatever the values.
pub proof fn lemma_constraint_means(p: Permutation, x: Seq<F128>, f: Seq<F128>, live: nat)
    requires
        p.rounds() < 128,
        on_cube(x),
        x.len() >= 9,
        live <= pow2((x.len() - 9) as nat),
    ensures
        follows_round(p, x, live) ==> (vanishes(p, x, f, live) <==> runs_round(
            p,
            round_at(x) - 1,
            lane_of(x),
            f,
        )),
        !follows_round(p, x, live) ==> vanishes(p, x, f, live),
{
    broadcast use group_field_units;

    let (e, t, s) = (lane_of(x), round_at(x), slot_of(x));
    assert forall|rho: Seq<F128>, beta: F128, gamma: F128|
        rho.len() == x.len() && (follows_round(p, x, live) ==> runs_round(
            p,
            t - 1,
            e,
            f,
        )) implies #[trigger] constraint_over(p, rho, x, f, beta, gamma, live) == F128::zero() by {
        lemma_schedules_on_cube(p, rho, x, live);
        if follows_round(p, x, live) {
            let v = schedules_at(p, tensors_of(rho), tensors_of(x), live);
            lemma_parts(p, t - 1, e, v, f);
        }
    }
    if follows_round(p, x, live) && vanishes(p, x, f, live) {
        let (a, c) = (x.subrange(0, 2), x.subrange(9, x.len() as int));
        let k = (x.len() - 9) as nat;
        vstd::arithmetic::power2::lemma2_to64();
        lemma_tensor_unit(a, 2);
        lemma_tensor_unit(c, k);
        lemma_tensor_unit(x.subrange(2, 9), 7);
        let b = lemma_point_of((t - 1) as nat, 7);
        lemma_tensor_unit(b, 7);
        let rho = a + b + c;
        assert(rho.subrange(0, 2) =~= a);
        assert(rho.subrange(2, 9) =~= b);
        assert(rho.subrange(9, rho.len() as int) =~= c);
        let v = schedules_at(p, tensors_of(rho), tensors_of(x), live);
        lemma_schedules_on_cube(p, rho, x, live);
        assert(v.u == F128::one());
        lemma_parts(p, t - 1, e, v, f);
        let (o, i) = (F128::zero(), F128::one());
        assert(constraint_over(p, rho, x, f, o, o, live) == o);
        assert(constraint_over(p, rho, x, f, i, o, live) == o);
        assert(constraint_over(p, rho, x, f, o, i, live) == o);
    }
}

// ---------------------------------------------------------------------------
// The permutation
// ---------------------------------------------------------------------------

/// The columns of one slot: the S-box inputs, the S-box outputs and the states of
/// every round, lane by lane.
pub struct SlotTrace {
    pub s_in: Seq<Seq<F128>>,
    pub s_out: Seq<Seq<F128>>,
    pub states: Seq<Seq<F128>>,
}

/// What is opened of a slot at a lane of the state that follows a round.
pub open spec fn opened_of(c: SlotTrace, round: int, lane: int) -> Seq<F128> {
    Seq::new(
        12,
        |i: int|
            if i == 0 {
                c.s_in[round][lane]
            } else if i == 1 {
                c.s_out[round][lane]
            } else if i == 2 {
                c.states[round][lane]
            } else if i == 3 {
                c.states[round + 1][lane]
            } else if i < 8 {
                c.s_out[round][i - 4]
            } else {
                c.states[round][i - 8]
            },
    )
}

/// A slot's round is run in all lanes.
pub open spec fn round_runs(p: Permutation, c: SlotTrace, round: int) -> bool {
    forall|lane: int|
        0 <= lane < 4 ==> #[trigger] runs_round(p, round, lane, opened_of(c, round, lane))
}

/// A slot whose round is run goes from a state to the permutation's round of it, and
/// its active S-box inputs are the state plus the round's constants.
pub proof fn lemma_round_runs(p: Permutation, c: SlotTrace, round: int)
    requires
        round_runs(p, c, round),
        c.states[round + 1].len() == 4,
    ensures
        c.states[round + 1] == round_of(p, round, c.states[round]),
        forall|lane: int|
            0 <= lane < 4 && has_sbox(p, round, lane) ==> #[trigger] c.s_in[round][lane]
                == c.states[round][lane].plus(p.rc[round][lane]),
{
    let s = c.states[round];
    let out = sboxes(p, round, s);
    assert forall|lane: int| 0 <= lane < 4 implies c.states[round + 1][lane] == #[trigger] round_of(
        p,
        round,
        s,
    )[lane] by {
        assert(runs_round(p, round, lane, opened_of(c, round, lane)));
        let f = opened_of(c, round, lane);
        let mixed = Seq::new(
            4,
            |j: int|
                if has_sbox(p, round, j) {
                    f[4 + j]
                } else {
                    f[8 + j]
                },
        );
        assert forall|j: int| 0 <= j < 4 implies mixed[j] == #[trigger] out[j] by {
            assert(runs_round(p, round, j, opened_of(c, round, j)));
        }
        assert(mixed =~= out);
    }
    assert(c.states[round + 1] =~= round_of(p, round, s));
    assert forall|lane: int| 0 <= lane < 4 && has_sbox(p, round, lane) implies #[trigger] c.s_in[round][lane]
        == c.states[round][lane].plus(p.rc[round][lane]) by {
        assert(runs_round(p, round, lane, opened_of(c, round, lane)));
    }
}

/// The columns of the permutation of a state, round by round.
pub open spec fn permutation_trace(p: Permutation, input: Seq<F128>) -> SlotTrace {
    SlotTrace {
        s_in: Seq::new(
            p.rounds(),
            |k: int|
                Seq::new(
                    4,
                    |lane: int|
                        {
                            let s = rounds_of(p, input, k as nat)[lane];
                            if has_sbox(p, k, lane) {
                                s.plus(p.rc[k][lane])
                            } else {
                                s
                            }
                        },
                ),
        ),
        s_out: Seq::new(p.rounds(), |k: int| sboxes(p, k, rounds_of(p, input, k as nat))),
        states: Seq::new(p.rounds() + 1, |k: int| rounds_of(p, input, k as nat)),
    }
}

/// The columns of the permutation run every round of it.
pub proof fn lemma_permutation_runs(p: Permutation, input: Seq<F128>, round: int)
    requires
        0 <= round < p.rounds(),
    ensures
        round_runs(p, permutation_trace(p, input), round),
{
    let c = permutation_trace(p, input);
    let s = rounds_of(p, input, round as nat);
    assert(c.states[round + 1] == round_of(p, round, s));
    assert forall|lane: int| 0 <= lane < 4 implies #[trigger] runs_round(
        p,
        round,
        lane,
        opened_of(c, round, lane),
    ) by {
        let f = opened_of(c, round, lane);
        let mixed = Seq::new(
            4,
            |j: int|
                if has_sbox(p, round, j) {
                    f[4 + j]
                } else {
                    f[8 + j]
                },
        );
        assert(mixed =~= sboxes(p, round, s));
    }
}

/// A slot in which every round is run goes from what the first matrix makes of an
/// input to the permutation of that input.
pub proof fn lemma_slot_permutes(p: Permutation, c: SlotTrace, input: Seq<F128>, n: nat)
    requires
        n <= p.rounds(),
        c.states[0] == mds(p.full, input),
        forall|round: int| 0 <= round < n ==> #[trigger] round_runs(p, c, round),
        forall|round: int| 0 <= round <= n ==> (#[trigger] c.states[round]).len() == 4,
    ensures
        c.states[n as int] == rounds_of(p, input, n),
    decreases n,
{
    if n > 0 {
        lemma_slot_permutes(p, c, input, (n - 1) as nat);
        assert(c.states[n as int].len() == 4);
        assert(round_runs(p, c, n - 1));
        lemma_round_runs(p, c, n - 1);
    }
}

// ---------------------------------------------------------------------------
// An honest sumcheck
// ---------------------------------------------------------------------------

/// An entry of a table that a point gives.
pub open spec fn entry(a: spec_fn(Seq<F128>) -> Seq<F128>, k: int) -> spec_fn(Seq<F128>) -> F128 {
    |x: Seq<F128>| a(x)[k]
}

pub proof fn lemma_inner_comm(a: Seq<F128>, b: Seq<F128>, n: nat)
    ensures
        inner(a, b, n) == inner(b, a, n),
    decreases n,
{
    if n > 0 {
        lemma_inner_comm(a, b, (n - 1) as nat);
        lemma_times_comm(a[n - 1], b[n - 1]);
    }
}

pub proof fn lemma_inner_affine(
    w: Seq<F128>,
    a: spec_fn(Seq<F128>) -> Seq<F128>,
    f: spec_fn(Seq<F128>) -> F128,
    n: nat,
    lo: int,
    hi: int,
    count: nat,
)
    requires
        lo <= hi,
        forall|k: int| 0 <= k < count ==> affine(#[trigger] entry(a, k), n, lo, hi),
        forall|x: Seq<F128>| x.len() == n ==> #[trigger] f(x) == inner(w, a(x), count),
    ensures
        affine(f, n, lo, hi),
    decreases count,
{
    if count == 0 {
        lemma_affine_constant(f, n, F128::zero(), lo);
        lemma_affine_wider(f, n, lo, lo, lo, hi);
    } else {
        let m = (count - 1) as nat;
        let g = |x: Seq<F128>| inner(w, a(x), m);
        lemma_inner_affine(w, a, g, n, lo, hi, m);
        let e = entry(a, m as int);
        let k = w[m as int];
        let c = |x: Seq<F128>| k;
        lemma_affine_constant(c, n, k, lo);
        let h = |x: Seq<F128>| k.times(e(x));
        lemma_affine_product(c, e, h, n, lo, lo, hi);
        lemma_affine_sum(g, h, f, n, lo, hi);
    }
}

proof fn lemma_total_affine(
    a: spec_fn(Seq<F128>) -> Seq<F128>,
    f: spec_fn(Seq<F128>) -> F128,
    n: nat,
    lo: int,
    hi: int,
    count: nat,
)
    requires
        lo <= hi,
        forall|k: int| 0 <= k < count ==> affine(#[trigger] entry(a, k), n, lo, hi),
        forall|x: Seq<F128>| x.len() == n ==> #[trigger] f(x) == total(a(x), count),
    ensures
        affine(f, n, lo, hi),
    decreases count,
{
    if count == 0 {
        lemma_affine_constant(f, n, F128::zero(), lo);
        lemma_affine_wider(f, n, lo, lo, lo, hi);
    } else {
        let m = (count - 1) as nat;
        let g = |x: Seq<F128>| total(a(x), m);
        lemma_total_affine(a, g, n, lo, hi, m);
        lemma_affine_sum(g, entry(a, m as int), f, n, lo, hi);
    }
}

/// The tables of a point.
pub open spec fn elems() -> spec_fn(Seq<F128>) -> Seq<F128> {
    |x: Seq<F128>| tensors_of(x).elem
}

pub open spec fn all_rounds() -> spec_fn(Seq<F128>) -> Seq<F128> {
    |x: Seq<F128>| tensors_of(x).rounds
}

pub open spec fn all_slots() -> spec_fn(Seq<F128>) -> Seq<F128> {
    |x: Seq<F128>| tensors_of(x).slots
}

pub proof fn lemma_tables_affine(n: nat)
    requires
        n >= 9,
    ensures
        forall|k: int| 0 <= k < 4 ==> affine(#[trigger] entry(elems(), k), n, 0, 2),
        forall|k: int| 0 <= k < 128 ==> affine(#[trigger] entry(all_rounds(), k), n, 2, 9),
        forall|k: int|
            0 <= k < pow2((n - 9) as nat) ==> affine(
                #[trigger] entry(all_slots(), k),
                n,
                9,
                n as int,
            ),
{
    vstd::arithmetic::power2::lemma2_to64();
    assert forall|k: int| 0 <= k < 4 implies affine(#[trigger] entry(elems(), k), n, 0, 2) by {
        let f = entry(elems(), k);
        assert forall|x: Seq<F128>| x.len() == n implies #[trigger] f(x) == tensor(
            x.subrange(0, n as int),
            2,
        )[k] by {
            lemma_tensor_prefix(x.subrange(0, n as int), x.subrange(0, 2), 2);
        }
        lemma_tensor_affine(f, n, 0, 2, k);
    }
    assert forall|k: int| 0 <= k < 128 implies affine(
        #[trigger] entry(all_rounds(), k),
        n,
        2,
        9,
    ) by {
        let f = entry(all_rounds(), k);
        assert forall|x: Seq<F128>| x.len() == n implies #[trigger] f(x) == tensor(
            x.subrange(2, n as int),
            7,
        )[k] by {
            lemma_tensor_prefix(x.subrange(2, n as int), x.subrange(2, 9), 7);
        }
        lemma_tensor_affine(f, n, 2, 7, k);
    }
    assert forall|k: int| 0 <= k < pow2((n - 9) as nat) implies affine(
        #[trigger] entry(all_slots(), k),
        n,
        9,
        n as int,
    ) by {
        lemma_tensor_affine(entry(all_slots(), k), n, 9, (n - 9) as nat, k);
    }
}

/// The schedules at a point, as functions of it.
pub open spec fn schedules_over(p: Permutation, rho: Seq<F128>, live: nat) -> spec_fn(
    Seq<F128>,
) -> Schedules {
    |x: Seq<F128>| schedules_at(p, tensors_of(rho), tensors_of(x), live)
}

proof fn lemma_weight_affine(p: Permutation, rho: Seq<F128>, n: nat, live: nat)
    requires
        p.rounds() < 128,
        n >= 9,
        live <= pow2((n - 9) as nat),
    ensures
        degree(|x: Seq<F128>| schedules_over(p, rho, live)(x).u, n, 1),
{
    vstd::arithmetic::power2::lemma2_to64();
    lemma_tables_affine(n);
    let r = tensors_of(rho);
    let rounds = p.rounds();
    let a = |x: Seq<F128>| inner(r.slots, tensors_of(x).slots, live);
    lemma_inner_affine(r.slots, all_slots(), a, n, 9, n as int, live);
    let later = |x: Seq<F128>| tensors_of(x).rounds.subrange(1, rounds as int + 1);
    lemma_later_affine(later, n, rounds);
    let b = |x: Seq<F128>| inner(r.rounds, later(x), rounds);
    lemma_inner_affine(r.rounds, later, b, n, 2, 9, rounds);
    let c = |x: Seq<F128>| inner(r.elem, tensors_of(x).elem, 4);
    lemma_inner_affine(r.elem, elems(), c, n, 0, 2, 4);
    let cb = |x: Seq<F128>| c(x).times(b(x));
    lemma_affine_product(c, b, cb, n, 0, 2, 9);
    let f = |x: Seq<F128>| schedules_over(p, rho, live)(x).u;
    assert forall|x: Seq<F128>| x.len() == n implies #[trigger] f(x) == cb(x).times(a(x)) by {
        let (i, j, k) = (a(x), b(x), c(x));
        lemma_times_comm(k.times(j), i);
        lemma_times_comm(k, j);
        lemma_times_assoc(i, j, k);
    }
    lemma_affine_product(cb, a, f, n, 0, 9, n as int);
    lemma_affine_degree(f, n, 0, n as int);
}

proof fn lemma_later_affine(later: spec_fn(Seq<F128>) -> Seq<F128>, n: nat, rounds: nat)
    requires
        rounds < 128,
        n >= 9,
        forall|x: Seq<F128>|
            x.len() == n ==> #[trigger] later(x) == tensors_of(x).rounds.subrange(
                1,
                rounds as int + 1,
            ),
    ensures
        forall|k: int| 0 <= k < rounds ==> affine(#[trigger] entry(later, k), n, 2, 9),
{
    vstd::arithmetic::power2::lemma2_to64();
    lemma_tables_affine(n);
    assert forall|k: int| 0 <= k < rounds implies affine(#[trigger] entry(later, k), n, 2, 9) by {
        let g = entry(all_rounds(), k + 1);
        let f = entry(later, k);
        assert forall|x: Seq<F128>| x.len() == n implies #[trigger] f(x) == g(x) by {
            lemma_tensor_len(x.subrange(2, 9), 7);
        }
        lemma_affine_same(g, f, n, 2, 9);
    }
}

/// A schedule over rounds and lanes.
proof fn lemma_schedule_affine(
    p: Permutation,
    w: Seq<F128>,
    f: spec_fn(Seq<F128>) -> F128,
    n: nat,
    live: nat,
)
    requires
        p.rounds() < 128,
        n >= 9,
        live <= pow2((n - 9) as nat),
        forall|x: Seq<F128>|
            x.len() == n ==> #[trigger] f(x) == total(tensors_of(x).slots, live).times(
                inner(
                    cross(tensors_of(x).rounds, tensors_of(x).elem, 4 * p.rounds()),
                    w,
                    4 * p.rounds(),
                ),
            ),
    ensures
        degree(f, n, 1),
{
    lemma_tables_affine(n);
    let count = 4 * p.rounds();
    let re = |x: Seq<F128>| cross(tensors_of(x).rounds, tensors_of(x).elem, count);
    assert forall|k: int| 0 <= k < count implies affine(#[trigger] entry(re, k), n, 0, 9) by {
        let (a, b) = (entry(elems(), k % 4), entry(all_rounds(), k / 4 + 1));
        let e = entry(re, k);
        assert forall|x: Seq<F128>| x.len() == n implies #[trigger] e(x) == a(x).times(b(x)) by {
            lemma_times_comm(a(x), b(x));
        }
        lemma_affine_product(a, b, e, n, 0, 2, 9);
    }
    let g = |x: Seq<F128>| inner(w, re(x), count);
    lemma_inner_affine(w, re, g, n, 0, 9, count);
    let t = |x: Seq<F128>| total(tensors_of(x).slots, live);
    lemma_total_affine(all_slots(), t, n, 9, n as int, live);
    assert forall|x: Seq<F128>| x.len() == n implies #[trigger] f(x) == g(x).times(t(x)) by {
        lemma_inner_comm(re(x), w, count);
        lemma_times_comm(g(x), t(x));
    }
    lemma_affine_product(g, t, f, n, 0, 9, n as int);
    lemma_affine_degree(f, n, 0, n as int);
}

/// A schedule over rounds.
proof fn lemma_lane_affine(
    p: Permutation,
    w: Seq<F128>,
    f: spec_fn(Seq<F128>) -> F128,
    n: nat,
    live: nat,
)
    requires
        p.rounds() < 128,
        n >= 9,
        live <= pow2((n - 9) as nat),
        forall|x: Seq<F128>|
            x.len() == n ==> #[trigger] f(x) == total(tensors_of(x).slots, live).times(
                inner(tensors_of(x).rounds.subrange(1, p.rounds() as int + 1), w, p.rounds()),
            ),
    ensures
        degree(f, n, 1),
{
    lemma_tables_affine(n);
    let count = p.rounds();
    let later = |x: Seq<F128>| tensors_of(x).rounds.subrange(1, count as int + 1);
    lemma_later_affine(later, n, count);
    let g = |x: Seq<F128>| inner(w, later(x), count);
    lemma_inner_affine(w, later, g, n, 2, 9, count);
    let t = |x: Seq<F128>| total(tensors_of(x).slots, live);
    lemma_total_affine(all_slots(), t, n, 9, n as int, live);
    assert forall|x: Seq<F128>| x.len() == n implies #[trigger] f(x) == g(x).times(t(x)) by {
        lemma_inner_comm(later(x), w, count);
        lemma_times_comm(g(x), t(x));
    }
    lemma_affine_product(g, t, f, n, 2, 9, n as int);
    lemma_affine_degree(f, n, 2, n as int);
}

/// The columns at a point.
pub open spec fn open_at(cols: Seq<spec_fn(Seq<F128>) -> F128>, x: Seq<F128>) -> Seq<F128> {
    Seq::new(12, |i: int| cols[i](x))
}

/// Twelve columns, by their extensions to all points of `n` coordinates.
pub open spec fn extended_columns(cols: Seq<spec_fn(Seq<F128>) -> F128>, n: nat) -> bool {
    &&& cols.len() == 12
    &&& forall|i: int| 0 <= i < 12 ==> affine(#[trigger] cols[i], n, 0, n as int)
}

proof fn lemma_constant_degree(k: F128, f: spec_fn(Seq<F128>) -> F128, n: nat)
    requires
        forall|x: Seq<F128>| x.len() == n ==> #[trigger] f(x) == k,
    ensures
        degree(f, n, 1),
{
    lemma_affine_constant(f, n, k, 0);
    lemma_affine_degree(f, n, 0, 0);
}

proof fn lemma_carried_degree(
    p: Permutation,
    rho: Seq<F128>,
    cols: Seq<spec_fn(Seq<F128>) -> F128>,
    n: nat,
    live: nat,
    f: spec_fn(Seq<F128>) -> F128,
    k: nat,
)
    requires
        p.rounds() < 128,
        n >= 9,
        live <= pow2((n - 9) as nat),
        extended_columns(cols, n),
        k <= 4,
        forall|x: Seq<F128>|
            x.len() == n ==> #[trigger] f(x) == carried_at(
                schedules_over(p, rho, live)(x),
                open_at(cols, x),
                k,
            ),
    ensures
        degree(f, n, 3),
    decreases k,
{
    let v = schedules_over(p, rho, live);
    if k == 0 {
        let c = cols[3];
        lemma_affine_degree(c, n, 0, n as int);
        lemma_degree_wider(c, n, 1, 3);
        lemma_degree_equal(c, f, n, 3);
    } else {
        let j = k - 1;
        let g = |x: Seq<F128>| carried_at(v(x), open_at(cols, x), (k - 1) as nat);
        lemma_carried_degree(p, rho, cols, n, live, g, (k - 1) as nat);
        let m = |x: Seq<F128>| v(x).matrix[j];
        lemma_schedule_affine(p, matrix_weights(p, j), m, n, live);
        let l = |x: Seq<F128>| v(x).lanes[j];
        lemma_lane_affine(p, lane_weights(p, j), l, n, live);
        let one = |x: Seq<F128>| F128::one();
        lemma_constant_degree(F128::one(), one, n);
        let l1 = |x: Seq<F128>| v(x).lanes[j].plus(F128::one());
        lemma_degree_sum(l, one, l1, n, 1);
        let (a, b) = (cols[4 + j], cols[8 + j]);
        lemma_affine_degree(a, n, 0, n as int);
        lemma_affine_degree(b, n, 0, n as int);
        let la = |x: Seq<F128>| l(x).times(a(x));
        let lb = |x: Seq<F128>| l1(x).times(b(x));
        lemma_degree_product(l, a, la, n, 1, 1);
        lemma_degree_product(l1, b, lb, n, 1, 1);
        let ab = |x: Seq<F128>| la(x).plus(lb(x));
        lemma_degree_sum(la, lb, ab, n, 2);
        let mab = |x: Seq<F128>| m(x).times(ab(x));
        lemma_degree_product(m, ab, mab, n, 1, 2);
        lemma_degree_sum(g, mab, f, n, 3);
    }
}

proof fn lemma_degree_equal(
    f: spec_fn(Seq<F128>) -> F128,
    g: spec_fn(Seq<F128>) -> F128,
    n: nat,
    d: nat,
)
    requires
        degree(f, n, d),
        forall|x: Seq<F128>| x.len() == n ==> #[trigger] g(x) == f(x),
    ensures
        degree(g, n, d),
{
    broadcast use group_field_units;

    let z = |x: Seq<F128>| F128::zero();
    lemma_affine_constant(z, n, F128::zero(), 0);
    assert forall|a: Seq<F128>, b: Seq<F128>| a.len() + 1 + b.len() == n implies is_poly(
        #[trigger] along(g, a, b),
        d,
    ) by {
        assert(is_poly(along(f, a, b), d));
        let c = choose|c: Seq<F128>| gives(c, along(f, a, b), d);
        assert forall|x: F128| #[trigger] poly_at(c, x) == along(g, a, b)(x) by {
            assert(along(f, a, b)(x) == poly_at(c, x));
            assert(joined(a, x, b).len() == n);
        }
        assert(gives(c, along(g, a, b), d));
    }
}

proof fn lemma_pow7_degree(c: spec_fn(Seq<F128>) -> F128, f: spec_fn(Seq<F128>) -> F128, n: nat)
    requires
        degree(c, n, 1),
        forall|x: Seq<F128>| x.len() == n ==> #[trigger] f(x) == pow7(c(x)),
    ensures
        degree(f, n, 7),
{
    let c2 = |x: Seq<F128>| c(x).times(c(x));
    lemma_degree_product(c, c, c2, n, 1, 1);
    let c3 = |x: Seq<F128>| c2(x).times(c(x));
    lemma_degree_product(c2, c, c3, n, 2, 1);
    let c6 = |x: Seq<F128>| c3(x).times(c3(x));
    lemma_degree_product(c3, c3, c6, n, 3, 3);
    lemma_degree_product(c6, c, f, n, 6, 1);
}

/// What the unified sumcheck sums over the cube.
pub open spec fn spine_terms(
    p: Permutation,
    cols: Seq<spec_fn(Seq<F128>) -> F128>,
    rho: Seq<F128>,
    beta: F128,
    gamma: F128,
    live: nat,
) -> spec_fn(Seq<F128>) -> F128 {
    |x: Seq<F128>| constraint_over(p, rho, x, open_at(cols, x), beta, gamma, live)
}

/// The constraint over columns has degree nine in each variable.
pub proof fn lemma_spine_degree(
    p: Permutation,
    cols: Seq<spec_fn(Seq<F128>) -> F128>,
    rho: Seq<F128>,
    beta: F128,
    gamma: F128,
    n: nat,
    live: nat,
)
    requires
        p.rounds() < 128,
        n >= 9,
        live <= pow2((n - 9) as nat),
        extended_columns(cols, n),
    ensures
        degree(spine_terms(p, cols, rho, beta, gamma, live), n, 9),
{
    let v = schedules_over(p, rho, live);
    let (c0, c1, c2) = (cols[0], cols[1], cols[2]);
    lemma_affine_degree(c0, n, 0, n as int);
    lemma_affine_degree(c1, n, 0, n as int);
    lemma_affine_degree(c2, n, 0, n as int);
    let u = |x: Seq<F128>| v(x).u;
    lemma_weight_affine(p, rho, n, live);
    lemma_degree_equal(|x: Seq<F128>| schedules_over(p, rho, live)(x).u, u, n, 1);
    let s = |x: Seq<F128>| v(x).sigma;
    lemma_schedule_affine(p, sigma_weights(p), s, n, live);
    let k = |x: Seq<F128>| v(x).constants;
    lemma_schedule_affine(p, constant_weights(p), k, n, live);
    // The S-box.
    let q = |x: Seq<F128>| pow7(c0(x));
    lemma_pow7_degree(c0, q, n);
    let sq = |x: Seq<F128>| s(x).times(q(x));
    lemma_degree_product(s, q, sq, n, 1, 7);
    lemma_degree_wider(c0, n, 1, 8);
    lemma_degree_wider(c1, n, 1, 8);
    let b1 = |x: Seq<F128>| sq(x).plus(c1(x));
    lemma_degree_sum(sq, c1, b1, n, 8);
    let b2 = |x: Seq<F128>| b1(x).plus(c0(x));
    lemma_degree_sum(b1, c0, b2, n, 8);
    let sc = |x: Seq<F128>| s(x).times(c0(x));
    lemma_degree_product(s, c0, sc, n, 1, 1);
    lemma_degree_wider(sc, n, 2, 8);
    let sbox = |x: Seq<F128>| b2(x).plus(sc(x));
    lemma_degree_sum(b2, sc, sbox, n, 8);
    // The input.
    let i1 = |x: Seq<F128>| c0(x).plus(c2(x));
    lemma_degree_sum(c0, c2, i1, n, 1);
    let i2 = |x: Seq<F128>| i1(x).plus(k(x));
    lemma_degree_sum(i1, k, i2, n, 1);
    let i3 = |x: Seq<F128>| s(x).times(i2(x));
    lemma_degree_product(s, i2, i3, n, 1, 1);
    let kb = |x: Seq<F128>| beta;
    lemma_constant_degree(beta, kb, n);
    let input = |x: Seq<F128>| beta.times(i3(x));
    lemma_degree_product(kb, i3, input, n, 1, 2);
    lemma_degree_wider(input, n, 3, 8);
    // What is carried.
    let c = |x: Seq<F128>| carried_at(v(x), open_at(cols, x), 4);
    lemma_carried_degree(p, rho, cols, n, live, c, 4);
    let kg = |x: Seq<F128>| gamma;
    lemma_constant_degree(gamma, kg, n);
    let carried = |x: Seq<F128>| gamma.times(c(x));
    lemma_degree_product(kg, c, carried, n, 1, 3);
    lemma_degree_wider(carried, n, 4, 8);
    let t1 = |x: Seq<F128>| sbox(x).plus(input(x));
    lemma_degree_sum(sbox, input, t1, n, 8);
    let t2 = |x: Seq<F128>| t1(x).plus(carried(x));
    lemma_degree_sum(t1, carried, t2, n, 8);
    let f = spine_terms(p, cols, rho, beta, gamma, live);
    lemma_degree_product(u, t2, f, n, 1, 8);
}

/// Completeness of the unified sumcheck: for columns that run every round of every
/// live slot, the honest messages and the columns at the last point are accepted,
/// whatever the challenges.
pub proof fn lemma_honest_spine_accepted(
    p: Permutation,
    cols: Seq<spec_fn(Seq<F128>) -> F128>,
    rho: Seq<F128>,
    beta: F128,
    gamma: F128,
    challenges: Seq<F128>,
    live: nat,
    d: nat,
)
    requires
        p.rounds() < 128,
        challenges.len() >= 9,
        rho.len() == challenges.len(),
        live <= pow2((challenges.len() - 9) as nat),
        d >= 9,
        extended_columns(cols, challenges.len()),
        forall|x: Seq<F128>|
            x.len() == challenges.len() && on_cube(x) && #[trigger] follows_round(p, x, live)
                ==> runs_round(p, round_at(x) - 1, lane_of(x), open_at(cols, x)),
    ensures
        unified_checks(
            p,
            honest_polys(
                spine_terms(p, cols, rho, beta, gamma, live),
                d,
                challenges.len(),
                challenges,
            ),
            open_at(cols, reversed(challenges)),
            rho,
            beta,
            gamma,
            challenges,
            live,
        ),
{
    reveal(unified_checks);
    let n = challenges.len();
    let f = spine_terms(p, cols, rho, beta, gamma, live);
    lemma_spine_degree(p, cols, rho, beta, gamma, n, live);
    lemma_degree_wider(f, n, 9, d);
    lemma_sumcheck_complete(f, d, n, challenges, n);
    assert forall|x: Seq<F128>| x.len() == n && on_cube(x) implies #[trigger] f(x)
        == F128::zero() by {
        let g = open_at(cols, x);
        lemma_constraint_means(p, x, g, live);
        assert(vanishes(p, x, g, live));
        assert(constraint_over(p, rho, x, g, beta, gamma, live) == F128::zero());
    }
    lemma_cube_zero(f, n, Seq::empty());
}

/// Completeness against the permutation: columns that hold, on every live slot, the
/// states and the S-box inputs and outputs of a permutation are accepted.
pub proof fn lemma_permutations_accepted(
    p: Permutation,
    inputs: Seq<Seq<F128>>,
    cols: Seq<spec_fn(Seq<F128>) -> F128>,
    rho: Seq<F128>,
    beta: F128,
    gamma: F128,
    challenges: Seq<F128>,
    live: nat,
    d: nat,
)
    requires
        p.rounds() < 128,
        challenges.len() >= 9,
        rho.len() == challenges.len(),
        live <= pow2((challenges.len() - 9) as nat),
        d >= 9,
        extended_columns(cols, challenges.len()),
        forall|x: Seq<F128>|
            x.len() == challenges.len() && on_cube(x) && #[trigger] follows_round(p, x, live)
                ==> open_at(cols, x) == opened_of(
                permutation_trace(p, inputs[slot_of(x)]),
                round_at(x) - 1,
                lane_of(x),
            ),
    ensures
        unified_checks(
            p,
            honest_polys(
                spine_terms(p, cols, rho, beta, gamma, live),
                d,
                challenges.len(),
                challenges,
            ),
            open_at(cols, reversed(challenges)),
            rho,
            beta,
            gamma,
            challenges,
            live,
        ),
{
    assert forall|x: Seq<F128>|
        x.len() == challenges.len() && on_cube(x) && #[trigger] follows_round(
            p,
            x,
            live,
        ) implies runs_round(p, round_at(x) - 1, lane_of(x), open_at(cols, x)) by {
        let (lane, round) = (lane_of(x), round_at(x) - 1);
        let input = inputs[slot_of(x)];
        vstd::arithmetic::power2::lemma2_to64();
        lemma_tensor_unit(x.subrange(0, 2), 2);
        lemma_permutation_runs(p, input, round);
        let c = permutation_trace(p, input);
        assert(runs_round(p, round, lane, opened_of(c, round, lane)));
    }
    lemma_honest_spine_accepted(p, cols, rho, beta, gamma, challenges, live, d);
}

} // verus!
