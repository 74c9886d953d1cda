//! What the replayed columns are: the extensions of the S-box inputs, the S-box outputs
//! and the states of the slots' permutations. They make an honest spine.

use vstd::prelude::*;
use vstd::arithmetic::power2::pow2;
use crate::batch_eval::reversed;
use crate::block_spine::{tensors_of, unified_checks, Tensors};
use crate::eval_gadgets::inner;
use crate::field::{group_field_units, lemma_times_comm, F128};
use crate::poseidon::{pow7, round_of, rounds_of, sboxes, Permutation};
use crate::shift_laws::{
    columns_values, lemma_before, lemma_honest_shift_accepted, opened_before, round_before,
    shift_terms,
};
use crate::spine_columns::{sin_of, sin_sum, sout_of, sout_sum, state_sum};
use crate::spine_laws::{
    all_rounds, all_slots, elems, entry, follows_round, has_sbox, lane_of,
    lemma_honest_spine_accepted, lemma_inner_affine, lemma_inner_comm, lemma_inner_unit,
    lemma_point_of, lemma_tables_affine, lemma_tensor_unit, open_at, round_at, runs_round, slot_of,
    spine_terms, unit,
};
use crate::spine_replay::{columns_of, Columns};
use crate::spine_shift::shift_checks;
use crate::sumcheck::{
    affine, honest_polys, lemma_affine_constant, lemma_affine_product, lemma_affine_sum,
    lemma_affine_wider, on_cube,
};

verus! {

// ---------------------------------------------------------------------------
// Sums over rounds and slots
// ---------------------------------------------------------------------------

/// Rows under the indicators of their rounds and lanes.
pub open spec fn rows_sum(
    elem: Seq<F128>,
    rounds: Seq<F128>,
    r: spec_fn(int) -> Seq<F128>,
    n: nat,
) -> F128
    decreases n,
{
    if n == 0 {
        F128::zero()
    } else {
        rows_sum(elem, rounds, r, (n - 1) as nat).plus(
            rounds[n - 1].times(inner(elem, r(n - 1), 4)),
        )
    }
}

/// The same over slots.
pub open spec fn slots_sum(
    t: Tensors,
    r: spec_fn(int) -> spec_fn(int) -> Seq<F128>,
    count: nat,
    n: nat,
) -> F128
    decreases n,
{
    if n == 0 {
        F128::zero()
    } else {
        slots_sum(t, r, count, (n - 1) as nat).plus(
            t.slots[n - 1].times(rows_sum(t.elem, t.rounds, r(n - 1), count)),
        )
    }
}

/// The rows of the three columns.
pub open spec fn state_rows(p: Permutation, raws: Seq<Seq<F128>>) -> spec_fn(int) -> spec_fn(
    int,
) -> Seq<F128> {
    |s: int| |k: int| rounds_of(p, raws[s], k as nat)
}

pub open spec fn sin_rows(p: Permutation, raws: Seq<Seq<F128>>) -> spec_fn(int) -> spec_fn(
    int,
) -> Seq<F128> {
    |s: int| |k: int| sin_of(p, k, rounds_of(p, raws[s], k as nat))
}

pub open spec fn sout_rows(p: Permutation, raws: Seq<Seq<F128>>) -> spec_fn(int) -> spec_fn(
    int,
) -> Seq<F128> {
    |s: int| |k: int| sout_of(p, k, rounds_of(p, raws[s], k as nat))
}

proof fn lemma_slot_sums(
    p: Permutation,
    elem: Seq<F128>,
    rounds: Seq<F128>,
    raws: Seq<Seq<F128>>,
    s: int,
    n: nat,
)
    ensures
        state_sum(p, elem, rounds, raws[s], n) == rows_sum(elem, rounds, state_rows(p, raws)(s), n),
        sin_sum(p, elem, rounds, raws[s], n) == rows_sum(elem, rounds, sin_rows(p, raws)(s), n),
        sout_sum(p, elem, rounds, raws[s], n) == rows_sum(elem, rounds, sout_rows(p, raws)(s), n),
    decreases n,
{
    if n > 0 {
        lemma_slot_sums(p, elem, rounds, raws, s, (n - 1) as nat);
    }
}

proof fn lemma_column_sums(p: Permutation, t: Tensors, raws: Seq<Seq<F128>>, n: nat)
    ensures
        columns_of(p, t, raws, n) == (Columns {
            state: slots_sum(t, state_rows(p, raws), p.rounds() + 1, n),
            sin: slots_sum(t, sin_rows(p, raws), p.rounds(), n),
            sout: slots_sum(t, sout_rows(p, raws), p.rounds(), n),
        }),
    decreases n,
{
    if n > 0 {
        lemma_column_sums(p, t, raws, (n - 1) as nat);
        lemma_slot_sums(p, t.elem, t.rounds, raws, n - 1, p.rounds() + 1);
        lemma_slot_sums(p, t.elem, t.rounds, raws, n - 1, p.rounds());
    }
}

proof fn lemma_rows_unit(r: spec_fn(int) -> Seq<F128>, lane: int, round: int, n: nat)
    requires
        0 <= lane < 4,
        0 <= round < 128,
        n <= 128,
    ensures
        rows_sum(unit(4, lane), unit(128, round), r, n) == if round < n {
            r(round)[lane]
        } else {
            F128::zero()
        },
    decreases n,
{
    broadcast use group_field_units;

    if n > 0 {
        lemma_rows_unit(r, lane, round, (n - 1) as nat);
        lemma_inner_unit(r(n - 1), 4, lane, 4);
    }
}

proof fn lemma_slots_unit(
    t: Tensors,
    r: spec_fn(int) -> spec_fn(int) -> Seq<F128>,
    lane: int,
    round: int,
    len: nat,
    slot: int,
    count: nat,
    n: nat,
)
    requires
        t.elem == unit(4, lane),
        t.rounds == unit(128, round),
        t.slots == unit(len, slot),
        0 <= lane < 4,
        0 <= round < 128,
        0 <= slot,
        count <= 128,
        n <= len,
    ensures
        slots_sum(t, r, count, n) == if slot < n && round < count {
            r(slot)(round)[lane]
        } else {
            F128::zero()
        },
    decreases n,
{
    broadcast use group_field_units;

    if n > 0 {
        lemma_slots_unit(t, r, lane, round, len, slot, count, (n - 1) as nat);
        lemma_rows_unit(r(n - 1), lane, round, count);
    }
}

proof fn lemma_rows_affine(
    r: spec_fn(int) -> Seq<F128>,
    f: spec_fn(Seq<F128>) -> F128,
    n: nat,
    count: nat,
)
    requires
        n >= 9,
        count <= 128,
        forall|x: Seq<F128>|
            x.len() == n ==> #[trigger] f(x) == rows_sum(
                tensors_of(x).elem,
                tensors_of(x).rounds,
                r,
                count,
            ),
    ensures
        affine(f, n, 0, 9),
    decreases count,
{
    if count == 0 {
        lemma_affine_constant(f, n, F128::zero(), 0);
        lemma_affine_wider(f, n, 0, 0, 0, 9);
    } else {
        let m = (count - 1) as nat;
        lemma_tables_affine(n);
        let g = |x: Seq<F128>| rows_sum(tensors_of(x).elem, tensors_of(x).rounds, r, m);
        lemma_rows_affine(r, g, n, m);
        let w = r(m as int);
        let a = |x: Seq<F128>| inner(w, tensors_of(x).elem, 4);
        lemma_inner_affine(w, elems(), a, n, 0, 2, 4);
        let b = entry(all_rounds(), m as int);
        let h = |x: Seq<F128>| b(x).times(inner(tensors_of(x).elem, w, 4));
        assert forall|x: Seq<F128>| x.len() == n implies #[trigger] h(x) == a(x).times(b(x)) by {
            lemma_inner_comm(w, tensors_of(x).elem, 4);
            lemma_times_comm(a(x), b(x));
        }
        lemma_affine_product(a, b, h, n, 0, 2, 9);
        lemma_affine_sum(g, h, f, n, 0, 9);
    }
}

proof fn lemma_slots_affine(
    r: spec_fn(int) -> spec_fn(int) -> Seq<F128>,
    f: spec_fn(Seq<F128>) -> F128,
    n: nat,
    count: nat,
    k: nat,
)
    requires
        n >= 9,
        count <= 128,
        k <= pow2((n - 9) as nat),
        forall|x: Seq<F128>|
            x.len() == n ==> #[trigger] f(x) == slots_sum(tensors_of(x), r, count, k),
    ensures
        affine(f, n, 0, n as int),
    decreases k,
{
    if k == 0 {
        lemma_affine_constant(f, n, F128::zero(), 0);
        lemma_affine_wider(f, n, 0, 0, 0, n as int);
    } else {
        let m = (k - 1) as nat;
        lemma_tables_affine(n);
        let g = |x: Seq<F128>| slots_sum(tensors_of(x), r, count, m);
        lemma_slots_affine(r, g, n, count, m);
        let a = |x: Seq<F128>|
            rows_sum(tensors_of(x).elem, tensors_of(x).rounds, r(m as int), count);
        lemma_rows_affine(r(m as int), a, n, count);
        let b = entry(all_slots(), m as int);
        let h = |x: Seq<F128>| b(x).times(a(x));
        assert forall|x: Seq<F128>| x.len() == n implies #[trigger] h(x) == a(x).times(b(x)) by {
            lemma_times_comm(a(x), b(x));
        }
        lemma_affine_product(a, b, h, n, 0, 9, n as int);
        lemma_affine_sum(g, h, f, n, 0, n as int);
    }
}

// ---------------------------------------------------------------------------
// The columns
// ---------------------------------------------------------------------------

/// The columns of slots that start from the given states, as functions of a point: the
/// S-box inputs, the S-box outputs and the states.
pub open spec fn replayed(p: Permutation, raws: Seq<Seq<F128>>) -> Seq<
    spec_fn(Seq<F128>) -> F128,
> {
    let c = |x: Seq<F128>| columns_of(p, tensors_of(x), raws, raws.len());
    seq![|x: Seq<F128>| c(x).sin, |x: Seq<F128>| c(x).sout, |x: Seq<F128>| c(x).state]
}

/// The replayed columns hold the slots' permutations: at a point of the cube in round
/// `t` of a slot, the state after `t` rounds; and where that round has an S-box in the
/// lane, its input, the state plus the round's constant, and its output, the seventh
/// power of that. Everywhere else on the cube they are zero.
pub proof fn lemma_replayed_on_cube(p: Permutation, raws: Seq<Seq<F128>>, x: Seq<F128>)
    requires
        p.rounds() < 128,
        x.len() >= 9,
        on_cube(x),
        raws.len() <= pow2((x.len() - 9) as nat),
    ensures
        ({
            let (e, t, s) = (lane_of(x), round_at(x), slot_of(x));
            let g = replayed(p, raws);
            let state = rounds_of(p, raws[s], t as nat)[e];
            let input = state.plus(p.rc[t][e]);
            &&& 0 <= e < 4
            &&& g[2](x) == if s < raws.len() && t <= p.rounds() {
                state
            } else {
                F128::zero()
            }
            &&& g[0](x) == if s < raws.len() && t < p.rounds() && has_sbox(p, t, e) {
                input
            } else {
                F128::zero()
            }
            &&& g[1](x) == if s < raws.len() && t < p.rounds() && has_sbox(p, t, e) {
                pow7(input)
            } else {
                F128::zero()
            }
        }),
{
    vstd::arithmetic::power2::lemma2_to64();
    let n = x.len();
    let k = (n - 9) as nat;
    let (e, t, s) = (lane_of(x), round_at(x), slot_of(x));
    lemma_tensor_unit(x.subrange(0, 2), 2);
    lemma_tensor_unit(x.subrange(2, 9), 7);
    lemma_tensor_unit(x.subrange(9, n as int), k);
    let r = tensors_of(x);
    lemma_column_sums(p, r, raws, raws.len());
    lemma_slots_unit(
        r,
        state_rows(p, raws),
        e,
        t,
        pow2(k),
        s,
        p.rounds() + 1,
        raws.len(),
    );
    lemma_slots_unit(r, sin_rows(p, raws), e, t, pow2(k), s, p.rounds(), raws.len());
    lemma_slots_unit(r, sout_rows(p, raws), e, t, pow2(k), s, p.rounds(), raws.len());
    let w = rounds_of(p, raws[s], t as nat);
    assert(sin_of(p, t, w)[e] == if has_sbox(p, t, e) {
        w[e].plus(p.rc[t][e])
    } else {
        F128::zero()
    }) by {
        assert(e == 0 || e == 1 || e == 2 || e == 3);
    }
    assert(sout_of(p, t, w)[e] == if has_sbox(p, t, e) {
        pow7(w[e].plus(p.rc[t][e]))
    } else {
        F128::zero()
    }) by {
        assert(e == 0 || e == 1 || e == 2 || e == 3);
    }
}

/// The replayed columns are affine in every coordinate.
pub proof fn lemma_replayed_affine(p: Permutation, raws: Seq<Seq<F128>>, n: nat, i: int)
    requires
        p.rounds() < 128,
        n >= 9,
        raws.len() <= pow2((n - 9) as nat),
        0 <= i < 3,
    ensures
        affine(replayed(p, raws)[i], n, 0, n as int),
{
    let f = replayed(p, raws)[i];
    let (r, count) = if i == 0 {
        (sin_rows(p, raws), p.rounds())
    } else if i == 1 {
        (sout_rows(p, raws), p.rounds())
    } else {
        (state_rows(p, raws), p.rounds() + 1)
    };
    assert forall|x: Seq<F128>| x.len() == n implies #[trigger] f(x) == slots_sum(
        tensors_of(x),
        r,
        count,
        raws.len(),
    ) by {
        lemma_column_sums(p, tensors_of(x), raws, raws.len());
    }
    lemma_slots_affine(r, f, n, count, raws.len());
}

/// Opened columns belong to replayed ones: they hold the round before, and the fourth
/// is the states themselves.
pub open spec fn opens_replayed(
    p: Permutation,
    raws: Seq<Seq<F128>>,
    cols: Seq<spec_fn(Seq<F128>) -> F128>,
    n: nat,
) -> bool {
    &&& opened_before(replayed(p, raws), cols, n)
    &&& forall|x: Seq<F128>|
        x.len() == n && on_cube(x) ==> #[trigger] cols[3](x) == replayed(p, raws)[2](x)
}

proof fn lemma_round_opened(
    p: Permutation,
    raws: Seq<Seq<F128>>,
    cols: Seq<spec_fn(Seq<F128>) -> F128>,
    x: Seq<F128>,
)
    requires
        p.rounds() < 128,
        x.len() >= 9,
        on_cube(x),
        raws.len() <= pow2((x.len() - 9) as nat),
        opens_replayed(p, raws, cols, x.len()),
        follows_round(p, x, raws.len()),
    ensures
        runs_round(p, round_at(x) - 1, lane_of(x), open_at(cols, x)),
{
    vstd::arithmetic::power2::lemma2_to64();
    let n = x.len();
    let g = replayed(p, raws);
    let (e, t, s) = (lane_of(x), round_at(x), slot_of(x));
    let k = t - 1;
    let f = open_at(cols, x);
    let w = rounds_of(p, raws[s], k as nat);
    lemma_tensor_unit(x.subrange(0, 2), 2);
    assert((t + 127) % 128 == k);
    let b = lemma_point_of(k as nat, 7);
    // The lane's own values.
    let a = x.subrange(0, 2);
    let y = a + b + x.subrange(9, n as int);
    lemma_before(x, a, b, y);
    assert(round_before(x, e, y));
    lemma_replayed_on_cube(p, raws, y);
    assert(slot_of(y) == s);
    assert(cols[0](x) == g[0](y) && cols[1](x) == g[1](y) && cols[2](x) == g[2](y));
    lemma_replayed_on_cube(p, raws, x);
    assert(f[3] == round_of(p, k, w)[e]);
    // Those of all lanes.
    let mixed = Seq::new(
        4,
        |j: int|
            if has_sbox(p, k, j) {
                f[4 + j]
            } else {
                f[8 + j]
            },
    );
    assert forall|j: int| 0 <= j < 4 implies #[trigger] mixed[j] == sboxes(p, k, w)[j] by {
        let c = lemma_point_of(j as nat, 2);
        let q = c + b + x.subrange(9, n as int);
        lemma_before(x, c, b, q);
        assert(round_before(x, j, q));
        lemma_replayed_on_cube(p, raws, q);
        assert(slot_of(q) == s);
        assert(cols[4 + j](x) == g[1](q) && cols[8 + j](x) == g[2](q));
        assert(j == 0 || j == 1 || j == 2 || j == 3);
    }
    assert(mixed =~= sboxes(p, k, w));
}

/// An honest spine: the columns of any slots are accepted by the unified sumcheck, and
/// what it opens of them by the shift sumcheck, whatever the challenges of either.
pub proof fn lemma_replayed_spine_accepted(
    p: Permutation,
    raws: Seq<Seq<F128>>,
    cols: Seq<spec_fn(Seq<F128>) -> F128>,
    rho: Seq<F128>,
    beta: F128,
    gamma: F128,
    first: Seq<F128>,
    delta: F128,
    second: Seq<F128>,
    d: nat,
)
    requires
        p.rounds() < 128,
        first.len() >= 9,
        rho.len() == first.len(),
        second.len() == first.len(),
        raws.len() <= pow2((first.len() - 9) as nat),
        opens_replayed(p, raws, cols, first.len()),
        d >= 9,
    ensures
        ({
            let n = first.len();
            let point = reversed(first);
            let opened = open_at(cols, point);
            let g = replayed(p, raws);
            &&& unified_checks(
                p,
                honest_polys(
                    spine_terms(p, cols, rho, beta, gamma, raws.len()),
                    d,
                    n,
                    first,
                ),
                opened,
                rho,
                beta,
                gamma,
                first,
                raws.len(),
            )
            &&& shift_checks(
                honest_polys(shift_terms(g, point, delta), 2, n, second),
                opened,
                point,
                columns_values(g, reversed(second)),
                delta,
                second,
            )
        }),
{
    let n = first.len();
    assert forall|x: Seq<F128>|
        x.len() == n && on_cube(x) && #[trigger] follows_round(
            p,
            x,
            raws.len(),
        ) implies runs_round(p, round_at(x) - 1, lane_of(x), open_at(cols, x)) by {
        lemma_round_opened(p, raws, cols, x);
    }
    lemma_honest_spine_accepted(p, cols, rho, beta, gamma, first, raws.len(), d);
    lemma_honest_shift_accepted(replayed(p, raws), cols, reversed(first), delta, second, 2);
}

} // verus!
