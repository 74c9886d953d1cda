//! What the spine's shift sumcheck is for: it ties the values that are opened of the
//! round before to the columns themselves.

use vstd::prelude::*;
use vstd::arithmetic::power2::{lemma_pow2_unfold, pow2};
use crate::batch_eval::reversed;
use crate::block_spine::tensors_of;
use crate::eval_gadgets::{equal_at, inner, lemma_tensor_len, tensor};
use crate::field::{
    group_field_units, lemma_plus_assoc, lemma_plus_comm, lemma_plus_is_zero, lemma_plus_swap,
    lemma_times_assoc, lemma_times_comm, lemma_times_plus, F128,
};
use crate::multilinear::mle;
use crate::relations::power;
use crate::spine_laws::{
    all_rounds, elems, entry, extended_columns, lane_of, lemma_inner_affine, lemma_inner_comm,
    lemma_inner_unit, lemma_point_of, lemma_tables_affine, lemma_tensor_unit, number, open_at,
    round_at, unit,
};
use crate::spine_shift::{lane_weight, rotated, shift_checks, shift_weights, slot_weight, target_at};
use crate::sumcheck::{
    affine, at_first, at_second, cube_sum, degree, honest_polys, lemma_affine_constant,
    lemma_affine_degree, lemma_affine_product, lemma_affine_same, lemma_affine_unique,
    lemma_cube_affine, lemma_cube_plus, lemma_cube_scale, lemma_degree_product, lemma_degree_sum,
    lemma_degree_wider, lemma_equal_affine, lemma_equal_comm, lemma_equal_prefix, lemma_equal_split,
    lemma_interpolates, lemma_mle_tensor, lemma_plus_times, lemma_sumcheck_complete, on_cube,
};

verus! {

// ---------------------------------------------------------------------------
// The round before
// ---------------------------------------------------------------------------

/// `y` is the point of the cube at the given lane, one round before `x` and in its
/// slot. The last round comes before the first.
pub open spec fn round_before(x: Seq<F128>, lane: int, y: Seq<F128>) -> bool {
    &&& y.len() == x.len()
    &&& on_cube(y)
    &&& lane_of(y) == lane
    &&& round_at(y) == (round_at(x) + 127) % 128
    &&& y.subrange(9, y.len() as int) == x.subrange(9, x.len() as int)
}

/// Twelve opened columns belong to the columns `g` of S-box inputs, S-box outputs
/// and states: but for the fourth, each holds at every point of the cube what its
/// column holds one round before, in the point's lane or in a fixed one.
pub open spec fn opened_before(
    g: Seq<spec_fn(Seq<F128>) -> F128>,
    cols: Seq<spec_fn(Seq<F128>) -> F128>,
    n: nat,
) -> bool {
    &&& g.len() == 3
    &&& forall|i: int| 0 <= i < 3 ==> affine(#[trigger] g[i], n, 0, n as int)
    &&& extended_columns(cols, n)
    &&& forall|i: int, x: Seq<F128>, y: Seq<F128>|
        0 <= i < 3 && x.len() == n && on_cube(x) && #[trigger] round_before(x, lane_of(x), y)
            ==> #[trigger] cols[i](x) == g[i](y)
    &&& forall|j: int, x: Seq<F128>, y: Seq<F128>|
        0 <= j < 4 && x.len() == n && on_cube(x) && #[trigger] round_before(x, j, y)
            ==> cols[4 + j](x) == g[1](y) && cols[8 + j](x) == g[2](y)
}

/// The entry of a tensor at the number of a point is the equality with the point.
proof fn lemma_entry_equal(b: Seq<F128>, y: Seq<F128>, n: nat)
    requires
        on_cube(b),
        n <= b.len(),
        n <= y.len(),
    ensures
        number(b, n) < pow2(n),
        tensor(y, n)[number(b, n) as int] == equal_at(b, y, n),
    decreases n,
{
    broadcast use {group_field_units, lemma_plus_is_zero};

    vstd::arithmetic::power2::lemma2_to64();
    if n > 0 {
        let m = (n - 1) as nat;
        lemma_entry_equal(b, y, m);
        lemma_pow2_unfold(n);
        lemma_tensor_len(y, m);
        lemma_tensor_len(y, n);
        assert(b[n - 1].is_bit());
        let (t, v) = (equal_at(b, y, m), y[n - 1]);
        lemma_times_plus(t, v, F128::one());
        lemma_plus_comm(t.times(v), t);
        lemma_plus_comm(F128::one(), v);
    }
}

// ---------------------------------------------------------------------------
// Weights as functions of either point
// ---------------------------------------------------------------------------

/// The weight of a point for the lane of `rp`.
pub open spec fn same_lane(rp: Seq<F128>, y: Seq<F128>) -> F128 {
    slot_weight(rp, y).times(equal_at(rp.subrange(0, 2), y.subrange(0, 2), 2))
}

/// Its weight for a fixed lane.
pub open spec fn one_lane(rp: Seq<F128>, y: Seq<F128>, j: int) -> F128 {
    slot_weight(rp, y).times(tensor(y.subrange(0, 2), 2)[j])
}

proof fn lemma_rotation(rp: Seq<F128>, y: Seq<F128>)
    requires
        rp.len() >= 9,
        y.len() == rp.len(),
    ensures
        mle(rotated(tensor(rp.subrange(2, 9), 7)), y.subrange(2, 9)) == inner(
            rotated(tensor(rp.subrange(2, 9), 7)),
            tensor(y.subrange(2, 9), 7),
            128,
        ),
        rotated(tensor(rp.subrange(2, 9), 7)).len() == 128,
{
    vstd::arithmetic::power2::lemma2_to64();
    lemma_tensor_len(rp.subrange(2, 9), 7);
    lemma_mle_tensor(rotated(tensor(rp.subrange(2, 9), 7)), y.subrange(2, 9));
}

/// Slot and round, as a function of the second point.
proof fn lemma_slots_affine(rp: Seq<F128>, n: nat)
    requires
        n >= 9,
        rp.len() == n,
    ensures
        affine(|y: Seq<F128>| slot_weight(rp, y), n, 2, n as int),
{
    lemma_tables_affine(n);
    let (s, r) = (rp.subrange(9, n as int), rp.subrange(2, 9));
    let w = rotated(tensor(r, 7));
    let b = |y: Seq<F128>| equal_at(s, y.subrange(9, n as int), (n - 9) as nat);
    lemma_equal_affine(s, b, n, 9, (n - 9) as nat);
    let a = |y: Seq<F128>| inner(w, tensors_of(y).rounds, 128);
    lemma_inner_affine(w, all_rounds(), a, n, 2, 9, 128);
    let f = |y: Seq<F128>| slot_weight(rp, y);
    assert forall|y: Seq<F128>| y.len() == n implies #[trigger] f(y) == a(y).times(b(y)) by {
        lemma_rotation(rp, y);
        lemma_times_comm(a(y), b(y));
    }
    lemma_affine_product(a, b, f, n, 2, 9, n as int);
}

/// Slot and round, as a function of the first point.
proof fn lemma_slots_affine_first(y: Seq<F128>, n: nat)
    requires
        n >= 9,
        y.len() == n,
    ensures
        affine(|rp: Seq<F128>| slot_weight(rp, y), n, 2, n as int),
{
    vstd::arithmetic::power2::lemma2_to64();
    lemma_tables_affine(n);
    let s = y.subrange(9, n as int);
    let w = tensor(y.subrange(2, 9), 7);
    let b = |x: Seq<F128>| equal_at(s, x.subrange(9, n as int), (n - 9) as nat);
    lemma_equal_affine(s, b, n, 9, (n - 9) as nat);
    let turned = |x: Seq<F128>| rotated(tensors_of(x).rounds);
    assert forall|k: int| 0 <= k < 128 implies affine(#[trigger] entry(turned, k), n, 2, 9) by {
        let g = entry(all_rounds(), (k + 1) % 128);
        let f = entry(turned, k);
        assert forall|x: Seq<F128>| x.len() == n implies #[trigger] f(x) == g(x) by {
            lemma_tensor_len(x.subrange(2, 9), 7);
        }
        lemma_affine_same(g, f, n, 2, 9);
    }
    let a = |x: Seq<F128>| inner(w, turned(x), 128);
    lemma_inner_affine(w, turned, a, n, 2, 9, 128);
    let f = |rp: Seq<F128>| slot_weight(rp, y);
    assert forall|x: Seq<F128>| x.len() == n implies #[trigger] f(x) == a(x).times(b(x)) by {
        lemma_rotation(x, y);
        lemma_inner_comm(w, turned(x), 128);
        lemma_equal_comm(s, x.subrange(9, n as int), (n - 9) as nat);
        lemma_times_comm(a(x), b(x));
    }
    lemma_affine_product(a, b, f, n, 2, 9, n as int);
}

proof fn lemma_elem_affine(p: Seq<F128>, n: nat)
    requires
        n >= 9,
    ensures
        affine(|y: Seq<F128>| equal_at(p, y.subrange(0, 2), 2), n, 0, 2),
{
    let f = |y: Seq<F128>| equal_at(p, y.subrange(0, 2), 2);
    assert forall|y: Seq<F128>| y.len() == n implies #[trigger] f(y) == equal_at(
        p,
        y.subrange(0, n as int),
        2,
    ) by {
        lemma_equal_prefix(p, y.subrange(0, 2), y.subrange(0, n as int), 2);
    }
    lemma_equal_affine(p, f, n, 0, 2);
}

proof fn lemma_same_lane_affine(rp: Seq<F128>, n: nat)
    requires
        n >= 9,
        rp.len() == n,
    ensures
        affine(|y: Seq<F128>| same_lane(rp, y), n, 0, n as int),
        affine(|x: Seq<F128>| same_lane(x, rp), n, 0, n as int),
{
    let p = rp.subrange(0, 2);
    let a = |y: Seq<F128>| equal_at(p, y.subrange(0, 2), 2);
    lemma_elem_affine(p, n);
    let b = |y: Seq<F128>| slot_weight(rp, y);
    lemma_slots_affine(rp, n);
    let f = |y: Seq<F128>| same_lane(rp, y);
    assert forall|y: Seq<F128>| y.len() == n implies #[trigger] f(y) == a(y).times(b(y)) by {
        lemma_times_comm(a(y), b(y));
    }
    lemma_affine_product(a, b, f, n, 0, 2, n as int);
    let c = |x: Seq<F128>| slot_weight(x, rp);
    lemma_slots_affine_first(rp, n);
    let g = |x: Seq<F128>| same_lane(x, rp);
    assert forall|x: Seq<F128>| x.len() == n implies #[trigger] g(x) == a(x).times(c(x)) by {
        lemma_equal_comm(p, x.subrange(0, 2), 2);
        lemma_times_comm(a(x), c(x));
    }
    lemma_affine_product(a, c, g, n, 0, 2, n as int);
}

proof fn lemma_one_lane_affine(rp: Seq<F128>, j: int, n: nat)
    requires
        n >= 9,
        rp.len() == n,
        0 <= j < 4,
    ensures
        affine(|y: Seq<F128>| one_lane(rp, y, j), n, 0, n as int),
        affine(|x: Seq<F128>| one_lane(x, rp, j), n, 0, n as int),
{
    lemma_tables_affine(n);
    let a = entry(elems(), j);
    let b = |y: Seq<F128>| slot_weight(rp, y);
    lemma_slots_affine(rp, n);
    let f = |y: Seq<F128>| one_lane(rp, y, j);
    assert forall|y: Seq<F128>| y.len() == n implies #[trigger] f(y) == a(y).times(b(y)) by {
        lemma_times_comm(a(y), b(y));
    }
    lemma_affine_product(a, b, f, n, 0, 2, n as int);
    let c = |x: Seq<F128>| slot_weight(x, rp);
    lemma_slots_affine_first(rp, n);
    let k = tensor(rp.subrange(0, 2), 2)[j];
    let d = |x: Seq<F128>| k;
    lemma_affine_constant(d, n, k, 2);
    let g = |x: Seq<F128>| one_lane(x, rp, j);
    assert forall|x: Seq<F128>| x.len() == n implies #[trigger] g(x) == d(x).times(c(x)) by {
        lemma_times_comm(d(x), c(x));
    }
    lemma_affine_product(d, c, g, n, 2, 2, n as int);
    crate::sumcheck::lemma_affine_wider(g, n, 2, n as int, 0, n as int);
}

// ---------------------------------------------------------------------------
// What the weights select
// ---------------------------------------------------------------------------

/// On the cube, slot and round together select the round before and the slot.
proof fn lemma_slots_select(x: Seq<F128>, b: Seq<F128>, y: Seq<F128>)
    requires
        on_cube(x),
        x.len() >= 9,
        y.len() == x.len(),
        b.len() == 7,
        on_cube(b),
        number(b, 7) == (round_at(x) + 127) % 128,
    ensures
        slot_weight(x, y) == equal_at(
            x.subrange(9, x.len() as int),
            y.subrange(9, x.len() as int),
            (x.len() - 9) as nat,
        ).times(equal_at(b, y.subrange(2, 9), 7)),
{
    vstd::arithmetic::power2::lemma2_to64();
    let t = round_at(x);
    let r = y.subrange(2, 9);
    lemma_tensor_unit(x.subrange(2, 9), 7);
    let k = (t + 127) % 128;
    assert(rotated(unit(128, t)) =~= unit(128, k)) by {
        assert forall|i: int| 0 <= i < 128 implies #[trigger] rotated(unit(128, t))[i] == unit(
            128,
            k,
        )[i] by {
            assert((i + 1) % 128 == t <==> i == k);
        }
    }
    lemma_rotation(x, y);
    lemma_inner_unit(tensor(r, 7), 128, k, 128);
    lemma_entry_equal(b, r, 7);
}

/// A weighted column, as a function of both points.
pub open spec fn same_terms(g: spec_fn(Seq<F128>) -> F128) -> spec_fn(Seq<F128>, Seq<F128>) -> F128 {
    |x: Seq<F128>, y: Seq<F128>| same_lane(x, y).times(g(y))
}

pub open spec fn lane_terms(g: spec_fn(Seq<F128>) -> F128, j: int) -> spec_fn(
    Seq<F128>,
    Seq<F128>,
) -> F128 {
    |x: Seq<F128>, y: Seq<F128>| one_lane(x, y, j).times(g(y))
}

/// A point made of a lane, a round and a slot.
proof fn lemma_parts_equal(a: Seq<F128>, b: Seq<F128>, c: Seq<F128>, y: Seq<F128>)
    requires
        a.len() == 2,
        b.len() == 7,
        y.len() == 9 + c.len(),
    ensures
        equal_at(a + b + c, y, y.len()) == equal_at(
            c,
            y.subrange(9, y.len() as int),
            c.len(),
        ).times(equal_at(b, y.subrange(2, 9), 7)).times(equal_at(a, y.subrange(0, 2), 2)),
{
    let n = y.len();
    let q = a + b + c;
    lemma_equal_split(q, y, 2, (n - 2) as nat);
    let (q2, y2) = (q.subrange(2, n as int), y.subrange(2, n as int));
    lemma_equal_split(q2, y2, 7, (n - 9) as nat);
    assert(q2.subrange(7, q2.len() as int) =~= c);
    assert(y2.subrange(7, y2.len() as int) =~= y.subrange(9, n as int));
    let (e, r, s) = (
        equal_at(a, y.subrange(0, 2), 2),
        equal_at(b, y.subrange(2, 9), 7),
        equal_at(c, y.subrange(9, n as int), c.len()),
    );
    assert forall|i: int| 0 <= i < 2 implies #[trigger] q[i] == a[i] by {}
    lemma_equal_prefix(y, q, a, 2);
    lemma_equal_prefix(a, y, y.subrange(0, 2), 2);
    assert(equal_at(q, y, 2) == e);
    assert forall|i: int| 0 <= i < 7 implies #[trigger] q2[i] == b[i] by {}
    lemma_equal_prefix(y2, q2, b, 7);
    assert forall|i: int| 0 <= i < 7 implies #[trigger] y2[i] == y.subrange(2, 9)[i] by {}
    lemma_equal_prefix(b, y2, y.subrange(2, 9), 7);
    assert(equal_at(q2, y2, 7) == r);
    lemma_times_comm(e, r.times(s));
    lemma_times_comm(r, s);
}

/// The weighted columns over the cube are the opened columns.
proof fn lemma_same_selects(
    g: spec_fn(Seq<F128>) -> F128,
    col: spec_fn(Seq<F128>) -> F128,
    n: nat,
    rp: Seq<F128>,
)
    requires
        n >= 9,
        rp.len() == n,
        affine(g, n, 0, n as int),
        affine(col, n, 0, n as int),
        forall|x: Seq<F128>, y: Seq<F128>|
            x.len() == n && on_cube(x) && #[trigger] round_before(x, lane_of(x), y)
                ==> col(x) == g(y),
    ensures
        cube_sum(at_first(same_terms(g), rp), n, Seq::empty()) == col(rp),
{
    let h = same_terms(g);
    let l = |x: Seq<F128>| cube_sum(at_first(h, x), n, Seq::empty());
    assert forall|y: Seq<F128>| y.len() == n + Seq::<F128>::empty().len() implies affine(
        #[trigger] at_second(h, y),
        n,
        0,
        n as int,
    ) by {
        lemma_same_lane_affine(y, n);
        lemma_scaled_affine(|x: Seq<F128>| same_lane(x, y), at_second(h, y), g(y), n);
    }
    lemma_cube_affine(h, l, n, 0, n as int, n, Seq::empty());
    assert forall|x: Seq<F128>| x.len() == n && on_cube(x) implies #[trigger] l(x) == col(x) by {
        vstd::arithmetic::power2::lemma2_to64();
        lemma_tensor_unit(x.subrange(2, 9), 7);
        let b = lemma_point_of(((round_at(x) + 127) % 128) as nat, 7);
        let (a, c) = (x.subrange(0, 2), x.subrange(9, n as int));
        let q = a + b + c;
        lemma_before(x, a, b, q);
        let f = at_first(h, x);
        assert forall|y: Seq<F128>| y.len() == n implies #[trigger] f(y) == equal_at(
            q,
            y,
            n,
        ).times(g(y)) by {
            lemma_slots_select(x, b, y);
            lemma_parts_equal(a, b, c, y);
        }
        lemma_interpolates(q, g, f, n, n, Seq::empty());
        assert(q.take(n as int) + Seq::<F128>::empty() =~= q);
        assert(round_before(x, lane_of(x), q));
    }
    lemma_affine_unique(l, col, n, rp);
}

proof fn lemma_scaled_affine(
    a: spec_fn(Seq<F128>) -> F128,
    f: spec_fn(Seq<F128>) -> F128,
    k: F128,
    n: nat,
)
    requires
        affine(a, n, 0, n as int),
        forall|x: Seq<F128>| x.len() == n ==> #[trigger] f(x) == a(x).times(k),
    ensures
        affine(f, n, 0, n as int),
{
    let c = |x: Seq<F128>| k;
    lemma_affine_constant(c, n, k, 0);
    assert forall|x: Seq<F128>| x.len() == n implies #[trigger] f(x) == c(x).times(a(x)) by {
        lemma_times_comm(a(x), k);
    }
    lemma_affine_product(c, a, f, n, 0, 0, n as int);
}

pub proof fn lemma_before(x: Seq<F128>, a: Seq<F128>, b: Seq<F128>, q: Seq<F128>)
    requires
        x.len() >= 9,
        on_cube(x),
        a.len() == 2,
        on_cube(a),
        b.len() == 7,
        on_cube(b),
        number(b, 7) == (round_at(x) + 127) % 128,
        q == a + b + x.subrange(9, x.len() as int),
    ensures
        round_before(x, number(a, 2) as int, q),
{
    let c = x.subrange(9, x.len() as int);
    assert(q.subrange(0, 2) =~= a);
    assert(q.subrange(2, 9) =~= b);
    assert(q.subrange(9, q.len() as int) =~= c);
    assert forall|i: int| 0 <= i < q.len() implies (#[trigger] q[i]).is_bit() by {
        if i < 2 {
            assert(a[i].is_bit());
        } else if i < 9 {
            assert(b[i - 2].is_bit());
        } else {
            assert(x[i].is_bit());
        }
    }
}

proof fn lemma_one_selects(
    g: spec_fn(Seq<F128>) -> F128,
    col: spec_fn(Seq<F128>) -> F128,
    j: int,
    n: nat,
    rp: Seq<F128>,
)
    requires
        n >= 9,
        rp.len() == n,
        0 <= j < 4,
        affine(g, n, 0, n as int),
        affine(col, n, 0, n as int),
        forall|x: Seq<F128>, y: Seq<F128>|
            x.len() == n && on_cube(x) && #[trigger] round_before(x, j, y) ==> col(x) == g(y),
    ensures
        cube_sum(at_first(lane_terms(g, j), rp), n, Seq::empty()) == col(rp),
{
    let h = lane_terms(g, j);
    let l = |x: Seq<F128>| cube_sum(at_first(h, x), n, Seq::empty());
    vstd::arithmetic::power2::lemma2_to64();
    assert forall|y: Seq<F128>| y.len() == n + Seq::<F128>::empty().len() implies affine(
        #[trigger] at_second(h, y),
        n,
        0,
        n as int,
    ) by {
        lemma_one_lane_affine(y, j, n);
        lemma_scaled_affine(|x: Seq<F128>| one_lane(x, y, j), at_second(h, y), g(y), n);
    }
    lemma_cube_affine(h, l, n, 0, n as int, n, Seq::empty());
    let a = lemma_point_of(j as nat, 2);
    assert forall|x: Seq<F128>| x.len() == n && on_cube(x) implies #[trigger] l(x) == col(x) by {
        lemma_tensor_unit(x.subrange(2, 9), 7);
        let b = lemma_point_of(((round_at(x) + 127) % 128) as nat, 7);
        let c = x.subrange(9, n as int);
        let q = a + b + c;
        lemma_before(x, a, b, q);
        let f = at_first(h, x);
        assert forall|y: Seq<F128>| y.len() == n implies #[trigger] f(y) == equal_at(
            q,
            y,
            n,
        ).times(g(y)) by {
            lemma_slots_select(x, b, y);
            lemma_parts_equal(a, b, c, y);
            lemma_entry_equal(a, y.subrange(0, 2), 2);
        }
        lemma_interpolates(q, g, f, n, n, Seq::empty());
        assert(q.take(n as int) + Seq::<F128>::empty() =~= q);
        assert(round_before(x, j, q));
    }
    lemma_affine_unique(l, col, n, rp);
}

// ---------------------------------------------------------------------------
// An honest shift
// ---------------------------------------------------------------------------

/// What the shift sumcheck sums over the cube: the columns under their weights.
pub open spec fn shift_terms(
    g: Seq<spec_fn(Seq<F128>) -> F128>,
    rp: Seq<F128>,
    delta: F128,
) -> spec_fn(Seq<F128>) -> F128 {
    |y: Seq<F128>|
        {
            let w = shift_weights(rp, delta, y);
            w.s_in.times(g[0](y)).plus(w.s_out.times(g[1](y))).plus(w.state.times(g[2](y)))
        }
}

/// The columns at a point.
pub open spec fn columns_values(g: Seq<spec_fn(Seq<F128>) -> F128>, x: Seq<F128>) -> Seq<F128> {
    seq![g[0](x), g[1](x), g[2](x)]
}

/// Values under powers from the `from`-th on.
pub open spec fn powers_sum(f: Seq<F128>, at: int, d: F128, from: nat, n: nat) -> F128
    decreases n,
{
    if n == 0 {
        F128::zero()
    } else {
        powers_sum(f, at, d, from, (n - 1) as nat).plus(
            power(d, (from + n - 1) as nat).times(f[at + n - 1]),
        )
    }
}

/// A column under the weight of its lanes.
proof fn lemma_lanes(
    g: spec_fn(Seq<F128>) -> F128,
    rp: Seq<F128>,
    d: F128,
    k: F128,
    from: nat,
    f: Seq<F128>,
    at: int,
    own: F128,
    h: spec_fn(Seq<F128>) -> F128,
    n: nat,
    m: nat,
)
    requires
        n >= 9,
        rp.len() == n,
        m <= 4,
        affine(g, n, 0, n as int),
        cube_sum(at_first(same_terms(g), rp), n, Seq::empty()) == own,
        forall|j: int|
            0 <= j < 4 ==> cube_sum(#[trigger] at_first(lane_terms(g, j), rp), n, Seq::empty())
                == f[at + j],
        forall|y: Seq<F128>|
            y.len() == n ==> #[trigger] h(y) == lane_weight(
                k.times(same_lane(rp, y)),
                slot_weight(rp, y),
                tensor(y.subrange(0, 2), 2),
                d,
                from,
                m,
            ).times(g(y)),
    ensures
        degree(h, n, 2),
        cube_sum(h, n, Seq::empty()) == k.times(own).plus(powers_sum(f, at, d, from, m)),
    decreases m,
{
    broadcast use group_field_units;

    lemma_affine_degree(g, n, 0, n as int);
    if m == 0 {
        let s = at_first(same_terms(g), rp);
        lemma_same_lane_affine(rp, n);
        let w = |y: Seq<F128>| same_lane(rp, y);
        let kw = |y: Seq<F128>| k.times(same_lane(rp, y));
        assert forall|y: Seq<F128>| y.len() == n implies #[trigger] kw(y) == w(y).times(k) by {
            lemma_times_comm(w(y), k);
        }
        lemma_scaled_affine(w, kw, k, n);
        lemma_affine_degree(kw, n, 0, n as int);
        lemma_degree_product(kw, g, h, n, 1, 1);
        assert forall|y: Seq<F128>|
            y.len() == n + Seq::<F128>::empty().len() implies #[trigger] h(y) == k.times(s(y)) by {
            lemma_times_assoc(k, same_lane(rp, y), g(y));
        }
        lemma_cube_scale(s, h, k, n, Seq::empty());
    } else {
        let j = m - 1;
        let before = |y: Seq<F128>|
            lane_weight(
                k.times(same_lane(rp, y)),
                slot_weight(rp, y),
                tensor(y.subrange(0, 2), 2),
                d,
                from,
                (m - 1) as nat,
            ).times(g(y));
        lemma_lanes(g, rp, d, k, from, f, at, own, before, n, (m - 1) as nat);
        let p = power(d, (from + m - 1) as nat);
        let s = at_first(lane_terms(g, j), rp);
        assert(cube_sum(s, n, Seq::empty()) == f[at + j]);
        lemma_one_lane_affine(rp, j, n);
        let w = |y: Seq<F128>| one_lane(rp, y, j);
        let pw = |y: Seq<F128>| p.times(one_lane(rp, y, j));
        assert forall|y: Seq<F128>| y.len() == n implies #[trigger] pw(y) == w(y).times(p) by {
            lemma_times_comm(w(y), p);
        }
        lemma_scaled_affine(w, pw, p, n);
        lemma_affine_degree(pw, n, 0, n as int);
        let last = |y: Seq<F128>| pw(y).times(g(y));
        lemma_degree_product(pw, g, last, n, 1, 1);
        assert forall|y: Seq<F128>|
            y.len() == n + Seq::<F128>::empty().len() implies #[trigger] last(y) == p.times(
            s(y),
        ) by {
            lemma_times_assoc(p, one_lane(rp, y, j), g(y));
        }
        lemma_cube_scale(s, last, p, n, Seq::empty());
        assert forall|y: Seq<F128>| y.len() == n implies #[trigger] h(y) == before(y).plus(
            last(y),
        ) by {
            lemma_plus_times(
                lane_weight(
                    k.times(same_lane(rp, y)),
                    slot_weight(rp, y),
                    tensor(y.subrange(0, 2), 2),
                    d,
                    from,
                    (m - 1) as nat,
                ),
                pw(y),
                g(y),
            );
        }
        lemma_degree_sum(before, last, h, n, 2);
        lemma_cube_plus(before, last, h, n, Seq::empty());
        lemma_plus_assoc(
            k.times(own),
            powers_sum(f, at, d, from, (m - 1) as nat),
            p.times(f[at + j]),
        );
    }
}

/// The combined target, column by column.
proof fn lemma_target_columns(f: Seq<F128>, d: F128)
    ensures
        target_at(f, d, 8) == f[0].plus(d.times(f[1]).plus(powers_sum(f, 4, d, 3, 4))).plus(
            power(d, 2).times(f[2]).plus(powers_sum(f, 8, d, 7, 4)),
        ),
{
    let start = target_at(f, d, 0);
    let (a, b) = (powers_sum(f, 4, d, 3, 4), powers_sum(f, 8, d, 7, 4));
    lemma_target_first(f, d, 4);
    lemma_target_second(f, d, 4);
    let (y, z) = (d.times(f[1]), power(d, 2).times(f[2]));
    lemma_plus_assoc(f[0], y, a);
    lemma_plus_swap(f[0].plus(y), a, z, b);
    lemma_plus_assoc(f[0].plus(y).plus(z), a, b);
}

proof fn lemma_target_first(f: Seq<F128>, d: F128, n: nat)
    requires
        n <= 4,
    ensures
        target_at(f, d, n) == target_at(f, d, 0).plus(powers_sum(f, 4, d, 3, n)),
    decreases n,
{
    broadcast use group_field_units;

    if n > 0 {
        lemma_target_first(f, d, (n - 1) as nat);
        lemma_plus_assoc(
            target_at(f, d, 0),
            powers_sum(f, 4, d, 3, (n - 1) as nat),
            power(d, n + 2).times(f[3 + n as int]),
        );
    }
}

proof fn lemma_target_second(f: Seq<F128>, d: F128, n: nat)
    requires
        n <= 4,
    ensures
        target_at(f, d, 4 + n) == target_at(f, d, 4).plus(powers_sum(f, 8, d, 7, n)),
    decreases n,
{
    broadcast use group_field_units;

    if n > 0 {
        lemma_target_second(f, d, (n - 1) as nat);
        lemma_plus_assoc(
            target_at(f, d, 4),
            powers_sum(f, 8, d, 7, (n - 1) as nat),
            power(d, n + 6).times(f[7 + n as int]),
        );
    }
}

proof fn lemma_shift_terms(
    g: Seq<spec_fn(Seq<F128>) -> F128>,
    cols: Seq<spec_fn(Seq<F128>) -> F128>,
    rp: Seq<F128>,
    delta: F128,
    n: nat,
)
    requires
        n >= 9,
        rp.len() == n,
        opened_before(g, cols, n),
    ensures
        degree(shift_terms(g, rp, delta), n, 2),
        cube_sum(shift_terms(g, rp, delta), n, Seq::empty()) == target_at(
            open_at(cols, rp),
            delta,
            8,
        ),
{
    let f = open_at(cols, rp);
    let (g0, g1, g2) = (g[0], g[1], g[2]);
    assert forall|x: Seq<F128>, y: Seq<F128>|
        x.len() == n && on_cube(x) && #[trigger] round_before(
            x,
            lane_of(x),
            y,
        ) implies cols[0](x) == g0(y) && cols[1](x) == g1(y) && cols[2](x) == g2(y) by {}
    lemma_same_selects(g0, cols[0], n, rp);
    lemma_same_selects(g1, cols[1], n, rp);
    lemma_same_selects(g2, cols[2], n, rp);
    assert forall|j: int| 0 <= j < 4 implies cube_sum(
        #[trigger] at_first(lane_terms(g1, j), rp),
        n,
        Seq::empty(),
    ) == f[4 + j] by {
        lemma_one_selects(g1, cols[4 + j], j, n, rp);
    }
    assert forall|j: int| 0 <= j < 4 implies cube_sum(
        #[trigger] at_first(lane_terms(g2, j), rp),
        n,
        Seq::empty(),
    ) == f[8 + j] by {
        lemma_one_selects(g2, cols[8 + j], j, n, rp);
    }
    let a = at_first(same_terms(g0), rp);
    lemma_same_lane_affine(rp, n);
    let w = |y: Seq<F128>| same_lane(rp, y);
    lemma_affine_degree(w, n, 0, n as int);
    lemma_affine_degree(g0, n, 0, n as int);
    lemma_degree_product(w, g0, a, n, 1, 1);
    let b = |y: Seq<F128>|
        lane_weight(
            delta.times(same_lane(rp, y)),
            slot_weight(rp, y),
            tensor(y.subrange(0, 2), 2),
            delta,
            3,
            4,
        ).times(g1(y));
    lemma_lanes(g1, rp, delta, delta, 3, f, 4, f[1], b, n, 4);
    let d2 = power(delta, 2);
    let c = |y: Seq<F128>|
        lane_weight(
            d2.times(same_lane(rp, y)),
            slot_weight(rp, y),
            tensor(y.subrange(0, 2), 2),
            delta,
            7,
            4,
        ).times(g2(y));
    lemma_lanes(g2, rp, delta, d2, 7, f, 8, f[2], c, n, 4);
    let ab = |y: Seq<F128>| a(y).plus(b(y));
    lemma_degree_sum(a, b, ab, n, 2);
    lemma_cube_plus(a, b, ab, n, Seq::empty());
    let t = shift_terms(g, rp, delta);
    lemma_degree_sum(ab, c, t, n, 2);
    lemma_cube_plus(ab, c, t, n, Seq::empty());
    lemma_target_columns(f, delta);
}

/// Completeness of the shift sumcheck: values opened of the round before of columns
/// are accepted with the columns' values at the last point, whatever the challenges.
pub proof fn lemma_honest_shift_accepted(
    g: Seq<spec_fn(Seq<F128>) -> F128>,
    cols: Seq<spec_fn(Seq<F128>) -> F128>,
    rp: Seq<F128>,
    delta: F128,
    challenges: Seq<F128>,
    d: nat,
)
    requires
        challenges.len() >= 9,
        rp.len() == challenges.len(),
        opened_before(g, cols, challenges.len()),
        d >= 2,
    ensures
        shift_checks(
            honest_polys(shift_terms(g, rp, delta), d, challenges.len(), challenges),
            open_at(cols, rp),
            rp,
            columns_values(g, reversed(challenges)),
            delta,
            challenges,
        ),
{
    reveal(shift_checks);
    let n = challenges.len();
    let f = shift_terms(g, rp, delta);
    lemma_shift_terms(g, cols, rp, delta, n);
    lemma_degree_wider(f, n, 2, d);
    lemma_sumcheck_complete(f, d, n, challenges, n);
}

} // verus!
