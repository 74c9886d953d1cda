//! State roots and depths of a parent and a child header.

use vstd::prelude::*;
use crate::bits::lemma_bits_stable;
use crate::circuit::{
    all_below, alloc_bit, bool_row, group_circuit, lemma_bool_sound, lemma_grows_honest,
    lemma_mul_sound, lemma_pin_sound, lins, mul_rows, pin_eq, pin_rows, sat, Circuit,
    FieldR1csBuilder, Lin, LinExpr, Row,
};
use crate::field::{lemma_plus_comm, lemma_plus_is_zero, F128};
use crate::frontier_count::{
    depth_rows, lemma_depth_sound, one_hot_at, StateDepthTrace, EXACT_STATE_DEPTH_CHOICES,
    MIN_EXACT_STATE_DEPTH,
};
use crate::permutation_network::row_eval;
use crate::poseidon::{
    compress_rows, compressed, lemma_compress_sound, poseidon2b_permute, state_lins, Permutation,
    PoseidonTables,
};
use crate::segment_compaction::pair;

verus! {

broadcast use group_circuit;

/// Old and new roots of a state update, and the depth of its paths.
pub struct ExactStateRootWires {
    pub old_root: [LinExpr; 2],
    pub new_root: [LinExpr; 2],
    pub active_depth: usize,
}

/// The hash of inner state nodes, and the roots of empty trees by depth.
pub struct StateHashing {
    pub tables: PoseidonTables,
    pub node_iv: [F128; 2],
    pub zero_roots: Vec<[F128; 2]>,
}

/// Depths of parent and child, and whether the tree grew.
pub struct StateDepthTransitionTrace {
    pub parent: StateDepthTrace,
    pub child: StateDepthTrace,
    pub grow: LinExpr,
}

/// The compression of two digests under a capacity value, in the trace.
pub fn compress_with_tag_trace(
    b: &mut FieldR1csBuilder,
    t: &PoseidonTables,
    iv: &[F128; 2],
    a_lanes: &[LinExpr; 2],
    b_lanes: &[LinExpr; 2],
) -> (r: [LinExpr; 2])
    requires
        old(b)@.wf(),
        all_below(pair(*a_lanes), old(b)@.rows.len()),
        all_below(pair(*b_lanes), old(b)@.rows.len()),
    ensures
        (final(b)@.rows, pair(r)) == compress_rows(
            old(b)@.rows,
            t@,
            iv@,
            pair(*a_lanes),
            pair(*b_lanes),
        ),
        final(b)@.grows(old(b)@),
        final(b)@.honest() <==> old(b)@.honest(),
        all_below(pair(r), final(b)@.rows.len()),
{
    let ghost n0 = old(b)@.rows.len();
    let ghost pa = pair(*a_lanes);
    let ghost pb = pair(*b_lanes);
    assert(pa[0].below(n0) && pa[1].below(n0) && pb[0].below(n0) && pb[1].below(n0));
    let first: [LinExpr; 4] = [
        a_lanes[0].dup(),
        a_lanes[1].dup(),
        LinExpr::constant(iv[0]),
        LinExpr::constant(iv[1]),
    ];
    assert(state_lins(first) =~= seq![
        pa[0],
        pa[1],
        Lin::constant(iv@[0]),
        Lin::constant(iv@[1]),
    ]);
    let s = poseidon2b_permute(b, t, &first);
    let ghost b1 = b@;
    let ghost sl = state_lins(s);
    assert(sl[0].below(b1.rows.len()) && sl[1].below(b1.rows.len()) && sl[2].below(
        b1.rows.len(),
    ) && sl[3].below(b1.rows.len()));
    let second: [LinExpr; 4] = [
        s[0].add(&b_lanes[0]),
        s[1].add(&b_lanes[1]),
        s[2].dup(),
        s[3].dup(),
    ];
    assert(state_lins(second) =~= seq![sl[0].plus(pb[0]), sl[1].plus(pb[1]), sl[2], sl[3]]);
    let out = poseidon2b_permute(b, t, &second);
    let ghost ol = state_lins(out);
    assert(ol[0].below(b@.rows.len()) && ol[1].below(b@.rows.len()));
    let r: [LinExpr; 2] = [out[0].dup(), out[1].dup()];
    assert(pair(r) =~= seq![ol[0], ol[1]]);
    r
}

/// The compression of two digests under the compression capacity value.
pub fn compress_trace(
    b: &mut FieldR1csBuilder,
    t: &PoseidonTables,
    compress_iv: &[F128; 2],
    a_lanes: &[LinExpr; 2],
    b_lanes: &[LinExpr; 2],
) -> (r: [LinExpr; 2])
    requires
        old(b)@.wf(),
        all_below(pair(*a_lanes), old(b)@.rows.len()),
        all_below(pair(*b_lanes), old(b)@.rows.len()),
    ensures
        (final(b)@.rows, pair(r)) == compress_rows(
            old(b)@.rows,
            t@,
            compress_iv@,
            pair(*a_lanes),
            pair(*b_lanes),
        ),
        final(b)@.grows(old(b)@),
        final(b)@.honest() <==> old(b)@.honest(),
        all_below(pair(r), final(b)@.rows.len()),
{
    compress_with_tag_trace(b, t, compress_iv, a_lanes, b_lanes)
}

// ---------------------------------------------------------------------------
// Selecting
// ---------------------------------------------------------------------------

/// The sum of the first `n` choices times table entries.
pub open spec fn table_sum(hot: Seq<Lin>, table: Seq<F128>, n: nat) -> Lin
    decreases n,
{
    if n == 0 {
        Lin::zero()
    } else {
        table_sum(hot, table, (n - 1) as nat).plus(hot[n - 1].scale(table[n - 1]))
    }
}

proof fn lemma_table_sum(hot: Seq<Lin>, table: Seq<F128>, n: nat, k: int, z: Seq<F128>)
    requires
        n <= hot.len(),
        one_hot_at(hot, k, z),
    ensures
        table_sum(hot, table, n).eval(z) == if 0 <= k < n {
            table[k]
        } else {
            F128::zero()
        },
    decreases n,
{
    if n > 0 {
        lemma_table_sum(hot, table, (n - 1) as nat, k, z);
        assert(hot[n - 1].eval(z) == F128::of_bool(n - 1 == k));
    }
}

/// Lane `lane` of the empty roots of depths 24 to 32.
pub open spec fn zero_table(zero_roots: Seq<[F128; 2]>, lane: int) -> Seq<F128> {
    Seq::new(9, |i: int| zero_roots[24 + i]@[lane])
}

/// The empty root of the selected depth.
fn select_zero(hot: &Vec<LinExpr>, zero_roots: &Vec<[F128; 2]>, lane: usize, Ghost(m): Ghost<nat>) -> (r:
    LinExpr)
    requires
        hot@.len() == 9,
        zero_roots@.len() > 32,
        lane < 2,
        all_below(lins(hot@), m),
    ensures
        r@ == table_sum(lins(hot@), zero_table(zero_roots@, lane as int), 9),
        r@.below(m),
{
    let ghost hl = lins(hot@);
    let ghost table = zero_table(zero_roots@, lane as int);
    let mut r = LinExpr::zero();
    let mut i: usize = 0;
    while i < EXACT_STATE_DEPTH_CHOICES
        invariant
            i <= 9,
            hot@.len() == 9,
            zero_roots@.len() > 32,
            lane < 2,
            hl == lins(hot@),
            table == zero_table(zero_roots@, lane as int),
            all_below(hl, m),
            r@ == table_sum(hl, table, i as nat),
            r@.below(m),
        decreases 9 - i,
    {
        assert(hl[i as int].below(m));
        let term = hot[i].scale(zero_roots[MIN_EXACT_STATE_DEPTH + i][lane]);
        r.add_assign(&term);
        i += 1;
    }
    r
}

/// The rows that bind `out` to `base`, or to `other` when `grow` is one.
pub open spec fn grow_lane_rows(c: Seq<Row>, grow: Lin, base: Lin, other: Lin, out: Lin) -> Seq<
    Row,
> {
    let (c1, moved) = mul_rows(c, grow, other.plus(base));
    pin_rows(c1, out.plus(base.plus(moved)))
}

proof fn lemma_grow_lane_sound(
    c: Seq<Row>,
    grow: Lin,
    base: Lin,
    other: Lin,
    out: Lin,
    z: Seq<F128>,
)
    requires
        sat(grow_lane_rows(c, grow, base, other, out), z),
    ensures
        sat(c, z),
        grow.eval(z).is_bit() ==> out.eval(z) == if grow.eval(z) == F128::one() {
            other.eval(z)
        } else {
            base.eval(z)
        },
{
    broadcast use lemma_plus_is_zero;

    let (c1, moved) = mul_rows(c, grow, other.plus(base));
    lemma_pin_sound(c1, out.plus(base.plus(moved)), z);
    lemma_mul_sound(c, grow, other.plus(base), z);
    lemma_plus_comm(base.eval(z), other.eval(z));
}

fn pin_grow_lane(
    b: &mut FieldR1csBuilder,
    grow: &LinExpr,
    base: &LinExpr,
    other: &LinExpr,
    out: &LinExpr,
)
    requires
        old(b)@.wf(),
        grow@.below(old(b)@.rows.len()),
        base@.below(old(b)@.rows.len()),
        other@.below(old(b)@.rows.len()),
        out@.below(old(b)@.rows.len()),
    ensures
        final(b)@.rows == grow_lane_rows(old(b)@.rows, grow@, base@, other@, out@),
        final(b)@.grows(old(b)@),
        ({
            let z = old(b)@.values;
            grow@.eval(z).is_bit() ==> (final(b)@.honest() <==> old(b)@.honest() && out@.eval(z)
                == if grow@.eval(z) == F128::one() {
                other@.eval(z)
            } else {
                base@.eval(z)
            })
        }),
{
    broadcast use lemma_plus_is_zero;

    let delta = other.add(base);
    let moved = crate::circuit::mul(b, grow, &delta);
    let selected = base.add(&moved);
    pin_eq(b, out, &selected);
    proof {
        lemma_plus_comm(base@.eval(old(b)@.values), other@.eval(old(b)@.values));
    }
}

/// Binds two digests to be equal.
fn pin_pair(b: &mut FieldR1csBuilder, x: &[LinExpr; 2], y: &[LinExpr; 2])
    requires
        old(b)@.wf(),
        all_below(pair(*x), old(b)@.rows.len()),
        all_below(pair(*y), old(b)@.rows.len()),
    ensures
        final(b)@.rows == pair_rows(old(b)@.rows, pair(*x), pair(*y)),
        final(b)@.grows(old(b)@),
        final(b)@.honest() <==> old(b)@.honest() && row_eval(pair(*x), old(b)@.values) == row_eval(
            pair(*y),
            old(b)@.values,
        ),
{
    let ghost n = old(b)@.rows.len();
    assert(pair(*x)[0].below(n) && pair(*x)[1].below(n) && pair(*y)[0].below(n)
        && pair(*y)[1].below(n));
    pin_eq(b, &x[0], &y[0]);
    let ghost b1 = b@;
    pin_eq(b, &x[1], &y[1]);
    proof {
        let z = old(b)@.values;
        let (ex, ey) = (row_eval(pair(*x), z), row_eval(pair(*y), z));
        assert(ex == ey <==> ex[0] == ey[0] && ex[1] == ey[1]) by {
            if ex[0] == ey[0] && ex[1] == ey[1] {
                assert(ex =~= ey);
            }
        }
    }
}

/// The rows that bind two digests to be equal.
pub open spec fn pair_rows(c: Seq<Row>, x: Seq<Lin>, y: Seq<Lin>) -> Seq<Row> {
    pin_rows(pin_rows(c, x[0].plus(y[0])), x[1].plus(y[1]))
}

proof fn lemma_pair_sound(c: Seq<Row>, x: Seq<Lin>, y: Seq<Lin>, z: Seq<F128>)
    requires
        x.len() == 2,
        y.len() == 2,
        sat(pair_rows(c, x, y), z),
    ensures
        sat(c, z),
        row_eval(x, z) == row_eval(y, z),
{
    broadcast use lemma_plus_is_zero;

    lemma_pin_sound(pin_rows(c, x[0].plus(y[0])), x[1].plus(y[1]), z);
    lemma_pin_sound(c, x[0].plus(y[0]), z);
    assert(row_eval(x, z) =~= row_eval(y, z));
}

// ---------------------------------------------------------------------------
// Fixed child depth
// ---------------------------------------------------------------------------

/// The rows that bind roots at a fixed child depth, and the growth selector.
pub open spec fn fixed_roots_rows(
    c: Seq<Row>,
    p: Permutation,
    iv: Seq<F128>,
    zero: Seq<F128>,
    depth: nat,
    roots: (Seq<Lin>, Seq<Lin>),
    parent: (Seq<Lin>, Lin),
    child: (Seq<Lin>, Lin),
) -> (Seq<Row>, Lin) {
    let grow = Lin::wire(c.len() as usize);
    let c1 = c.push(bool_row(c.len() as usize));
    let same = F128::of_nat(depth);
    let shorter = F128::of_nat((depth - 1) as nat);
    let c2 = pin_rows(
        c1,
        parent.1.plus(Lin::constant(same).plus(grow.scale(same.plus(shorter)))),
    );
    let c3 = pin_rows(c2, child.1.plus(Lin::constant(same)));
    let c4 = pair_rows(c3, roots.1, child.0);
    let (c5, grown) = compress_rows(
        c4,
        p,
        iv,
        parent.0,
        seq![Lin::constant(zero[0]), Lin::constant(zero[1])],
    );
    let c6 = grow_lane_rows(c5, grow, parent.0[0], grown[0], roots.0[0]);
    (grow_lane_rows(c6, grow, parent.0[1], grown[1], roots.0[1]), grow)
}

/// The old root is the parent root, or the root of the parent tree extended by
/// an empty half when the tree grew.
pub open spec fn old_root_ok(
    p: Permutation,
    iv: Seq<F128>,
    zero: Seq<F128>,
    grew: bool,
    old_root: Seq<Lin>,
    parent_root: Seq<Lin>,
    z: Seq<F128>,
) -> bool {
    row_eval(old_root, z) == if grew {
        compressed(p, iv, row_eval(parent_root, z), zero)
    } else {
        row_eval(parent_root, z)
    }
}

proof fn lemma_const_pair(zero: Seq<F128>, z: Seq<F128>)
    requires
        zero.len() == 2,
    ensures
        row_eval(seq![Lin::constant(zero[0]), Lin::constant(zero[1])], z) == zero,
{
    assert(row_eval(seq![Lin::constant(zero[0]), Lin::constant(zero[1])], z) =~= zero);
}

/// Two lanes that are selected make a selected digest.
proof fn lemma_selected_pair(
    old_root: Seq<Lin>,
    parent_root: Seq<Lin>,
    grown: Seq<Lin>,
    grew: bool,
    z: Seq<F128>,
)
    requires
        old_root.len() == 2,
        parent_root.len() == 2,
        grown.len() == 2,
    ensures
        row_eval(old_root, z) == (if grew {
            row_eval(grown, z)
        } else {
            row_eval(parent_root, z)
        }) <==> old_root[0].eval(z) == (if grew {
            grown[0].eval(z)
        } else {
            parent_root[0].eval(z)
        }) && old_root[1].eval(z) == (if grew {
            grown[1].eval(z)
        } else {
            parent_root[1].eval(z)
        }),
{
    let e = row_eval(old_root, z);
    let w = if grew {
        row_eval(grown, z)
    } else {
        row_eval(parent_root, z)
    };
    assert(e == w <==> e[0] == w[0] && e[1] == w[1]) by {
        if e[0] == w[0] && e[1] == w[1] {
            assert(e =~= w);
        }
    }
}

/// Under every satisfying assignment the child has the fixed depth, the parent
/// the same depth or one less, and the roots are those of the headers.
pub proof fn lemma_fixed_roots_sound(
    c: Seq<Row>,
    p: Permutation,
    iv: Seq<F128>,
    zero: Seq<F128>,
    depth: nat,
    roots: (Seq<Lin>, Seq<Lin>),
    parent: (Seq<Lin>, Lin),
    child: (Seq<Lin>, Lin),
    z: Seq<F128>,
)
    requires
        0 < depth,
        zero.len() == 2,
        roots.0.len() == 2,
        roots.1.len() == 2,
        parent.0.len() == 2,
        child.0.len() == 2,
        sat(fixed_roots_rows(c, p, iv, zero, depth, roots, parent, child).0, z),
    ensures
        sat(c, z),
        ({
            let grow = fixed_roots_rows(c, p, iv, zero, depth, roots, parent, child).1.eval(z);
            let grew = grow == F128::one();
            &&& grow.is_bit()
            &&& child.1.eval(z) == F128::of_nat(depth)
            &&& parent.1.eval(z) == F128::of_nat(
                if grew {
                    (depth - 1) as nat
                } else {
                    depth
                },
            )
            &&& row_eval(roots.1, z) == row_eval(child.0, z)
            &&& old_root_ok(p, iv, zero, grew, roots.0, parent.0, z)
        }),
{
    broadcast use lemma_plus_is_zero;

    let grow = Lin::wire(c.len() as usize);
    let c1 = c.push(bool_row(c.len() as usize));
    let same = F128::of_nat(depth);
    let shorter = F128::of_nat((depth - 1) as nat);
    let sel = parent.1.plus(Lin::constant(same).plus(grow.scale(same.plus(shorter))));
    let c2 = pin_rows(c1, sel);
    let c3 = pin_rows(c2, child.1.plus(Lin::constant(same)));
    let c4 = pair_rows(c3, roots.1, child.0);
    let zl = seq![Lin::constant(zero[0]), Lin::constant(zero[1])];
    let (c5, grown) = compress_rows(c4, p, iv, parent.0, zl);
    let c6 = grow_lane_rows(c5, grow, parent.0[0], grown[0], roots.0[0]);
    lemma_grow_lane_sound(c6, grow, parent.0[1], grown[1], roots.0[1], z);
    lemma_grow_lane_sound(c5, grow, parent.0[0], grown[0], roots.0[0], z);
    lemma_compress_sound(c4, p, iv, parent.0, zl, z);
    lemma_pair_sound(c3, roots.1, child.0, z);
    lemma_pin_sound(c2, child.1.plus(Lin::constant(same)), z);
    lemma_pin_sound(c1, sel, z);
    lemma_bool_sound(c, z);
    lemma_const_pair(zero, z);
    let grew = grow.eval(z) == F128::one();
    lemma_selected_pair(roots.0, parent.0, grown, grew, z);
}

/// Binds state roots and depths to the parent and child headers at a fixed
/// child depth, and returns the growth selector.
pub fn bind_exact_state_header_roots(
    b: &mut FieldR1csBuilder,
    hashing: &StateHashing,
    roots: &ExactStateRootWires,
    parent_root: &[LinExpr; 2],
    parent_log: &LinExpr,
    parent_log_slots: u32,
    child_root: &[LinExpr; 2],
    child_log: &LinExpr,
) -> (grow: LinExpr)
    requires
        old(b)@.wf(),
        0 < roots.active_depth <= hashing.zero_roots@.len(),
        roots.active_depth == parent_log_slots || roots.active_depth == parent_log_slots + 1,
        all_below(pair(roots.old_root), old(b)@.rows.len()),
        all_below(pair(roots.new_root), old(b)@.rows.len()),
        all_below(pair(*parent_root), old(b)@.rows.len()),
        all_below(pair(*child_root), old(b)@.rows.len()),
        parent_log@.below(old(b)@.rows.len()),
        child_log@.below(old(b)@.rows.len()),
    ensures
        (final(b)@.rows, grow@) == fixed_roots_rows(
            old(b)@.rows,
            hashing.tables@,
            hashing.node_iv@,
            hashing.zero_roots@[roots.active_depth - 1]@,
            roots.active_depth as nat,
            (pair(roots.old_root), pair(roots.new_root)),
            (pair(*parent_root), parent_log@),
            (pair(*child_root), child_log@),
        ),
        final(b)@.grows(old(b)@),
        grow@.below(final(b)@.rows.len()),
        ({
            let z = old(b)@.values;
            let grew = roots.active_depth == parent_log_slots + 1;
            &&& grow@.eval(final(b)@.values) == F128::of_bool(grew)
            &&& final(b)@.honest() <==> {
                &&& old(b)@.honest()
                &&& parent_log@.eval(z) == F128::of_nat(parent_log_slots as nat)
                &&& child_log@.eval(z) == F128::of_nat(roots.active_depth as nat)
                &&& row_eval(pair(roots.new_root), z) == row_eval(pair(*child_root), z)
                &&& old_root_ok(
                    hashing.tables@,
                    hashing.node_iv@,
                    hashing.zero_roots@[roots.active_depth - 1]@,
                    grew,
                    pair(roots.old_root),
                    pair(*parent_root),
                    z,
                )
            }
        }),
{
    broadcast use lemma_plus_is_zero;

    let ghost b0 = b@;
    let ghost n0 = b0.rows.len();
    let ghost z0 = b0.values;
    let depth: usize = roots.active_depth;
    let zero = &hashing.zero_roots[depth - 1];
    let ghost zs = zero@;
    let grows: bool = depth as u64 == parent_log_slots as u64 + 1;
    let grow = alloc_bit(b, grows);
    let ghost b1 = b@;
    let same = F128::from_u128(depth as u128);
    let shorter = F128::from_u128((depth - 1) as u128);
    let selected = LinExpr::constant(same).add(&grow.scale(same.add(shorter)));
    pin_eq(b, parent_log, &selected);
    let ghost b2 = b@;
    let depth_const = LinExpr::constant(same);
    pin_eq(b, child_log, &depth_const);
    let ghost b3 = b@;
    proof {
        lemma_bits_stable(b0, b3, pair(roots.new_root));
        lemma_bits_stable(b0, b3, pair(*child_root));
    }
    pin_pair(b, &roots.new_root, child_root);
    let ghost b4 = b@;
    let zero_lanes: [LinExpr; 2] = [LinExpr::constant(zero[0]), LinExpr::constant(zero[1])];
    proof {
        assert(pair(zero_lanes) =~= seq![Lin::constant(zs[0]), Lin::constant(zs[1])]);
        lemma_bits_stable(b0, b4, pair(*parent_root));
    }
    let grown = compress_with_tag_trace(
        b,
        &hashing.tables,
        &hashing.node_iv,
        parent_root,
        &zero_lanes,
    );
    let ghost b5 = b@;
    proof {
        let pr = pair(*parent_root);
        let or = pair(roots.old_root);
        assert(pr[0].below(n0) && pr[1].below(n0) && or[0].below(n0) && or[1].below(n0));
        assert(pair(grown)[0].below(b5.rows.len()) && pair(grown)[1].below(b5.rows.len()));
    }
    pin_grow_lane(b, &grow, &parent_root[0], &grown[0], &roots.old_root[0]);
    let ghost b6 = b@;
    pin_grow_lane(b, &grow, &parent_root[1], &grown[1], &roots.old_root[1]);
    proof {
        let p = hashing.tables@;
        let iv = hashing.node_iv@;
        let pr = pair(*parent_root);
        let or = pair(roots.old_root);
        let nr = pair(roots.new_root);
        let cr = pair(*child_root);
        assert(row_eval(nr, b3.values) =~= row_eval(nr, z0)) by {
            assert(nr[0].below(n0) && nr[1].below(n0));
        }
        assert(row_eval(cr, b3.values) =~= row_eval(cr, z0)) by {
            assert(cr[0].below(n0) && cr[1].below(n0));
        }
        assert(b4.honest() <==> b0.honest() && parent_log@.eval(z0) == F128::of_nat(
            parent_log_slots as nat,
        ) && child_log@.eval(z0) == F128::of_nat(depth as nat) && row_eval(nr, z0) == row_eval(
            cr,
            z0,
        ));
        if b5.honest() {
            lemma_compress_sound(b4.rows, p, iv, pr, pair(zero_lanes), b5.values);
            lemma_const_pair(zs, b5.values);
            lemma_selected_pair(or, pr, pair(grown), grows, b5.values);
            assert(row_eval(pr, b5.values) =~= row_eval(pr, z0));
            assert(row_eval(or, b5.values) =~= row_eval(or, z0));
        }
    }
    grow
}

// ---------------------------------------------------------------------------
// Selected depth
// ---------------------------------------------------------------------------

/// The rows that bind the first `n` child choices to the parent choices, moved
/// up by one when the tree grew.
pub open spec fn shift_rows(
    c: Seq<Row>,
    parent: Seq<Lin>,
    child: Seq<Lin>,
    grow: Lin,
    n: nat,
) -> Seq<Row>
    decreases n,
{
    if n == 0 {
        c
    } else {
        let i = n - 1;
        let previous = if i == 0 {
            Lin::zero()
        } else {
            parent[i - 1]
        };
        let (c1, moved) = mul_rows(
            shift_rows(c, parent, child, grow, i as nat),
            grow,
            parent[i].plus(previous),
        );
        pin_rows(c1, child[i].plus(parent[i].plus(moved)))
    }
}

/// Choice `i` of the child is the parent's choice, moved up when grown.
pub open spec fn shifted(
    parent: Seq<Lin>,
    child: Seq<Lin>,
    grew: bool,
    i: int,
    z: Seq<F128>,
) -> bool {
    child[i].eval(z) == if !grew {
        parent[i].eval(z)
    } else if i == 0 {
        F128::zero()
    } else {
        parent[i - 1].eval(z)
    }
}

pub open spec fn all_shifted(
    parent: Seq<Lin>,
    child: Seq<Lin>,
    grew: bool,
    n: nat,
    z: Seq<F128>,
) -> bool {
    forall|i: int| 0 <= i < n ==> #[trigger] shifted(parent, child, grew, i, z)
}

proof fn lemma_shift_sound(
    c: Seq<Row>,
    parent: Seq<Lin>,
    child: Seq<Lin>,
    grow: Lin,
    n: nat,
    z: Seq<F128>,
)
    requires
        sat(shift_rows(c, parent, child, grow, n), z),
    ensures
        sat(c, z),
        grow.eval(z).is_bit() ==> all_shifted(
            parent,
            child,
            grow.eval(z) == F128::one(),
            n,
            z,
        ),
    decreases n,
{
    broadcast use lemma_plus_is_zero;

    if n > 0 {
        let i = n - 1;
        let previous = if i == 0 {
            Lin::zero()
        } else {
            parent[i - 1]
        };
        let c0 = shift_rows(c, parent, child, grow, i as nat);
        let (c1, moved) = mul_rows(c0, grow, parent[i].plus(previous));
        lemma_pin_sound(c1, child[i].plus(parent[i].plus(moved)), z);
        lemma_mul_sound(c0, grow, parent[i].plus(previous), z);
        lemma_shift_sound(c, parent, child, grow, i as nat, z);
    }
}

/// The choices of parent and child after a shift.
proof fn lemma_shifted_depth(
    parent: Seq<Lin>,
    child: Seq<Lin>,
    grew: bool,
    kp: int,
    kc: int,
    z: Seq<F128>,
)
    requires
        parent.len() == 9,
        child.len() == 9,
        0 <= kp < 9,
        0 <= kc < 9,
        one_hot_at(parent, kp, z),
        one_hot_at(child, kc, z),
    ensures
        all_shifted(parent, child, grew, 9, z) <==> kc == if grew {
            kp + 1
        } else {
            kp
        },
{
    if all_shifted(parent, child, grew, 9, z) {
        assert(shifted(parent, child, grew, kc, z));
        assert(child[kc].eval(z) == F128::of_bool(true));
        assert(parent[kc].eval(z) == F128::of_bool(kc == kp));
        if kc > 0 {
            assert(parent[kc - 1].eval(z) == F128::of_bool(kc - 1 == kp));
        }
    }
    if kc == (if grew {
        kp + 1
    } else {
        kp
    }) {
        assert forall|i: int| 0 <= i < 9 implies #[trigger] shifted(parent, child, grew, i, z) by {
            assert(child[i].eval(z) == F128::of_bool(i == kc));
            assert(parent[i].eval(z) == F128::of_bool(i == kp));
            if i > 0 {
                assert(parent[i - 1].eval(z) == F128::of_bool(i - 1 == kp));
            }
        }
    }
}

/// The rows that bind roots and depths, the choices and the growth selector.
pub open spec fn roots_rows(
    c: Seq<Row>,
    p: Permutation,
    iv: Seq<F128>,
    zero_roots: Seq<[F128; 2]>,
    roots: (Seq<Lin>, Seq<Lin>),
    parent: (Seq<Lin>, Lin),
    child: (Seq<Lin>, Lin),
) -> (Seq<Row>, Seq<Lin>, Seq<Lin>, Lin) {
    let (c1, ph) = depth_rows(c, parent.1);
    let (c2, ch) = depth_rows(c1, child.1);
    let grow = Lin::wire(c2.len() as usize);
    let c3 = c2.push(bool_row(c2.len() as usize));
    let c4 = shift_rows(c3, ph, ch, grow, 9);
    let zero = seq![
        table_sum(ph, zero_table(zero_roots, 0), 9),
        table_sum(ph, zero_table(zero_roots, 1), 9),
    ];
    let (c5, grown) = compress_rows(c4, p, iv, parent.0, zero);
    let c6 = grow_lane_rows(c5, grow, parent.0[0], grown[0], roots.0[0]);
    let c7 = grow_lane_rows(c6, grow, parent.0[1], grown[1], roots.0[1]);
    (pair_rows(c7, roots.1, child.0), ph, ch, grow)
}

/// Depths of parent and child and the roots of a state transition: both depths
/// are from 24 to 32, the child has the parent's depth or one more, the new
/// root is the child's, and the old root is the parent's, extended by an empty
/// half when the tree grew.
pub open spec fn roots_ok(
    p: Permutation,
    iv: Seq<F128>,
    zero_roots: Seq<[F128; 2]>,
    roots: (Seq<Lin>, Seq<Lin>),
    parent: (Seq<Lin>, Lin),
    child: (Seq<Lin>, Lin),
    grew: bool,
    z: Seq<F128>,
) -> bool {
    let dp = parent.1.eval(z).bits;
    let dc = child.1.eval(z).bits;
    &&& 24 <= dp <= 32
    &&& 24 <= dc <= 32
    &&& dc == if grew {
        dp + 1
    } else {
        dp as int
    }
    &&& row_eval(roots.1, z) == row_eval(child.0, z)
    &&& old_root_ok(p, iv, zero_roots[dp as int]@, grew, roots.0, parent.0, z)
}

/// Under every satisfying assignment depths and roots are those of a state
/// transition.
pub proof fn lemma_roots_sound(
    c: Seq<Row>,
    p: Permutation,
    iv: Seq<F128>,
    zero_roots: Seq<[F128; 2]>,
    roots: (Seq<Lin>, Seq<Lin>),
    parent: (Seq<Lin>, Lin),
    child: (Seq<Lin>, Lin),
    z: Seq<F128>,
)
    requires
        zero_roots.len() > 32,
        roots.0.len() == 2,
        roots.1.len() == 2,
        parent.0.len() == 2,
        child.0.len() == 2,
        sat(roots_rows(c, p, iv, zero_roots, roots, parent, child).0, z),
    ensures
        sat(c, z),
        ({
            let grow = roots_rows(c, p, iv, zero_roots, roots, parent, child).3.eval(z);
            &&& grow.is_bit()
            &&& roots_ok(
                p,
                iv,
                zero_roots,
                roots,
                parent,
                child,
                grow == F128::one(),
                z,
            )
        }),
{
    let (c1, ph) = depth_rows(c, parent.1);
    let (c2, ch) = depth_rows(c1, child.1);
    let grow = Lin::wire(c2.len() as usize);
    let c3 = c2.push(bool_row(c2.len() as usize));
    let c4 = shift_rows(c3, ph, ch, grow, 9);
    let zero = seq![
        table_sum(ph, zero_table(zero_roots, 0), 9),
        table_sum(ph, zero_table(zero_roots, 1), 9),
    ];
    let (c5, grown) = compress_rows(c4, p, iv, parent.0, zero);
    let c6 = grow_lane_rows(c5, grow, parent.0[0], grown[0], roots.0[0]);
    let c7 = grow_lane_rows(c6, grow, parent.0[1], grown[1], roots.0[1]);
    lemma_pair_sound(c7, roots.1, child.0, z);
    lemma_grow_lane_sound(c6, grow, parent.0[1], grown[1], roots.0[1], z);
    lemma_grow_lane_sound(c5, grow, parent.0[0], grown[0], roots.0[0], z);
    lemma_compress_sound(c4, p, iv, parent.0, zero, z);
    lemma_shift_sound(c3, ph, ch, grow, 9, z);
    lemma_bool_sound(c2, z);
    let kc = lemma_depth_sound(c1, child.1, z);
    let kp = lemma_depth_sound(c, parent.1, z);
    let grew = grow.eval(z) == F128::one();
    lemma_shifted_depth(ph, ch, grew, kp, kc, z);
    lemma_table_sum(ph, zero_table(zero_roots, 0), 9, kp, z);
    lemma_table_sum(ph, zero_table(zero_roots, 1), 9, kp, z);
    assert(row_eval(zero, z) =~= zero_roots[24 + kp]@);
    lemma_selected_pair(roots.0, parent.0, grown, grew, z);
}

/// Binds the child choices to the parent choices, moved up by one when the
/// tree grew.
fn pin_shift(
    b: &mut FieldR1csBuilder,
    parent: &Vec<LinExpr>,
    child: &Vec<LinExpr>,
    grow: &LinExpr,
)
    requires
        old(b)@.wf(),
        parent@.len() == 9,
        child@.len() == 9,
        all_below(lins(parent@), old(b)@.rows.len()),
        all_below(lins(child@), old(b)@.rows.len()),
        grow@.below(old(b)@.rows.len()),
    ensures
        final(b)@.rows == shift_rows(old(b)@.rows, lins(parent@), lins(child@), grow@, 9),
        final(b)@.grows(old(b)@),
        ({
            let z = old(b)@.values;
            grow@.eval(z).is_bit() ==> (final(b)@.honest() <==> old(b)@.honest() && all_shifted(
                lins(parent@),
                lins(child@),
                grow@.eval(z) == F128::one(),
                9,
                z,
            ))
        }),
{
    let ghost ph = lins(parent@);
    let ghost ch = lins(child@);
    let ghost n0 = old(b)@.rows.len();
    let ghost z0 = old(b)@.values;
    let ghost grew = grow@.eval(z0) == F128::one();
    let ghost sure = grow@.eval(z0).is_bit();
    let mut i: usize = 0;
    while i < EXACT_STATE_DEPTH_CHOICES
        invariant
            i <= 9,
            parent@.len() == 9,
            child@.len() == 9,
            ph == lins(parent@),
            ch == lins(child@),
            n0 == old(b)@.rows.len(),
            z0 == old(b)@.values,
            grew == (grow@.eval(z0) == F128::one()),
            sure == grow@.eval(z0).is_bit(),
            all_below(ph, n0),
            all_below(ch, n0),
            grow@.below(n0),
            b@.rows == shift_rows(old(b)@.rows, ph, ch, grow@, i as nat),
            b@.grows(old(b)@),
            sure ==> (b@.honest() <==> old(b)@.honest() && all_shifted(
                ph,
                ch,
                grew,
                i as nat,
                z0,
            )),
        decreases 9 - i,
    {
        broadcast use lemma_plus_is_zero;

        let ghost start = b@;
        assert(ph[i as int].below(n0) && ch[i as int].below(n0));
        let previous = if i == 0 {
            LinExpr::zero()
        } else {
            assert(ph[i - 1].below(n0));
            parent[i - 1].dup()
        };
        let delta = parent[i].add(&previous);
        let moved = crate::circuit::mul(b, grow, &delta);
        let selected = parent[i].add(&moved);
        pin_eq(b, &child[i], &selected);
        proof {
            if sure {
                assert(b@.honest() <==> start.honest() && shifted(ph, ch, grew, i as int, z0));
                assert(all_shifted(ph, ch, grew, (i + 1) as nat, z0) <==> all_shifted(
                    ph,
                    ch,
                    grew,
                    i as nat,
                    z0,
                ) && shifted(ph, ch, grew, i as int, z0));
            }
        }
        i += 1;
    }
}

/// Whether the assignment selects a child depth one above the parent depth.
fn grew_natively(b: &FieldR1csBuilder, parent: &Vec<LinExpr>, child: &Vec<LinExpr>) -> (r: bool)
    requires
        b@.wf(),
        parent@.len() == 9,
        child@.len() == 9,
        all_below(lins(parent@), b@.rows.len()),
        all_below(lins(child@), b@.rows.len()),
    ensures
        forall|kp: int, kc: int|
            #![trigger one_hot_at(lins(parent@), kp, b@.values), one_hot_at(
                lins(child@),
                kc,
                b@.values,
            )]
            0 <= kp < 9 && 0 <= kc < 9 && one_hot_at(lins(parent@), kp, b@.values) && one_hot_at(
                lins(child@),
                kc,
                b@.values,
            ) ==> r == (kc == kp + 1),
{
    let ghost ph = lins(parent@);
    let ghost ch = lins(child@);
    let ghost z = b@.values;
    let mut r: bool = false;
    let mut i: usize = 1;
    while i < EXACT_STATE_DEPTH_CHOICES
        invariant
            1 <= i <= 9,
            b@.wf(),
            z == b@.values,
            parent@.len() == 9,
            child@.len() == 9,
            ph == lins(parent@),
            ch == lins(child@),
            all_below(ph, b@.rows.len()),
            all_below(ch, b@.rows.len()),
            r == exists|j: int|
                #![trigger ph[j]]
                0 <= j < i - 1 && ph[j].eval(z) == F128::one() && ch[j + 1].eval(z)
                    == F128::one(),
        decreases 9 - i,
    {
        assert(ph[i - 1].below(b@.rows.len()) && ch[i as int].below(b@.rows.len()));
        let up = parent[i - 1].eval(&b.values);
        let down = child[i].eval(&b.values);
        let here = up == F128::one() && down == F128::one();
        proof {
            if here {
                assert(ph[i - 1].eval(z) == F128::one());
            }
        }
        r = r || here;
        i += 1;
    }
    proof {
        assert forall|kp: int, kc: int|
            #![trigger one_hot_at(ph, kp, z), one_hot_at(ch, kc, z)]
            0 <= kp < 9 && 0 <= kc < 9 && one_hot_at(ph, kp, z) && one_hot_at(
                ch,
                kc,
                z,
            ) implies r == (kc == kp + 1) by {
            if r {
                let j = choose|j: int|
                    #![trigger ph[j]]
                    0 <= j < 8 && ph[j].eval(z) == F128::one() && ch[j + 1].eval(z)
                        == F128::one();
                assert(ph[j].eval(z) == F128::of_bool(j == kp));
                assert(ch[j + 1].eval(z) == F128::of_bool(j + 1 == kc));
            }
            if kc == kp + 1 {
                assert(ph[kp].eval(z) == F128::of_bool(true));
                assert(ch[kp + 1].eval(z) == F128::of_bool(true));
            }
        }
    }
    r
}

/// Binds state roots and both header depths, each from 24 to 32.
///
/// See [`lemma_roots_sound`] for what the constraints bind.
#[verifier::rlimit(60)]
pub fn bind_exact_state_header_roots_dynamic(
    b: &mut FieldR1csBuilder,
    hashing: &StateHashing,
    roots: &ExactStateRootWires,
    parent_root: &[LinExpr; 2],
    parent_log: &LinExpr,
    child_root: &[LinExpr; 2],
    child_log: &LinExpr,
) -> (r: StateDepthTransitionTrace)
    requires
        old(b)@.wf(),
        hashing.zero_roots@.len() > 32,
        all_below(pair(roots.old_root), old(b)@.rows.len()),
        all_below(pair(roots.new_root), old(b)@.rows.len()),
        all_below(pair(*parent_root), old(b)@.rows.len()),
        all_below(pair(*child_root), old(b)@.rows.len()),
        parent_log@.below(old(b)@.rows.len()),
        child_log@.below(old(b)@.rows.len()),
    ensures
        (final(b)@.rows, lins(r.parent.one_hot@), lins(r.child.one_hot@), r.grow@) == roots_rows(
            old(b)@.rows,
            hashing.tables@,
            hashing.node_iv@,
            hashing.zero_roots@,
            (pair(roots.old_root), pair(roots.new_root)),
            (pair(*parent_root), parent_log@),
            (pair(*child_root), child_log@),
        ),
        r.parent.value@ == parent_log@,
        r.child.value@ == child_log@,
        r.parent.one_hot@.len() == 9,
        r.child.one_hot@.len() == 9,
        final(b)@.grows(old(b)@),
        all_below(lins(r.parent.one_hot@), final(b)@.rows.len()),
        all_below(lins(r.child.one_hot@), final(b)@.rows.len()),
        r.grow@.below(final(b)@.rows.len()),
        ({
            let z = old(b)@.values;
            let grew = child_log@.eval(z).bits == parent_log@.eval(z).bits + 1;
            final(b)@.honest() <==> old(b)@.honest() && roots_ok(
                hashing.tables@,
                hashing.node_iv@,
                hashing.zero_roots@,
                (pair(roots.old_root), pair(roots.new_root)),
                (pair(*parent_root), parent_log@),
                (pair(*child_root), child_log@),
                grew,
                z,
            )
        }),
{
    let ghost b0 = b@;
    let ghost n0 = b0.rows.len();
    let ghost z0 = b0.values;
    let parent = StateDepthTrace::bind(b, parent_log);
    let ghost b1 = b@;
    let ghost ph = lins(parent.one_hot@);
    let child = StateDepthTrace::bind(b, child_log);
    let ghost b2 = b@;
    let ghost ch = lins(child.one_hot@);
    proof {
        lemma_bits_stable(b1, b2, ph);
    }
    let grows = grew_natively(b, &parent.one_hot, &child.one_hot);
    let grow = alloc_bit(b, grows);
    let ghost b3 = b@;
    proof {
        lemma_bits_stable(b2, b3, ph);
        lemma_bits_stable(b2, b3, ch);
    }
    pin_shift(b, &parent.one_hot, &child.one_hot, &grow);
    let ghost b4 = b@;
    proof {
        lemma_bits_stable(b3, b4, ph);
        lemma_bits_stable(b3, b4, ch);
        lemma_bits_stable(b0, b4, pair(*parent_root));
    }
    let zero0 = select_zero(&parent.one_hot, &hashing.zero_roots, 0, Ghost(b4.rows.len()));
    let zero1 = select_zero(&parent.one_hot, &hashing.zero_roots, 1, Ghost(b4.rows.len()));
    let zero: [LinExpr; 2] = [zero0, zero1];
    assert(pair(zero) =~= seq![zero0@, zero1@]);
    let grown = compress_with_tag_trace(b, &hashing.tables, &hashing.node_iv, parent_root, &zero);
    let ghost b5 = b@;
    let ghost pr = pair(*parent_root);
    let ghost or = pair(roots.old_root);
    proof {
        assert(pr[0].below(n0) && pr[1].below(n0) && or[0].below(n0) && or[1].below(n0));
        assert(pair(grown)[0].below(b5.rows.len()) && pair(grown)[1].below(b5.rows.len()));
    }
    pin_grow_lane(b, &grow, &parent_root[0], &grown[0], &roots.old_root[0]);
    let ghost b6 = b@;
    pin_grow_lane(b, &grow, &parent_root[1], &grown[1], &roots.old_root[1]);
    let ghost b7 = b@;
    proof {
        lemma_bits_stable(b0, b7, pair(roots.new_root));
        lemma_bits_stable(b0, b7, pair(*child_root));
    }
    pin_pair(b, &roots.new_root, child_root);
    proof {
        lemma_bits_stable(b4, b@, ph);
        lemma_bits_stable(b4, b@, ch);
        let p = hashing.tables@;
        let iv = hashing.node_iv@;
        let zr = hashing.zero_roots@;
        let nr = pair(roots.new_root);
        let cr = pair(*child_root);
        let dp = parent_log@.eval(z0).bits as int;
        let dc = child_log@.eval(z0).bits as int;
        assert(row_eval(nr, b7.values) =~= row_eval(nr, z0)) by {
            assert(nr[0].below(n0) && nr[1].below(n0));
        }
        assert(row_eval(cr, b7.values) =~= row_eval(cr, z0)) by {
            assert(cr[0].below(n0) && cr[1].below(n0));
        }
        if 24 <= dp <= 32 && 24 <= dc <= 32 {
            lemma_hot_stable(b1, b2, ph, dp - 24);
            lemma_hot_stable(b2, b3, ph, dp - 24);
            lemma_hot_stable(b2, b3, ch, dc - 24);
            lemma_shifted_depth(ph, ch, grows, dp - 24, dc - 24, b3.values);
            assert(grows == (dc == dp + 1));
            lemma_hot_stable(b3, b5, ph, dp - 24);
            if b5.honest() {
                lemma_compress_sound(b4.rows, p, iv, pr, pair(zero), b5.values);
                lemma_table_sum(ph, zero_table(zr, 0), 9, dp - 24, b5.values);
                lemma_table_sum(ph, zero_table(zr, 1), 9, dp - 24, b5.values);
                assert(row_eval(pair(zero), b5.values) =~= zr[dp]@);
                lemma_selected_pair(or, pr, pair(grown), grows, b5.values);
                assert(row_eval(pr, b5.values) =~= row_eval(pr, z0));
                assert(row_eval(or, b5.values) =~= row_eval(or, z0));
            }
        } else {
            if b@.honest() {
                lemma_grows_honest(b2, b@);
            }
        }
    }
    StateDepthTransitionTrace { parent, child, grow }
}

proof fn lemma_hot_stable(old: Circuit, new: Circuit, hot: Seq<Lin>, k: int)
    requires
        new.grows(old),
        all_below(hot, old.rows.len()),
        one_hot_at(hot, k, old.values),
    ensures
        one_hot_at(hot, k, new.values),
{
    assert forall|i: int| 0 <= i < hot.len() implies (#[trigger] hot[i]).eval(new.values)
        == F128::of_bool(i == k) by {
        assert(hot[i].below(old.rows.len()));
        assert(hot[i].eval(old.values) == F128::of_bool(i == k));
    }
}

// ---------------------------------------------------------------------------
// Upper endpoints
// ---------------------------------------------------------------------------

/// Before and after root cells at one depth.
pub type PairedRootCellPair = [[LinExpr; 2]; 2];

/// Cell `lane` of side `side` at the upper depth of choice `i`.
pub open spec fn cell(cells: Seq<PairedRootCellPair>, side: int, lane: int, i: int) -> Lin {
    cells[7 + i]@[side]@[lane]@
}

/// The rows that select one cell by the first `n` choices, and the selection.
pub open spec fn select_rows(
    c: Seq<Row>,
    hot: Seq<Lin>,
    cells: Seq<PairedRootCellPair>,
    side: int,
    lane: int,
    n: nat,
) -> (Seq<Row>, Lin)
    decreases n,
{
    if n == 0 {
        (c, Lin::zero())
    } else {
        let (c1, sum) = select_rows(c, hot, cells, side, lane, (n - 1) as nat);
        let (c2, here) = mul_rows(c1, hot[n - 1], cell(cells, side, lane, n - 1));
        (c2, sum.plus(here))
    }
}

/// The selected cell is the one at the upper depth of the choice.
pub proof fn lemma_select_sound(
    c: Seq<Row>,
    hot: Seq<Lin>,
    cells: Seq<PairedRootCellPair>,
    side: int,
    lane: int,
    n: nat,
    k: int,
    z: Seq<F128>,
)
    requires
        n <= hot.len(),
        one_hot_at(hot, k, z),
        sat(select_rows(c, hot, cells, side, lane, n).0, z),
    ensures
        sat(c, z),
        select_rows(c, hot, cells, side, lane, n).1.eval(z) == if 0 <= k < n {
            cell(cells, side, lane, k).eval(z)
        } else {
            F128::zero()
        },
    decreases n,
{
    if n > 0 {
        let (c1, sum) = select_rows(c, hot, cells, side, lane, (n - 1) as nat);
        lemma_mul_sound(c1, hot[n - 1], cell(cells, side, lane, n - 1), z);
        lemma_select_sound(c, hot, cells, side, lane, (n - 1) as nat, k, z);
        assert(hot[n - 1].eval(z) == F128::of_bool(n - 1 == k));
    }
}

/// The rows that select all four cells.
pub open spec fn upper_select_rows(
    c: Seq<Row>,
    hot: Seq<Lin>,
    cells: Seq<PairedRootCellPair>,
) -> (Seq<Row>, Seq<Lin>) {
    let (c1, b0) = select_rows(c, hot, cells, 0, 0, 9);
    let (c2, b1) = select_rows(c1, hot, cells, 0, 1, 9);
    let (c3, a0) = select_rows(c2, hot, cells, 1, 0, 9);
    let (c4, a1) = select_rows(c3, hot, cells, 1, 1, 9);
    (c4, seq![b0, b1, a0, a1])
}

/// Under every satisfying assignment with choice `k`, the selected cells are
/// those at upper depth `k + 8`.
pub proof fn lemma_upper_select_sound(
    c: Seq<Row>,
    hot: Seq<Lin>,
    cells: Seq<PairedRootCellPair>,
    k: int,
    z: Seq<F128>,
)
    requires
        hot.len() == 9,
        0 <= k < 9,
        one_hot_at(hot, k, z),
        sat(upper_select_rows(c, hot, cells).0, z),
    ensures
        sat(c, z),
        row_eval(upper_select_rows(c, hot, cells).1, z) == seq![
            cell(cells, 0, 0, k).eval(z),
            cell(cells, 0, 1, k).eval(z),
            cell(cells, 1, 0, k).eval(z),
            cell(cells, 1, 1, k).eval(z),
        ],
{
    let (c1, b0) = select_rows(c, hot, cells, 0, 0, 9);
    let (c2, b1) = select_rows(c1, hot, cells, 0, 1, 9);
    let (c3, a0) = select_rows(c2, hot, cells, 1, 0, 9);
    lemma_select_sound(c3, hot, cells, 1, 1, 9, k, z);
    lemma_select_sound(c2, hot, cells, 1, 0, 9, k, z);
    lemma_select_sound(c1, hot, cells, 0, 1, 9, k, z);
    lemma_select_sound(c, hot, cells, 0, 0, 9, k, z);
    assert(row_eval(upper_select_rows(c, hot, cells).1, z) =~= seq![
        cell(cells, 0, 0, k).eval(z),
        cell(cells, 0, 1, k).eval(z),
        cell(cells, 1, 0, k).eval(z),
        cell(cells, 1, 1, k).eval(z),
    ]);
}

/// Every cell speaks of wires below `n`.
pub open spec fn cells_below(cells: Seq<PairedRootCellPair>, n: nat) -> bool {
    forall|d: int, side: int, lane: int|
        0 <= d < cells.len() && 0 <= side < 2 && 0 <= lane < 2 ==> (
        #[trigger] cells[d]@[side]@[lane])@.below(n)
}

fn select_cell(
    b: &mut FieldR1csBuilder,
    one_hot: &Vec<LinExpr>,
    cells: &Vec<PairedRootCellPair>,
    side: usize,
    lane: usize,
) -> (r: LinExpr)
    requires
        old(b)@.wf(),
        one_hot@.len() == 9,
        cells@.len() == 16,
        side < 2,
        lane < 2,
        all_below(lins(one_hot@), old(b)@.rows.len()),
        cells_below(cells@, old(b)@.rows.len()),
    ensures
        (final(b)@.rows, r@) == select_rows(
            old(b)@.rows,
            lins(one_hot@),
            cells@,
            side as int,
            lane as int,
            9,
        ),
        final(b)@.grows(old(b)@),
        final(b)@.honest() <==> old(b)@.honest(),
        r@.below(final(b)@.rows.len()),
{
    let ghost hot = lins(one_hot@);
    let mut r = LinExpr::zero();
    let mut i: usize = 0;
    while i < EXACT_STATE_DEPTH_CHOICES
        invariant
            i <= 9,
            one_hot@.len() == 9,
            cells@.len() == 16,
            side < 2,
            lane < 2,
            hot == lins(one_hot@),
            all_below(hot, old(b)@.rows.len()),
            cells_below(cells@, old(b)@.rows.len()),
            (b@.rows, r@) == select_rows(
                old(b)@.rows,
                hot,
                cells@,
                side as int,
                lane as int,
                i as nat,
            ),
            b@.grows(old(b)@),
            b@.honest() <==> old(b)@.honest(),
            r@.below(b@.rows.len()),
        decreases 9 - i,
    {
        assert(hot[i as int].below(old(b)@.rows.len()));
        assert(cells@[7 + i]@[side as int]@[lane as int]@.below(old(b)@.rows.len()));
        let here = crate::circuit::mul(b, &one_hot[i], &cells[7 + i][side][lane]);
        r.add_assign(&here);
        i += 1;
    }
    r
}

/// Selects the upper update endpoints at depth `child depth - 16`.
///
/// `roots_by_depth[0]` holds the cells at depth one. See
/// [`lemma_upper_select_sound`] for what the constraints bind.
pub fn select_upper_paired_roots(
    b: &mut FieldR1csBuilder,
    child_depth: &StateDepthTrace,
    roots_by_depth: &Vec<PairedRootCellPair>,
) -> (r: PairedRootCellPair)
    requires
        old(b)@.wf(),
        child_depth.one_hot@.len() == 9,
        roots_by_depth@.len() == 16,
        all_below(lins(child_depth.one_hot@), old(b)@.rows.len()),
        cells_below(roots_by_depth@, old(b)@.rows.len()),
    ensures
        (final(b)@.rows, seq![r@[0]@[0]@, r@[0]@[1]@, r@[1]@[0]@, r@[1]@[1]@])
            == upper_select_rows(
            old(b)@.rows,
            lins(child_depth.one_hot@),
            roots_by_depth@,
        ),
        final(b)@.grows(old(b)@),
        final(b)@.honest() <==> old(b)@.honest(),
{
    let ghost b0 = b@;
    let ghost hot = lins(child_depth.one_hot@);
    let before0 = select_cell(b, &child_depth.one_hot, roots_by_depth, 0, 0);
    let ghost b1 = b@;
    proof {
        lemma_bits_stable(b0, b1, hot);
        lemma_cells_grow(b0, b1, roots_by_depth@);
    }
    let before1 = select_cell(b, &child_depth.one_hot, roots_by_depth, 0, 1);
    let ghost b2 = b@;
    proof {
        lemma_bits_stable(b1, b2, hot);
        lemma_cells_grow(b1, b2, roots_by_depth@);
    }
    let after0 = select_cell(b, &child_depth.one_hot, roots_by_depth, 1, 0);
    let ghost b3 = b@;
    proof {
        lemma_bits_stable(b2, b3, hot);
        lemma_cells_grow(b2, b3, roots_by_depth@);
    }
    let after1 = select_cell(b, &child_depth.one_hot, roots_by_depth, 1, 1);
    [[before0, before1], [after0, after1]]
}

proof fn lemma_cells_grow(old: Circuit, new: Circuit, cells: Seq<PairedRootCellPair>)
    requires
        new.grows(old),
        cells_below(cells, old.rows.len()),
    ensures
        cells_below(cells, new.rows.len()),
{
    assert forall|d: int, side: int, lane: int|
        0 <= d < cells.len() && 0 <= side < 2 && 0 <= lane < 2 implies (
    #[trigger] cells[d]@[side]@[lane])@.below(new.rows.len()) by {
        assert(cells[d]@[side]@[lane]@.below(old.rows.len()));
    }
}

} // verus!
