//! Witness-routed rearrangeable permutation network.
//!
//! A recursive Benes construction realizes any power-of-two permutation with
//! two-way switches. Every switch is a boolean wire and every lane of a row
//! passes through the same conditional swap, so the output is a permutation of
//! the input under every satisfying assignment. The routing bits are only a
//! witness: callers separately constrain the order that they need.

use vstd::prelude::*;
use vstd::multiset::Multiset;
use vstd::arithmetic::power2::{lemma_pow2_pos, lemma_pow2_unfold, pow2};
use crate::circuit::{
    all_below, alloc_bit, bool_row, group_circuit, lemma_bool_sound, lemma_mul_sound, lins,
    mul_rows, sat, Circuit, FieldR1csBuilder, Lin, LinExpr, Row,
};
use crate::field::{lemma_plus_comm, lemma_plus_is_zero, F128};

verus! {

broadcast use group_circuit;

/// The rows of expressions, one sequence of lanes each.
pub open spec fn lane_rows(rows: Seq<Vec<LinExpr>>) -> Seq<Seq<Lin>> {
    Seq::new(rows.len(), |i: int| lins(rows[i]@))
}

/// The lanes of a row under `z`.
pub open spec fn row_eval(row: Seq<Lin>, z: Seq<F128>) -> Seq<F128> {
    Seq::new(row.len(), |j: int| row[j].eval(z))
}

/// Every row under `z`.
pub open spec fn rows_eval(rows: Seq<Seq<Lin>>, z: Seq<F128>) -> Seq<Seq<F128>> {
    Seq::new(rows.len(), |i: int| row_eval(rows[i], z))
}

/// Every row has `width` lanes over wires below `n`.
pub open spec fn rows_shaped(rows: Seq<Seq<Lin>>, width: nat, n: nat) -> bool {
    forall|i: int|
        0 <= i < rows.len() ==> (#[trigger] rows[i]).len() == width && all_below(rows[i], n)
}

// ---------------------------------------------------------------------------
// The switch
// ---------------------------------------------------------------------------

/// The rows of the first `n` lanes of a switch, and both outputs.
pub open spec fn lanes_rows(c: Seq<Row>, s: Lin, l: Seq<Lin>, r: Seq<Lin>, n: nat) -> (
    Seq<Row>,
    Seq<Lin>,
    Seq<Lin>,
)
    decreases n,
{
    if n == 0 {
        (c, Seq::empty(), Seq::empty())
    } else {
        let i = n - 1;
        let (c1, ol, or) = lanes_rows(c, s, l, r, i as nat);
        let (c2, delta) = mul_rows(c1, s, l[i].plus(r[i]));
        (c2, ol.push(l[i].plus(delta)), or.push(r[i].plus(delta)))
    }
}

/// The rows of a two-way switch, and both outputs.
pub open spec fn switch_rows(c: Seq<Row>, l: Seq<Lin>, r: Seq<Lin>) -> (
    Seq<Row>,
    Seq<Lin>,
    Seq<Lin>,
) {
    let s = c.len() as usize;
    lanes_rows(c.push(bool_row(s)), Lin::wire(s), l, r, l.len())
}

/// `s ? y : x`, as a switch computes it.
proof fn lemma_mux(s: F128, x: F128, y: F128)
    requires
        s.is_bit(),
    ensures
        x.plus(s.times(x.plus(y))) == if s == F128::one() {
            y
        } else {
            x
        },
        y.plus(s.times(x.plus(y))) == if s == F128::one() {
            x
        } else {
            y
        },
{
    broadcast use lemma_plus_is_zero;

    lemma_plus_comm(x, y);
}

proof fn lemma_lanes_sound(
    c: Seq<Row>,
    s: Lin,
    l: Seq<Lin>,
    r: Seq<Lin>,
    n: nat,
    z: Seq<F128>,
)
    requires
        n <= l.len(),
        l.len() == r.len(),
        sat(lanes_rows(c, s, l, r, n).0, z),
        s.eval(z).is_bit(),
    ensures
        sat(c, z),
        ({
            let (_, ol, or) = lanes_rows(c, s, l, r, n);
            let on = s.eval(z) == F128::one();
            &&& row_eval(ol, z) =~= row_eval(if on {
                r
            } else {
                l
            }.take(n as int), z)
            &&& row_eval(or, z) =~= row_eval(if on {
                l
            } else {
                r
            }.take(n as int), z)
        }),
    decreases n,
{
    if n > 0 {
        let i = n - 1;
        let (c1, ol, or) = lanes_rows(c, s, l, r, i as nat);
        lemma_mul_sound(c1, s, l[i].plus(r[i]), z);
        lemma_lanes_sound(c, s, l, r, i as nat, z);
        lemma_mux(s.eval(z), l[i].eval(z), r[i].eval(z));
        let (_, nl, nr) = lanes_rows(c, s, l, r, n);
        let on = s.eval(z) == F128::one();
        let el = if on {
            r
        } else {
            l
        };
        let er = if on {
            l
        } else {
            r
        };
        assert forall|j: int| 0 <= j < n implies row_eval(nl, z)[j] == row_eval(
            el.take(n as int),
            z,
        )[j] && row_eval(nr, z)[j] == row_eval(er.take(n as int), z)[j] by {
            if j < i {
                assert(row_eval(ol, z)[j] == row_eval(el.take(i), z)[j]);
                assert(row_eval(or, z)[j] == row_eval(er.take(i), z)[j]);
            }
        }
    }
}

proof fn lemma_lanes_prefix(c: Seq<Row>, s: Lin, l: Seq<Lin>, r: Seq<Lin>, n: nat, z: Seq<F128>)
    requires
        sat(lanes_rows(c, s, l, r, n).0, z),
    ensures
        sat(c, z),
    decreases n,
{
    if n > 0 {
        let i = n - 1;
        lemma_mul_sound(lanes_rows(c, s, l, r, i as nat).0, s, l[i].plus(r[i]), z);
        lemma_lanes_prefix(c, s, l, r, i as nat, z);
    }
}

/// A switch hands its two rows on, in one order or the other.
pub proof fn lemma_switch_sound(c: Seq<Row>, l: Seq<Lin>, r: Seq<Lin>, z: Seq<F128>)
    requires
        l.len() == r.len(),
        sat(switch_rows(c, l, r).0, z),
    ensures
        sat(c, z),
        ({
            let (_, ol, or) = switch_rows(c, l, r);
            ||| row_eval(ol, z) == row_eval(l, z) && row_eval(or, z) == row_eval(r, z)
            ||| row_eval(ol, z) == row_eval(r, z) && row_eval(or, z) == row_eval(l, z)
        }),
{
    let s = c.len() as usize;
    let c1 = c.push(bool_row(s));
    lemma_lanes_prefix(c1, Lin::wire(s), l, r, l.len(), z);
    lemma_bool_sound(c, z);
    lemma_lanes_sound(c1, Lin::wire(s), l, r, l.len(), z);
    assert(l.take(l.len() as int) =~= l);
    assert(r.take(l.len() as int) =~= r);
}

/// Exchanges two rows when `native_switch` is set.
fn conditional_switch(
    b: &mut FieldR1csBuilder,
    left: &Vec<LinExpr>,
    right: &Vec<LinExpr>,
    native_switch: bool,
) -> (r: (Vec<LinExpr>, Vec<LinExpr>))
    requires
        old(b)@.wf(),
        left@.len() == right@.len(),
        all_below(lins(left@), old(b)@.rows.len()),
        all_below(lins(right@), old(b)@.rows.len()),
    ensures
        (final(b)@.rows, lins(r.0@), lins(r.1@)) == switch_rows(
            old(b)@.rows,
            lins(left@),
            lins(right@),
        ),
        r.0@.len() == left@.len(),
        r.1@.len() == left@.len(),
        final(b)@.grows(old(b)@),
        final(b)@.honest() <==> old(b)@.honest(),
        all_below(lins(r.0@), final(b)@.rows.len()),
        all_below(lins(r.1@), final(b)@.rows.len()),
        ({
            let (x, y) = (row_eval(lins(left@), old(b)@.values), row_eval(
                lins(right@),
                old(b)@.values,
            ));
            let (u, v) = (row_eval(lins(r.0@), final(b)@.values), row_eval(
                lins(r.1@),
                final(b)@.values,
            ));
            if native_switch {
                u == y && v == x
            } else {
                u == x && v == y
            }
        }),
{
    let ghost l = lins(left@);
    let ghost rt = lins(right@);
    let ghost x = row_eval(l, old(b)@.values);
    let ghost y = row_eval(rt, old(b)@.values);
    let ghost (ex, ey) = if native_switch {
        (y, x)
    } else {
        (x, y)
    };
    let switch = alloc_bit(b, native_switch);
    let ghost start = b@;
    let mut out_left: Vec<LinExpr> = Vec::with_capacity(left.len());
    let mut out_right: Vec<LinExpr> = Vec::with_capacity(left.len());
    let mut i: usize = 0;
    assert(lins(out_left@) =~= Seq::empty());
    assert(lins(out_right@) =~= Seq::empty());
    while i < left.len()
        invariant
            i <= left@.len(),
            left@.len() == right@.len(),
            l == lins(left@),
            rt == lins(right@),
            x == row_eval(l, old(b)@.values),
            y == row_eval(rt, old(b)@.values),
            (ex, ey) == if native_switch {
                (y, x)
            } else {
                (x, y)
            },
            all_below(l, old(b)@.rows.len()),
            all_below(rt, old(b)@.rows.len()),
            start.grows(old(b)@),
            b@.grows(start),
            b@.grows(old(b)@),
            switch@ == Lin::wire(old(b)@.rows.len() as usize),
            switch@.below(start.rows.len()),
            switch@.eval(start.values) == F128::of_bool(native_switch),
            (b@.rows, lins(out_left@), lins(out_right@)) == lanes_rows(
                start.rows,
                switch@,
                l,
                rt,
                i as nat,
            ),
            b@.honest() <==> old(b)@.honest(),
            out_left@.len() == i,
            out_right@.len() == i,
            all_below(lins(out_left@), b@.rows.len()),
            all_below(lins(out_right@), b@.rows.len()),
            forall|j: int|
                0 <= j < i ==> (#[trigger] lins(out_left@)[j]).eval(b@.values) == ex[j],
            forall|j: int|
                0 <= j < i ==> (#[trigger] lins(out_right@)[j]).eval(b@.values) == ey[j],
        decreases left@.len() - i,
    {
        let ghost before = b@;
        let ghost pl = out_left@;
        let ghost pr = out_right@;
        assert(l[i as int] == left@[i as int]@ && rt[i as int] == right@[i as int]@);
        assert(l[i as int].below(old(b)@.rows.len()) && rt[i as int].below(old(b)@.rows.len()));
        let difference = left[i].add(&right[i]);
        let delta = crate::circuit::mul(b, &switch, &difference);
        let new_left = left[i].add(&delta);
        let new_right = right[i].add(&delta);
        out_left.push(new_left);
        out_right.push(new_right);
        proof {
            assert(x[i as int] == l[i as int].eval(old(b)@.values));
            assert(y[i as int] == rt[i as int].eval(old(b)@.values));
            lemma_mux(F128::of_bool(native_switch), x[i as int], y[i as int]);
            assert(lins(out_left@) =~= lins(pl).push(new_left@));
            assert(lins(out_right@) =~= lins(pr).push(new_right@));
            assert forall|j: int| 0 <= j <= i implies (#[trigger] lins(out_left@)[j]).below(
                b@.rows.len(),
            ) && lins(out_left@)[j].eval(b@.values) == ex[j] by {
                if j < i {
                    assert(lins(pl)[j].below(before.rows.len()));
                    assert(lins(pl)[j].eval(before.values) == ex[j]);
                }
            }
            assert forall|j: int| 0 <= j <= i implies (#[trigger] lins(out_right@)[j]).below(
                b@.rows.len(),
            ) && lins(out_right@)[j].eval(b@.values) == ey[j] by {
                if j < i {
                    assert(lins(pr)[j].below(before.rows.len()));
                    assert(lins(pr)[j].eval(before.values) == ey[j]);
                }
            }
        }
        i += 1;
    }
    assert(row_eval(lins(out_left@), b@.values) =~= ex);
    assert(row_eval(lins(out_right@), b@.values) =~= ey);
    (out_left, out_right)
}

// ---------------------------------------------------------------------------
// The network
// ---------------------------------------------------------------------------

/// The first layer over `m` pairs: its rows, and what enters either half.
pub open spec fn spread_rows(c: Seq<Row>, rows: Seq<Seq<Lin>>, m: nat) -> (
    Seq<Row>,
    Seq<Seq<Lin>>,
    Seq<Seq<Lin>>,
)
    decreases m,
{
    if m == 0 {
        (c, Seq::empty(), Seq::empty())
    } else {
        let (c1, up, down) = spread_rows(c, rows, (m - 1) as nat);
        let (c2, u, d) = switch_rows(c1, rows[2 * m - 2], rows[2 * m - 1]);
        (c2, up.push(u), down.push(d))
    }
}

/// The last layer over `m` pairs: its rows and what leaves the network.
pub open spec fn merge_rows(c: Seq<Row>, up: Seq<Seq<Lin>>, down: Seq<Seq<Lin>>, m: nat) -> (
    Seq<Row>,
    Seq<Seq<Lin>>,
)
    decreases m,
{
    if m == 0 {
        (c, Seq::empty())
    } else {
        let (c1, out) = merge_rows(c, up, down, (m - 1) as nat);
        let (c2, even, odd) = switch_rows(c1, up[m - 1], down[m - 1]);
        (c2, out.push(even).push(odd))
    }
}

/// The rows of a network over `2^k` rows, and its output. They depend on the
/// input expressions alone, not on how the switches are set.
pub open spec fn network_rows(c: Seq<Row>, rows: Seq<Seq<Lin>>, k: nat) -> (
    Seq<Row>,
    Seq<Seq<Lin>>,
)
    decreases k,
{
    if k == 0 {
        (c, rows)
    } else if k == 1 {
        let (c1, even, odd) = switch_rows(c, rows[0], rows[1]);
        (c1, seq![even, odd])
    } else {
        let j = (k - 1) as nat;
        let (c1, up, down) = spread_rows(c, rows, pow2(j));
        let (c2, up2) = network_rows(c1, up, j);
        let (c3, down2) = network_rows(c2, down, j);
        merge_rows(c3, up2, down2, pow2(j))
    }
}

/// How the switches of a network are set.
enum BenesConfig {
    Leaf,
    Switch(bool),
    Node(BenesNode),
}

struct BenesNode {
    first: Vec<bool>,
    upper: Box<BenesConfig>,
    lower: Box<BenesConfig>,
    last: Vec<bool>,
}

impl BenesConfig {
    /// The configuration of a network over `2^k` rows.
    spec fn shaped(self, k: nat) -> bool
        decreases k,
    {
        match self {
            BenesConfig::Leaf => k == 0,
            BenesConfig::Switch(_) => k == 1,
            BenesConfig::Node(node) => {
                &&& k >= 2
                &&& node.first@.len() == pow2((k - 1) as nat)
                &&& node.last@.len() == pow2((k - 1) as nat)
                &&& node.upper.shaped((k - 1) as nat)
                &&& node.lower.shaped((k - 1) as nat)
            },
        }
    }

    /// Where input row `i` leaves the network.
    spec fn dest(self, k: nat, i: int) -> int
        decreases k,
    {
        match self {
            BenesConfig::Leaf => i,
            BenesConfig::Switch(on) => if on {
                1 - i
            } else {
                i
            },
            BenesConfig::Node(node) => if k < 2 {
                i
            } else {
                let low = (i % 2 == 1) != node.first@[i / 2];
                if low {
                    let q = node.lower.dest((k - 1) as nat, i / 2);
                    2 * q + if node.last@[q] {
                        0int
                    } else {
                        1
                    }
                } else {
                    let q = node.upper.dest((k - 1) as nat, i / 2);
                    2 * q + if node.last@[q] {
                        1int
                    } else {
                        0
                    }
                }
            },
        }
    }
}

/// `p` sends `0..n` to itself one to one.
pub open spec fn is_permutation(p: Seq<usize>) -> bool {
    &&& forall|i: int| 0 <= i < p.len() ==> #[trigger] p[i] < p.len()
    &&& forall|i: int, j: int| 0 <= i < j < p.len() ==> #[trigger] p[i] != #[trigger] p[j]
}

/// A permutation reaches every position.
proof fn lemma_permutation_onto(p: Seq<usize>, out: int) -> (i: int)
    requires
        is_permutation(p),
        0 <= out < p.len(),
    ensures
        0 <= i < p.len(),
        p[i] == out,
{
    let ints = p.map_values(|x: usize| x as int);
    let range = vstd::set_lib::set_int_range(0, p.len() as int);
    vstd::set_lib::lemma_int_range(0, p.len() as int);
    assert(ints.no_duplicates()) by {
        assert forall|i: int, j: int|
            0 <= i < ints.len() && 0 <= j < ints.len() && i != j implies ints[i] != ints[j] by {
            if i < j {
                assert(p[i] != p[j]);
            } else {
                assert(p[j] != p[i]);
            }
        }
    }
    ints.unique_seq_to_set();
    assert(ints.to_set().subset_of(range)) by {
        assert forall|x: int| ints.to_set().contains(x) implies range.contains(x) by {
            let i = choose|i: int| 0 <= i < ints.len() && ints[i] == x;
            assert(p[i] < p.len());
        }
    }
    vstd::set_lib::lemma_subset_equality(ints.to_set(), range);
    assert(ints.to_set().contains(out));
    let i = choose|i: int| 0 <= i < ints.len() && ints[i] == out;
    i
}

/// The other row of the input pair of `i`.
spec fn mate(i: int) -> int {
    if i % 2 == 0 {
        i + 1
    } else {
        i - 1
    }
}

fn mate_of(i: usize, n: usize) -> (r: usize)
    requires
        i < n,
        n % 2 == 0,
    ensures
        r == mate(i as int),
        r < n,
{
    if i % 2 == 0 {
        i + 1
    } else {
        i - 1
    }
}

/// The inverse of a permutation is one.
pub proof fn lemma_inverse_permutation(p: Seq<usize>, inv: Seq<usize>)
    requires
        inverses(p, inv),
    ensures
        is_permutation(inv),
        inverses(inv, p),
{
    assert forall|i: int| 0 <= i < inv.len() implies #[trigger] inv[i] < inv.len() by {
        assert(forth(p, inv, i));
    }
    assert forall|i: int, j: int| 0 <= i < j < inv.len() implies #[trigger] inv[i]
        != #[trigger] inv[j] by {
        assert(forth(p, inv, i));
        assert(forth(p, inv, j));
    }
    assert forall|i: int| 0 <= i < p.len() implies #[trigger] back(inv, p, i) by {
        assert(forth(p, inv, i));
    }
    assert forall|o: int| 0 <= o < p.len() implies #[trigger] forth(inv, p, o) by {
        assert(back(p, inv, o));
        assert(p[o] < p.len());
    }
}

/// The inverse of a permutation.
pub fn invert(permutation: &Vec<usize>) -> (inverse: Vec<usize>)
    requires
        is_permutation(permutation@),
    ensures
        inverses(permutation@, inverse@),
{
    let n: usize = permutation.len();
    let mut inverse: Vec<usize> = Vec::with_capacity(n);
    let mut k: usize = 0;
    while k < n
        invariant
            k <= n,
            inverse@.len() == k,
        decreases n - k,
    {
        inverse.push(0);
        k += 1;
    }
    let mut i: usize = 0;
    while i < n
        invariant
            i <= n,
            n == permutation@.len(),
            inverse@.len() == n,
            is_permutation(permutation@),
            forall|j: int| 0 <= j < i ==> #[trigger] back(permutation@, inverse@, j),
        decreases n - i,
    {
        let o: usize = permutation[i];
        let ghost prior = inverse@;
        inverse.set(o, i);
        proof {
            assert forall|j: int| 0 <= j <= i implies #[trigger] back(permutation@, inverse@, j) by {
                if j < i {
                    assert(back(permutation@, prior, j));
                    assert(permutation@[j] != permutation@[i as int]);
                }
            }
        }
        i += 1;
    }
    proof {
        assert forall|o: int| 0 <= o < n implies #[trigger] forth(permutation@, inverse@, o) by {
            let w = lemma_permutation_onto(permutation@, o);
            assert(back(permutation@, inverse@, w));
        }
    }
    inverse
}

/// A coloring of rows in which the two rows of every input pair and the two
/// rows of every output pair differ.
spec fn proper(colors: Seq<bool>, p: Seq<usize>, inv: Seq<usize>) -> bool {
    &&& colors.len() == p.len()
    &&& forall|i: int| 0 <= i < p.len() ==> #[trigger] differ(colors, i, mate(i))
    &&& forall|i: int| 0 <= i < p.len() ==> #[trigger] differ(colors, i, out_mate(p, inv, i))
}

spec fn differ(colors: Seq<bool>, i: int, j: int) -> bool {
    colors[j] == !colors[i]
}

/// The row that leaves in the same output pair as `i`.
spec fn out_mate(p: Seq<usize>, inv: Seq<usize>, i: int) -> int {
    inv[mate(p[i] as int)] as int
}

/// Two sequences are inverse permutations.
pub open spec fn inverses(p: Seq<usize>, inv: Seq<usize>) -> bool {
    &&& is_permutation(p)
    &&& inv.len() == p.len()
    &&& forall|i: int| 0 <= i < p.len() ==> #[trigger] back(p, inv, i)
    &&& forall|o: int| 0 <= o < p.len() ==> #[trigger] forth(p, inv, o)
}

pub open spec fn back(p: Seq<usize>, inv: Seq<usize>, i: int) -> bool {
    inv[p[i] as int] == i
}

pub open spec fn forth(p: Seq<usize>, inv: Seq<usize>, o: int) -> bool {
    inv[o] < p.len() && p[inv[o] as int] == o
}

proof fn lemma_out_mate(p: Seq<usize>, inv: Seq<usize>, i: int)
    requires
        inverses(p, inv),
        p.len() % 2 == 0,
        0 <= i < p.len(),
    ensures
        0 <= out_mate(p, inv, i) < p.len(),
        out_mate(p, inv, i) != i,
        out_mate(p, inv, out_mate(p, inv, i)) == i,
        p[out_mate(p, inv, i)] == mate(p[i] as int),
{
    assert(p[i] < p.len());
    let o = mate(p[i] as int);
    assert(0 <= o < p.len());
    assert(forth(p, inv, o));
    assert(mate(o) == p[i]);
    assert(back(p, inv, i));
    assert(p[inv[o] as int] == o);
}

/// The number of rows without a color.
spec fn uncolored(colors: Seq<Option<bool>>) -> nat
    decreases colors.len(),
{
    if colors.len() == 0 {
        0
    } else {
        uncolored(colors.drop_last()) + if colors.last().is_none() {
            1nat
        } else {
            0
        }
    }
}

proof fn lemma_uncolored_set(colors: Seq<Option<bool>>, i: int, c: bool)
    requires
        0 <= i < colors.len(),
        colors[i].is_none(),
    ensures
        uncolored(colors.update(i, Some(c))) + 1 == uncolored(colors),
    decreases colors.len(),
{
    let u = colors.update(i, Some(c));
    if i == colors.len() - 1 {
        assert(u.drop_last() =~= colors.drop_last());
    } else {
        assert(u.drop_last() =~= colors.drop_last().update(i, Some(c)));
        lemma_uncolored_set(colors.drop_last(), i, c);
    }
}

/// Colored rows have mates of the other color, but for the input mate of
/// `open` and the output mate of `start`.
spec fn consistent(
    colors: Seq<Option<bool>>,
    p: Seq<usize>,
    inv: Seq<usize>,
    open: int,
    start: int,
) -> bool {
    &&& colors.len() == p.len()
    &&& forall|x: int| 0 <= x < p.len() && x != open ==> #[trigger] mated(colors, x, mate(x))
    &&& forall|x: int|
        0 <= x < p.len() && x != start ==> #[trigger] mated(colors, x, out_mate(p, inv, x))
}

/// If `x` has a color, `y` has the other one.
spec fn mated(colors: Seq<Option<bool>>, x: int, y: int) -> bool {
    colors[x].is_some() ==> colors[y] == Some(!colors[x].unwrap())
}

/// Colors the cycle through `start`, alternating between input pairs and
/// output pairs until it closes.
fn color_cycle(
    colors: &mut Vec<Option<bool>>,
    permutation: &Vec<usize>,
    inverse: &Vec<usize>,
    start: usize,
)
    requires
        inverses(permutation@, inverse@),
        permutation@.len() % 2 == 0,
        start < permutation@.len(),
        old(colors)@[start as int].is_none(),
        consistent(old(colors)@, permutation@, inverse@, -1, -1),
    ensures
        consistent(final(colors)@, permutation@, inverse@, -1, -1),
        final(colors)@[start as int].is_some(),
        forall|x: int|
            0 <= x < permutation@.len() && (#[trigger] old(colors)@[x]).is_some()
                ==> final(colors)@[x] == old(colors)@[x],
{
    let n: usize = permutation.len();
    let ghost p = permutation@;
    let ghost inv = inverse@;
    let ghost initial = colors@;
    colors.set(start, Some(false));
    let mut cur: usize = start;
    let mut closed: bool = false;
    proof {
        let now = colors@;
        lemma_out_mate(p, inv, start as int);
        assert(mated(initial, mate(start as int), mate(mate(start as int))));
        assert forall|x: int| 0 <= x < n && x != start implies #[trigger] mated(
            now,
            x,
            mate(x),
        ) by {
            assert(mated(initial, x, mate(x)));
        }
        assert forall|x: int| 0 <= x < n && x != start implies #[trigger] mated(
            now,
            x,
            out_mate(p, inv, x),
        ) by {
            lemma_out_mate(p, inv, x);
            assert(mated(initial, x, out_mate(p, inv, x)));
        }
    }
    while !closed
        invariant
            n == p.len(),
            p == permutation@,
            inv == inverse@,
            inverses(p, inv),
            n % 2 == 0,
            start < n,
            cur < n,
            initial.len() == n,
            colors@.len() == n,
            colors@[start as int] == Some(false),
            colors@[cur as int] == Some(false),
            !closed ==> colors@[mate(cur as int)].is_none(),
            !closed ==> consistent(colors@, p, inv, cur as int, start as int),
            closed ==> consistent(colors@, p, inv, -1, -1),
            forall|x: int|
                0 <= x < n && (#[trigger] initial[x]).is_some() ==> colors@[x] == initial[x],
        decreases uncolored(colors@) + if closed {
            0nat
        } else {
            1nat
        },
    {
        let ghost before = colors@;
        let across: usize = mate_of(cur, n);
        let out: usize = permutation[across];
        proof {
            lemma_out_mate(p, inv, across as int);
            lemma_uncolored_set(before, across as int, true);
            assert(forth(p, inv, mate(out as int)));
        }
        let next: usize = inverse[mate_of(out, n)];
        colors.set(across, Some(true));
        let ghost mid = colors@;
        if next == start {
            closed = true;
            proof {
                assert forall|x: int| 0 <= x < n implies #[trigger] mated(mid, x, mate(x)) by {
                    if x != cur {
                        assert(mated(before, x, mate(x)));
                    }
                }
                assert forall|x: int| 0 <= x < n implies #[trigger] mated(
                    mid,
                    x,
                    out_mate(p, inv, x),
                ) by {
                    lemma_out_mate(p, inv, x);
                    if x != start {
                        assert(mated(before, x, out_mate(p, inv, x)));
                    }
                }
            }
        } else {
            proof {
                lemma_out_mate(p, inv, next as int);
                assert(mated(before, next as int, out_mate(p, inv, next as int)));
                assert(before[next as int].is_none());
                lemma_uncolored_set(mid, next as int, false);
                if mate(next as int) != cur {
                    assert(mated(before, mate(next as int), mate(mate(next as int))));
                }
                assert(before[mate(next as int)].is_none());
                assert(mate(next as int) != across);
            }
            colors.set(next, Some(false));
            proof {
                let after = colors@;
                assert forall|x: int| 0 <= x < n && x != next implies #[trigger] mated(
                    after,
                    x,
                    mate(x),
                ) by {
                    if x != cur {
                        assert(mated(before, x, mate(x)));
                    }
                }
                assert forall|x: int| 0 <= x < n && x != start implies #[trigger] mated(
                    after,
                    x,
                    out_mate(p, inv, x),
                ) by {
                    lemma_out_mate(p, inv, x);
                    assert(mated(before, x, out_mate(p, inv, x)));
                }
            }
            cur = next;
        }
    }
}

/// A proper coloring of a permutation's rows.
fn color_rows(permutation: &Vec<usize>, inverse: &Vec<usize>) -> (colors: Vec<bool>)
    requires
        inverses(permutation@, inverse@),
        permutation@.len() % 2 == 0,
    ensures
        proper(colors@, permutation@, inverse@),
{
    let n: usize = permutation.len();
    let mut partial: Vec<Option<bool>> = Vec::with_capacity(n);
    let mut k: usize = 0;
    while k < n
        invariant
            k <= n,
            partial@.len() == k,
            forall|x: int| 0 <= x < k ==> (#[trigger] partial@[x]).is_none(),
        decreases n - k,
    {
        partial.push(None);
        k += 1;
    }
    let mut start: usize = 0;
    while start < n
        invariant
            start <= n,
            n == permutation@.len(),
            n % 2 == 0,
            inverses(permutation@, inverse@),
            consistent(partial@, permutation@, inverse@, -1, -1),
            forall|x: int| 0 <= x < start ==> (#[trigger] partial@[x]).is_some(),
        decreases n - start,
    {
        let colored = match partial[start] {
            Some(_) => true,
            None => false,
        };
        let ghost prior = partial@;
        if !colored {
            color_cycle(&mut partial, permutation, inverse, start);
        }
        proof {
            assert forall|x: int| 0 <= x <= start implies (#[trigger] partial@[x]).is_some() by {
                if x < start {
                    assert(prior[x].is_some());
                }
            }
        }
        start += 1;
    }
    let mut colors: Vec<bool> = Vec::with_capacity(n);
    let mut i: usize = 0;
    while i < n
        invariant
            i <= n,
            n == partial@.len(),
            forall|x: int| 0 <= x < n ==> (#[trigger] partial@[x]).is_some(),
            colors@.len() == i,
            forall|x: int| 0 <= x < i ==> #[trigger] colors@[x] == partial@[x].unwrap(),
        decreases n - i,
    {
        assert(partial@[i as int].is_some());
        match partial[i] {
            Some(color) => {
                colors.push(color);
            },
            None => {
                colors.push(false);
            },
        }
        i += 1;
    }
    proof {
        let p = permutation@;
        let inv = inverse@;
        assert forall|x: int| 0 <= x < n implies #[trigger] differ(colors@, x, mate(x)) by {
            assert(partial@[x].is_some());
            assert(mated(partial@, x, mate(x)));
        }
        assert forall|x: int| 0 <= x < n implies #[trigger] differ(
            colors@,
            x,
            out_mate(p, inv, x),
        ) by {
            lemma_out_mate(p, inv, x);
            assert(partial@[x].is_some());
            assert(mated(partial@, x, out_mate(p, inv, x)));
        }
    }
    colors
}

proof fn lemma_pow2_double(k: nat)
    requires
        k > 0,
    ensures
        pow2(k) == 2 * pow2((k - 1) as nat),
        pow2((k - 1) as nat) > 0,
        k >= 2 ==> pow2(k) % 4 == 0,
{
    lemma_pow2_unfold(k);
    lemma_pow2_pos((k - 1) as nat);
    if k >= 2 {
        lemma_pow2_unfold((k - 1) as nat);
    }
}

/// The configuration that routes every row `i` to `permutation[i]`.
fn route_config(permutation: &Vec<usize>, Ghost(k): Ghost<nat>) -> (config: BenesConfig)
    requires
        is_permutation(permutation@),
        permutation@.len() == pow2(k),
    ensures
        config.shaped(k),
        forall|i: int|
            0 <= i < permutation@.len() ==> #[trigger] config.dest(k, i) == permutation@[i],
    decreases k,
{
    let n: usize = permutation.len();
    let ghost p = permutation@;
    proof {
        vstd::arithmetic::power2::lemma2_to64();
        if k > 0 {
            lemma_pow2_double(k);
        }
        if k > 1 {
            lemma_pow2_double((k - 1) as nat);
        }
    }
    if n == 1 {
        assert(p[0] < 1);
        return BenesConfig::Leaf;
    }
    if n == 2 {
        assert(p[0] < 2 && p[1] < 2 && p[0] != p[1]);
        return BenesConfig::Switch(permutation[0] == 1);
    }
    let ghost j = (k - 1) as nat;
    let half: usize = n / 2;
    let inverse = invert(permutation);
    let colors = color_rows(permutation, &inverse);
    let ghost inv = inverse@;

    let mut first: Vec<bool> = Vec::with_capacity(half);
    let mut last: Vec<bool> = Vec::with_capacity(half);
    let mut upper_perm: Vec<usize> = Vec::with_capacity(half);
    let mut lower_perm: Vec<usize> = Vec::with_capacity(half);
    let mut pair: usize = 0;
    while pair < half
        invariant
            pair <= half,
            n == 2 * half,
            n == p.len(),
            p == permutation@,
            inv == inverse@,
            inverses(p, inv),
            proper(colors@, p, inv),
            first@.len() == pair,
            last@.len() == pair,
            upper_perm@.len() == pair,
            lower_perm@.len() == pair,
            forall|q: int| 0 <= q < pair ==> #[trigger] first@[q] == colors@[2 * q],
            forall|q: int| 0 <= q < pair ==> #[trigger] last@[q] == colors@[inv[2 * q] as int],
            forall|q: int|
                0 <= q < pair ==> #[trigger] upper_perm@[q] == p[2 * q + if colors@[2 * q] {
                    1int
                } else {
                    0
                }] / 2,
            forall|q: int|
                0 <= q < pair ==> #[trigger] lower_perm@[q] == p[2 * q + if colors@[2 * q] {
                    0int
                } else {
                    1
                }] / 2,
        decreases half - pair,
    {
        proof {
            assert(forth(p, inv, 2 * pair as int));
            assert(p[2 * pair as int] < n && p[2 * pair + 1] < n);
        }
        first.push(colors[2 * pair]);
        last.push(colors[inverse[2 * pair]]);
        if colors[2 * pair] {
            upper_perm.push(permutation[2 * pair + 1] / 2);
            lower_perm.push(permutation[2 * pair] / 2);
        } else {
            upper_perm.push(permutation[2 * pair] / 2);
            lower_perm.push(permutation[2 * pair + 1] / 2);
        }
        pair += 1;
    }
    proof {
        lemma_half_permutation(p, inv, colors@, upper_perm@, false);
        lemma_half_permutation(p, inv, colors@, lower_perm@, true);
    }
    let upper = route_config(&upper_perm, Ghost(j));
    let lower = route_config(&lower_perm, Ghost(j));
    let node = BenesNode { first, upper: Box::new(upper), lower: Box::new(lower), last };
    proof {
        let config = BenesConfig::Node(node);
        assert forall|i: int| 0 <= i < n implies #[trigger] config.dest(k, i) == p[i] by {
            let pr = i / 2;
            let low = (i % 2 == 1) != node.first@[pr];
            assert(node.first@[pr] == colors@[2 * pr]);
            assert(mate(2 * pr) == 2 * pr + 1);
            assert(differ(colors@, 2 * pr, mate(2 * pr)));
            assert(colors@[i] == low);
            assert(upper.dest(j, pr) == upper_perm@[pr]);
            assert(lower.dest(j, pr) == lower_perm@[pr]);
            assert(p[i] < n);
            let q = p[i] as int / 2;
            assert(if low {
                node.lower.dest(j, pr)
            } else {
                node.upper.dest(j, pr)
            } == q);
            lemma_out_mate(p, inv, i);
            assert(differ(colors@, i, out_mate(p, inv, i)));
            assert(node.last@[q] == colors@[inv[2 * q] as int]);
            assert(back(p, inv, i));
            if p[i] % 2 == 0 {
                assert(inv[2 * q] == i);
            } else {
                assert(mate(p[i] as int) == 2 * q);
                assert(inv[2 * q] == out_mate(p, inv, i));
            }
        }
    }
    BenesConfig::Node(node)
}

/// The rows of one color make up a permutation of half the size.
proof fn lemma_half_permutation(
    p: Seq<usize>,
    inv: Seq<usize>,
    colors: Seq<bool>,
    half: Seq<usize>,
    color: bool,
)
    requires
        inverses(p, inv),
        proper(colors, p, inv),
        p.len() == 2 * half.len(),
        forall|q: int|
            0 <= q < half.len() ==> #[trigger] half[q] == p[2 * q + if colors[2 * q] == color {
                0int
            } else {
                1
            }] / 2,
    ensures
        is_permutation(half),
{
    assert forall|q: int| 0 <= q < half.len() implies #[trigger] half[q] < half.len() by {
        assert(p[2 * q] < p.len() && p[2 * q + 1] < p.len());
    }
    assert forall|x: int, y: int| 0 <= x < y < half.len() implies #[trigger] half[x]
        != #[trigger] half[y] by {
        let u = 2 * x + if colors[2 * x] == color {
            0int
        } else {
            1
        };
        let v = 2 * y + if colors[2 * y] == color {
            0int
        } else {
            1
        };
        assert(mate(2 * x) == 2 * x + 1 && mate(2 * y) == 2 * y + 1);
        assert(differ(colors, 2 * x, mate(2 * x)));
        assert(differ(colors, 2 * y, mate(2 * y)));
        assert(colors[u] == color && colors[v] == color);
        assert(p[u] != p[v]);
        if half[x] == half[y] {
            assert(mate(p[u] as int) == p[v]);
            assert(back(p, inv, v));
            assert(out_mate(p, inv, u) == v);
            assert(differ(colors, u, out_mate(p, inv, u)));
        }
    }
}

proof fn lemma_dest_range(config: BenesConfig, k: nat, i: int)
    requires
        config.shaped(k),
        0 <= i < pow2(k),
    ensures
        0 <= config.dest(k, i) < pow2(k),
    decreases k,
{
    vstd::arithmetic::power2::lemma2_to64();
    match config {
        BenesConfig::Leaf => {},
        BenesConfig::Switch(_) => {},
        BenesConfig::Node(node) => {
            let j = (k - 1) as nat;
            lemma_pow2_double(k);
            lemma_dest_range(*node.upper, j, i / 2);
            lemma_dest_range(*node.lower, j, i / 2);
        },
    }
}

/// Rows keep their values while the system grows.
pub proof fn lemma_rows_stable(old: Circuit, new: Circuit, rows: Seq<Seq<Lin>>, width: nat)
    requires
        new.grows(old),
        rows_shaped(rows, width, old.rows.len()),
    ensures
        rows_eval(rows, new.values) == rows_eval(rows, old.values),
        rows_shaped(rows, width, new.rows.len()),
{
    assert forall|i: int| 0 <= i < rows.len() implies row_eval(rows[i], new.values) == row_eval(
        rows[i],
        old.values,
    ) && #[trigger] rows[i].len() == width && all_below(rows[i], new.rows.len()) by {
        assert(all_below(rows[i], old.rows.len()));
        assert forall|j: int| 0 <= j < rows[i].len() implies (#[trigger] rows[i][j]).eval(
            new.values,
        ) == rows[i][j].eval(old.values) && rows[i][j].below(new.rows.len()) by {
            assert(rows[i][j].below(old.rows.len()));
        }
        assert(row_eval(rows[i], new.values) =~= row_eval(rows[i], old.values));
    }
    assert(rows_eval(rows, new.values) =~= rows_eval(rows, old.values));
}

proof fn lemma_lane_rows_push(rows: Seq<Vec<LinExpr>>, v: Vec<LinExpr>, z: Seq<F128>)
    ensures
        lane_rows(rows.push(v)) == lane_rows(rows).push(lins(v@)),
        rows_eval(lane_rows(rows).push(lins(v@)), z) == rows_eval(lane_rows(rows), z).push(
            row_eval(lins(v@), z),
        ),
{
    assert(lane_rows(rows.push(v)) =~= lane_rows(rows).push(lins(v@)));
    assert(rows_eval(lane_rows(rows).push(lins(v@)), z) =~= rows_eval(lane_rows(rows), z).push(
        row_eval(lins(v@), z),
    ));
}

/// Sends the rows through the network as the configuration says.
fn apply_config(
    b: &mut FieldR1csBuilder,
    rows: Vec<Vec<LinExpr>>,
    config: &BenesConfig,
    Ghost(k): Ghost<nat>,
    Ghost(width): Ghost<nat>,
) -> (out: Vec<Vec<LinExpr>>)
    requires
        old(b)@.wf(),
        config.shaped(k),
        rows@.len() == pow2(k),
        rows_shaped(lane_rows(rows@), width, old(b)@.rows.len()),
    ensures
        (final(b)@.rows, lane_rows(out@)) == network_rows(old(b)@.rows, lane_rows(rows@), k),
        out@.len() == pow2(k),
        final(b)@.grows(old(b)@),
        final(b)@.honest() <==> old(b)@.honest(),
        rows_shaped(lane_rows(out@), width, final(b)@.rows.len()),
        forall|i: int|
            0 <= i < rows@.len() ==> rows_eval(lane_rows(out@), final(b)@.values)[
                #[trigger] config.dest(k, i)
            ] == rows_eval(lane_rows(rows@), old(b)@.values)[i],
    decreases k,
{
    let ghost vin = rows_eval(lane_rows(rows@), old(b)@.values);
    let ghost input = lane_rows(rows@);
    proof {
        vstd::arithmetic::power2::lemma2_to64();
    }
    match config {
        BenesConfig::Leaf => rows,
        BenesConfig::Switch(switch) => {
            assert(input[0] == lins(rows@[0]@) && input[1] == lins(rows@[1]@));
            assert(all_below(input[0], old(b)@.rows.len()) && input[0].len() == width);
            assert(all_below(input[1], old(b)@.rows.len()) && input[1].len() == width);
            let (even, odd) = conditional_switch(b, &rows[0], &rows[1], *switch);
            let mut out: Vec<Vec<LinExpr>> = Vec::with_capacity(2);
            out.push(even);
            out.push(odd);
            proof {
                assert(lane_rows(out@) =~= seq![lins(even@), lins(odd@)]);
                let e = rows_eval(lane_rows(out@), b@.values);
                assert(e[0] == row_eval(lins(even@), b@.values));
                assert(e[1] == row_eval(lins(odd@), b@.values));
                assert(vin[0] == row_eval(input[0], old(b)@.values));
                assert(vin[1] == row_eval(input[1], old(b)@.values));
                assert forall|i: int| 0 <= i < 2 implies e[#[trigger] config.dest(k, i)]
                    == vin[i] by {}
            }
            out
        },
        BenesConfig::Node(node) => {
            let ghost j = (k - 1) as nat;
            proof {
                lemma_pow2_double(k);
            }
            let total: usize = rows.len();
            let half: usize = total / 2;
            let mut upper: Vec<Vec<LinExpr>> = Vec::with_capacity(half);
            let mut lower: Vec<Vec<LinExpr>> = Vec::with_capacity(half);
            let mut pair: usize = 0;
            assert(lane_rows(upper@) =~= Seq::empty());
            assert(lane_rows(lower@) =~= Seq::empty());
            while pair < half
                invariant
                    pair <= half,
                    total == 2 * half,
                    rows@.len() == total,
                    node.first@.len() == half,
                    input == lane_rows(rows@),
                    vin == rows_eval(input, old(b)@.values),
                    rows_shaped(input, width, old(b)@.rows.len()),
                    b@.grows(old(b)@),
                    b@.honest() <==> old(b)@.honest(),
                    (b@.rows, lane_rows(upper@), lane_rows(lower@)) == spread_rows(
                        old(b)@.rows,
                        input,
                        pair as nat,
                    ),
                    upper@.len() == pair,
                    lower@.len() == pair,
                    rows_shaped(lane_rows(upper@), width, b@.rows.len()),
                    rows_shaped(lane_rows(lower@), width, b@.rows.len()),
                    forall|q: int|
                        0 <= q < pair ==> #[trigger] rows_eval(lane_rows(upper@), b@.values)[q]
                            == vin[2 * q + if node.first@[q] {
                            1int
                        } else {
                            0
                        }],
                    forall|q: int|
                        0 <= q < pair ==> #[trigger] rows_eval(lane_rows(lower@), b@.values)[q]
                            == vin[2 * q + if node.first@[q] {
                            0int
                        } else {
                            1
                        }],
                decreases half - pair,
            {
                let ghost before = b@;
                let ghost pu = upper@;
                let ghost pl = lower@;
                proof {
                    lemma_rows_stable(old(b)@, before, input, width);
                    assert(input[2 * pair as int] == lins(rows@[2 * pair as int]@));
                    assert(input[2 * pair + 1] == lins(rows@[2 * pair + 1]@));
                    assert(vin[2 * pair as int] == row_eval(input[2 * pair as int], before.values));
                    assert(vin[2 * pair + 1] == row_eval(input[2 * pair + 1], before.values));
                }
                let (up, down) = conditional_switch(
                    b,
                    &rows[2 * pair],
                    &rows[2 * pair + 1],
                    node.first[pair],
                );
                upper.push(up);
                lower.push(down);
                proof {
                    lemma_rows_stable(before, b@, lane_rows(pu), width);
                    lemma_rows_stable(before, b@, lane_rows(pl), width);
                    lemma_lane_rows_push(pu, up, b@.values);
                    lemma_lane_rows_push(pl, down, b@.values);
                    assert(2 * (pair + 1) - 2 == 2 * pair);
                    assert forall|q: int| 0 <= q <= pair implies #[trigger] rows_eval(
                        lane_rows(upper@),
                        b@.values,
                    )[q] == vin[2 * q + if node.first@[q] {
                        1int
                    } else {
                        0
                    }] by {
                        if q < pair {
                            assert(rows_eval(lane_rows(pu), before.values)[q] == vin[2 * q
                                + if node.first@[q] {
                                1int
                            } else {
                                0
                            }]);
                        }
                    }
                    assert forall|q: int| 0 <= q <= pair implies #[trigger] rows_eval(
                        lane_rows(lower@),
                        b@.values,
                    )[q] == vin[2 * q + if node.first@[q] {
                        0int
                    } else {
                        1
                    }] by {
                        if q < pair {
                            assert(rows_eval(lane_rows(pl), before.values)[q] == vin[2 * q
                                + if node.first@[q] {
                                0int
                            } else {
                                1
                            }]);
                        }
                    }
                }
                pair += 1;
            }
            let ghost b1 = b@;
            let ghost up1 = lane_rows(upper@);
            let ghost low1 = lane_rows(lower@);
            let upper2 = apply_config(b, upper, &node.upper, Ghost(j), Ghost(width));
            let ghost b2 = b@;
            proof {
                lemma_rows_stable(b1, b2, low1, width);
            }
            let lower2 = apply_config(b, lower, &node.lower, Ghost(j), Ghost(width));
            let ghost b3 = b@;
            let ghost up2 = lane_rows(upper2@);
            let ghost low2 = lane_rows(lower2@);
            let ghost eu = rows_eval(up2, b3.values);
            let ghost el = rows_eval(low2, b3.values);
            proof {
                lemma_rows_stable(b2, b3, up2, width);
            }
            let mut out: Vec<Vec<LinExpr>> = Vec::with_capacity(rows.len());
            let mut q: usize = 0;
            assert(lane_rows(out@) =~= Seq::empty());
            while q < half
                invariant
                    q <= half,
                    upper2@.len() == half,
                    lower2@.len() == half,
                    node.last@.len() == half,
                    up2 == lane_rows(upper2@),
                    low2 == lane_rows(lower2@),
                    eu == rows_eval(up2, b3.values),
                    el == rows_eval(low2, b3.values),
                    rows_shaped(up2, width, b3.rows.len()),
                    rows_shaped(low2, width, b3.rows.len()),
                    b@.grows(b3),
                    b@.honest() <==> b3.honest(),
                    (b@.rows, lane_rows(out@)) == merge_rows(b3.rows, up2, low2, q as nat),
                    out@.len() == 2 * q,
                    rows_shaped(lane_rows(out@), width, b@.rows.len()),
                    forall|x: int|
                        0 <= x < q ==> rows_eval(lane_rows(out@), b@.values)[2 * x + if node.last@[x] {
                            1int
                        } else {
                            0
                        }] == #[trigger] eu[x],
                    forall|x: int|
                        0 <= x < q ==> rows_eval(lane_rows(out@), b@.values)[2 * x + if node.last@[x] {
                            0int
                        } else {
                            1
                        }] == #[trigger] el[x],
                decreases half - q,
            {
                let ghost before = b@;
                let ghost po = out@;
                proof {
                    lemma_rows_stable(b3, before, up2, width);
                    lemma_rows_stable(b3, before, low2, width);
                    assert(up2[q as int] == lins(upper2@[q as int]@));
                    assert(low2[q as int] == lins(lower2@[q as int]@));
                    assert(eu[q as int] == row_eval(up2[q as int], before.values));
                    assert(el[q as int] == row_eval(low2[q as int], before.values));
                }
                let (even, odd) = conditional_switch(b, &upper2[q], &lower2[q], node.last[q]);
                out.push(even);
                let ghost pe = out@;
                out.push(odd);
                proof {
                    lemma_rows_stable(before, b@, lane_rows(po), width);
                    lemma_lane_rows_push(po, even, b@.values);
                    lemma_lane_rows_push(pe, odd, b@.values);
                    let eo = rows_eval(lane_rows(out@), b@.values);
                    let ep = rows_eval(lane_rows(po), before.values);
                    assert(eo == ep.push(row_eval(lins(even@), b@.values)).push(
                        row_eval(lins(odd@), b@.values),
                    ));
                    assert forall|x: int| 0 <= x <= q implies eo[2 * x + if node.last@[x] {
                        1int
                    } else {
                        0
                    }] == #[trigger] eu[x] by {
                        if x < q {
                            assert(ep[2 * x + if node.last@[x] {
                                1int
                            } else {
                                0
                            }] == eu[x]);
                        }
                    }
                    assert forall|x: int| 0 <= x <= q implies eo[2 * x + if node.last@[x] {
                        0int
                    } else {
                        1
                    }] == #[trigger] el[x] by {
                        if x < q {
                            assert(ep[2 * x + if node.last@[x] {
                                0int
                            } else {
                                1
                            }] == el[x]);
                        }
                    }
                }
                q += 1;
            }
            proof {
                let eo = rows_eval(lane_rows(out@), b@.values);
                assert forall|i: int| 0 <= i < rows@.len() implies eo[#[trigger] config.dest(k, i)]
                    == vin[i] by {
                    let x = i / 2;
                    lemma_dest_range(*node.upper, j, x);
                    lemma_dest_range(*node.lower, j, x);
                    let qu = node.upper.dest(j, x);
                    let ql = node.lower.dest(j, x);
                    assert(eu[qu] == rows_eval(up1, b1.values)[x]);
                    assert(el[ql] == rows_eval(low1, b1.values)[x]);
                }
            }
            out
        },
    }
}

/// `n` is a power of two.
pub open spec fn is_power_of_two(n: nat) -> bool {
    exists|k: nat| n == pow2(k)
}

/// The exponent of a power of two.
pub open spec fn log2(n: nat) -> nat {
    choose|k: nat| n == pow2(k)
}

/// Routes row `i` to `permutation[i]`.
///
/// The rows that are added depend on the input expressions alone; see
/// [`lemma_network_permutes`] for what they bind.
pub fn route_permutation_network(
    b: &mut FieldR1csBuilder,
    rows: Vec<Vec<LinExpr>>,
    permutation: &Vec<usize>,
) -> (out: Vec<Vec<LinExpr>>)
    requires
        old(b)@.wf(),
        is_power_of_two(rows@.len()),
        rows@.len() == permutation@.len(),
        is_permutation(permutation@),
        rows_shaped(lane_rows(rows@), rows@[0]@.len(), old(b)@.rows.len()),
    ensures
        (final(b)@.rows, lane_rows(out@)) == network_rows(
            old(b)@.rows,
            lane_rows(rows@),
            log2(rows@.len()),
        ),
        out@.len() == rows@.len(),
        final(b)@.grows(old(b)@),
        final(b)@.honest() <==> old(b)@.honest(),
        rows_shaped(lane_rows(out@), rows@[0]@.len(), final(b)@.rows.len()),
        forall|i: int|
            0 <= i < rows@.len() ==> rows_eval(lane_rows(out@), final(b)@.values)[
                #[trigger] permutation@[i] as int
            ] == rows_eval(lane_rows(rows@), old(b)@.values)[i],
{
    let ghost k = log2(rows@.len());
    let ghost width = rows@[0]@.len();
    let config = route_config(permutation, Ghost(k));
    let ghost vin = rows_eval(lane_rows(rows@), old(b)@.values);
    let out = apply_config(b, rows, &config, Ghost(k), Ghost(width));
    proof {
        assert forall|i: int| 0 <= i < permutation@.len() implies rows_eval(
            lane_rows(out@),
            b@.values,
        )[#[trigger] permutation@[i] as int] == vin[i] by {
            assert(config.dest(k, i) == permutation@[i]);
        }
    }
    out
}

// ---------------------------------------------------------------------------
// What a satisfied network binds
// ---------------------------------------------------------------------------

/// Every row has `width` lanes.
pub open spec fn rows_wide(rows: Seq<Seq<Lin>>, width: nat) -> bool {
    forall|i: int| 0 <= i < rows.len() ==> (#[trigger] rows[i]).len() == width
}

proof fn lemma_lanes_len(c: Seq<Row>, s: Lin, l: Seq<Lin>, r: Seq<Lin>, n: nat)
    ensures
        lanes_rows(c, s, l, r, n).1.len() == n,
        lanes_rows(c, s, l, r, n).2.len() == n,
    decreases n,
{
    if n > 0 {
        lemma_lanes_len(c, s, l, r, (n - 1) as nat);
    }
}

proof fn lemma_switch_len(c: Seq<Row>, l: Seq<Lin>, r: Seq<Lin>)
    ensures
        switch_rows(c, l, r).1.len() == l.len(),
        switch_rows(c, l, r).2.len() == l.len(),
{
    let s = c.len() as usize;
    lemma_lanes_len(c.push(bool_row(s)), Lin::wire(s), l, r, l.len());
}

proof fn lemma_eval_push(rows: Seq<Seq<Lin>>, r: Seq<Lin>, z: Seq<F128>)
    ensures
        rows_eval(rows.push(r), z) == rows_eval(rows, z).push(row_eval(r, z)),
        rows_eval(rows.push(r), z).to_multiset() == rows_eval(rows, z).to_multiset().insert(
            row_eval(r, z),
        ),
{
    assert(rows_eval(rows.push(r), z) =~= rows_eval(rows, z).push(row_eval(r, z)));
    rows_eval(rows, z).to_multiset_ensures();
}

/// Two rows added to a collection in either order.
proof fn lemma_insert_two(m: Multiset<Seq<F128>>, x: Seq<F128>, y: Seq<F128>)
    ensures
        m.insert(x).insert(y) == m.insert(y).insert(x),
{
    assert(m.insert(x).insert(y) =~= m.insert(y).insert(x));
}

proof fn lemma_add_inserts(
    m: Multiset<Seq<F128>>,
    n: Multiset<Seq<F128>>,
    x: Seq<F128>,
    y: Seq<F128>,
)
    ensures
        m.insert(x).add(n.insert(y)) == m.add(n).insert(x).insert(y),
{
    assert(m.insert(x).add(n.insert(y)) =~= m.add(n).insert(x).insert(y));
}

proof fn lemma_spread_sound(c: Seq<Row>, rows: Seq<Seq<Lin>>, m: nat, width: nat, z: Seq<F128>)
    requires
        2 * m <= rows.len(),
        rows_wide(rows, width),
        sat(spread_rows(c, rows, m).0, z),
    ensures
        sat(c, z),
        ({
            let (_, up, down) = spread_rows(c, rows, m);
            &&& up.len() == m
            &&& down.len() == m
            &&& rows_wide(up, width)
            &&& rows_wide(down, width)
            &&& rows_eval(up, z).to_multiset().add(rows_eval(down, z).to_multiset()) == rows_eval(
                rows.take(2 * m as int),
                z,
            ).to_multiset()
        }),
    decreases m,
{
    if m == 0 {
        assert(rows.take(0) =~= Seq::empty());
        let e = rows_eval(Seq::<Seq<Lin>>::empty(), z);
        assert(rows_eval(rows.take(0), z) =~= e);
        e.to_multiset_ensures();
        assert(e =~= Seq::empty());
        assert(e.to_multiset().len() == 0);
        assert(e.to_multiset() =~= Multiset::empty());
        assert(e.to_multiset().add(e.to_multiset()) =~= e.to_multiset());
    } else {
        let (c1, up, down) = spread_rows(c, rows, (m - 1) as nat);
        let (l, r) = (rows[2 * m - 2], rows[2 * m - 1]);
        let (c2, u, d) = switch_rows(c1, l, r);
        lemma_switch_sound(c1, l, r, z);
        lemma_switch_len(c1, l, r);
        lemma_spread_sound(c, rows, (m - 1) as nat, width, z);
        let shorter = rows.take(2 * m - 2);
        assert(rows.take(2 * m as int) =~= shorter.push(l).push(r));
        lemma_eval_push(shorter, l, z);
        lemma_eval_push(shorter.push(l), r, z);
        lemma_eval_push(up, u, z);
        lemma_eval_push(down, d, z);
        let mu = rows_eval(up, z).to_multiset();
        let md = rows_eval(down, z).to_multiset();
        let ms = rows_eval(shorter, z).to_multiset();
        lemma_add_inserts(mu, md, row_eval(u, z), row_eval(d, z));
        lemma_insert_two(ms, row_eval(l, z), row_eval(r, z));
    }
}

proof fn lemma_merge_sound(
    c: Seq<Row>,
    up: Seq<Seq<Lin>>,
    down: Seq<Seq<Lin>>,
    m: nat,
    width: nat,
    z: Seq<F128>,
)
    requires
        m <= up.len(),
        up.len() == down.len(),
        rows_wide(up, width),
        rows_wide(down, width),
        sat(merge_rows(c, up, down, m).0, z),
    ensures
        sat(c, z),
        ({
            let (_, out) = merge_rows(c, up, down, m);
            &&& out.len() == 2 * m
            &&& rows_wide(out, width)
            &&& rows_eval(out, z).to_multiset() == rows_eval(
                up.take(m as int),
                z,
            ).to_multiset().add(rows_eval(down.take(m as int), z).to_multiset())
        }),
    decreases m,
{
    if m == 0 {
        let e = rows_eval(Seq::<Seq<Lin>>::empty(), z);
        assert(up.take(0) =~= Seq::empty());
        assert(down.take(0) =~= Seq::empty());
        e.to_multiset_ensures();
        assert(e =~= Seq::empty());
        assert(e.to_multiset().len() == 0);
        assert(e.to_multiset() =~= Multiset::empty());
        assert(e.to_multiset().add(e.to_multiset()) =~= e.to_multiset());
    } else {
        let (c1, out) = merge_rows(c, up, down, (m - 1) as nat);
        let (u, d) = (up[m - 1], down[m - 1]);
        let (c2, even, odd) = switch_rows(c1, u, d);
        lemma_switch_sound(c1, u, d, z);
        lemma_switch_len(c1, u, d);
        lemma_merge_sound(c, up, down, (m - 1) as nat, width, z);
        let su = up.take(m - 1);
        let sd = down.take(m - 1);
        assert(up.take(m as int) =~= su.push(u));
        assert(down.take(m as int) =~= sd.push(d));
        lemma_eval_push(su, u, z);
        lemma_eval_push(sd, d, z);
        lemma_eval_push(out, even, z);
        lemma_eval_push(out.push(even), odd, z);
        let mu = rows_eval(su, z).to_multiset();
        let md = rows_eval(sd, z).to_multiset();
        lemma_add_inserts(mu, md, row_eval(u, z), row_eval(d, z));
        lemma_insert_two(mu.add(md), row_eval(u, z), row_eval(d, z));
    }
}

/// Under every assignment that satisfies a network, whatever its switches, the
/// rows that leave it are those that enter it, in some order.
pub proof fn lemma_network_permutes(
    c: Seq<Row>,
    rows: Seq<Seq<Lin>>,
    k: nat,
    width: nat,
    z: Seq<F128>,
)
    requires
        rows.len() == pow2(k),
        rows_wide(rows, width),
        sat(network_rows(c, rows, k).0, z),
    ensures
        sat(c, z),
        network_rows(c, rows, k).1.len() == rows.len(),
        rows_wide(network_rows(c, rows, k).1, width),
        rows_eval(network_rows(c, rows, k).1, z).to_multiset() == rows_eval(
            rows,
            z,
        ).to_multiset(),
    decreases k,
{
    vstd::arithmetic::power2::lemma2_to64();
    if k == 0 {
    } else if k == 1 {
        let (c1, even, odd) = switch_rows(c, rows[0], rows[1]);
        lemma_switch_sound(c, rows[0], rows[1], z);
        lemma_switch_len(c, rows[0], rows[1]);
        let e = Seq::<Seq<Lin>>::empty();
        assert(rows =~= e.push(rows[0]).push(rows[1]));
        assert(seq![even, odd] =~= e.push(even).push(odd));
        lemma_eval_push(e, rows[0], z);
        lemma_eval_push(e.push(rows[0]), rows[1], z);
        lemma_eval_push(e, even, z);
        lemma_eval_push(e.push(even), odd, z);
        let m = rows_eval(e, z).to_multiset();
        lemma_insert_two(m, row_eval(rows[0], z), row_eval(rows[1], z));
    } else {
        let j = (k - 1) as nat;
        lemma_pow2_double(k);
        let (c1, up, down) = spread_rows(c, rows, pow2(j));
        let (c2, up2) = network_rows(c1, up, j);
        let (c3, down2) = network_rows(c2, down, j);
        lemma_spread_len(c, rows, pow2(j), width);
        lemma_network_len(c1, up, j, width);
        lemma_network_len(c2, down, j, width);
        lemma_merge_sound(c3, up2, down2, pow2(j), width, z);
        lemma_network_permutes(c2, down, j, width, z);
        lemma_network_permutes(c1, up, j, width, z);
        lemma_spread_sound(c, rows, pow2(j), width, z);
        assert(rows.take(2 * pow2(j) as int) =~= rows);
        assert(up2.take(pow2(j) as int) =~= up2);
        assert(down2.take(pow2(j) as int) =~= down2);
    }
}

proof fn lemma_spread_len(c: Seq<Row>, rows: Seq<Seq<Lin>>, m: nat, width: nat)
    requires
        2 * m <= rows.len(),
        rows_wide(rows, width),
    ensures
        spread_rows(c, rows, m).1.len() == m,
        spread_rows(c, rows, m).2.len() == m,
        rows_wide(spread_rows(c, rows, m).1, width),
        rows_wide(spread_rows(c, rows, m).2, width),
    decreases m,
{
    if m > 0 {
        lemma_spread_len(c, rows, (m - 1) as nat, width);
        let c1 = spread_rows(c, rows, (m - 1) as nat).0;
        lemma_switch_len(c1, rows[2 * m - 2], rows[2 * m - 1]);
    }
}

proof fn lemma_merge_len(c: Seq<Row>, up: Seq<Seq<Lin>>, down: Seq<Seq<Lin>>, m: nat, width: nat)
    requires
        m <= up.len(),
        up.len() == down.len(),
        rows_wide(up, width),
        rows_wide(down, width),
    ensures
        merge_rows(c, up, down, m).1.len() == 2 * m,
        rows_wide(merge_rows(c, up, down, m).1, width),
    decreases m,
{
    if m > 0 {
        lemma_merge_len(c, up, down, (m - 1) as nat, width);
        lemma_switch_len(merge_rows(c, up, down, (m - 1) as nat).0, up[m - 1], down[m - 1]);
    }
}

/// A network has as many rows going out as coming in, of the same width.
pub proof fn lemma_network_len(c: Seq<Row>, rows: Seq<Seq<Lin>>, k: nat, width: nat)
    requires
        rows.len() == pow2(k),
        rows_wide(rows, width),
    ensures
        network_rows(c, rows, k).1.len() == rows.len(),
        rows_wide(network_rows(c, rows, k).1, width),
    decreases k,
{
    vstd::arithmetic::power2::lemma2_to64();
    if k == 1 {
        lemma_switch_len(c, rows[0], rows[1]);
    } else if k > 1 {
        let j = (k - 1) as nat;
        lemma_pow2_double(k);
        let (c1, up, down) = spread_rows(c, rows, pow2(j));
        lemma_spread_len(c, rows, pow2(j), width);
        let (c2, up2) = network_rows(c1, up, j);
        lemma_network_len(c1, up, j, width);
        let (c3, down2) = network_rows(c2, down, j);
        lemma_network_len(c2, down, j, width);
        lemma_merge_len(c3, up2, down2, pow2(j), width);
    }
}

} // verus!
