//! Batches of authentication paths over the spine.
//!
//! A path takes two slots for every level: the left child over the capacity,
//! then the right child added to the rate. The depth is part of the shape; the
//! directions are bits of the witness, so that every relation carries the terms
//! of both sides under the direction and its complement.

use vstd::prelude::*;
use vstd::arithmetic::power2::pow2;
use crate::batch_eval::{
    linear_ok, linear_terms, linear_values, term_views, terms_at, terms_below, LinearEvalClaimTrace,
    LinearEvalTermTrace,
};
use crate::circuit::{
    all_below, group_circuit, group_lin, lemma_prefix_refl, lemma_prefix_trans, lins, mul_rows,
    prefix, FieldR1csBuilder, Lin, LinExpr, Row,
};
use crate::eval_gadgets::lemma_below_at;
use crate::field::{
    group_field_units, lemma_plus_assoc, lemma_plus_comm, lemma_plus_is_zero, lemma_times_comm,
    F128,
};
use crate::gadget::{
    computed, holds_past, lemma_computed_refl, lemma_computed_trans, lemma_mul_past,
    lemma_past_split, times,
};
use crate::multilinear::evals_at;
use crate::poseidon::{compressed, dot, mds, Permutation, PoseidonTables};
use crate::spine_claims::{
    absorbed, block_lins, blocks_at, claim_below, lemma_dot_absorbed, lemma_slot_permutes, mds_pair,
    point_index, relation_holds, relations_hold, slot_follows, state_at, state_term, terms_sum,
};

verus! {

broadcast use {group_circuit, lemma_computed_trans};

/// The hash of a tree's nodes: its tag and the capacity that it starts from.
#[derive(Clone, Copy, Debug)]
pub struct MerkleCircuit {
    pub node_tag: u64,
    pub iv: [F128; 2],
}

/// A path on wires. Past the active depth there is nothing.
#[derive(Debug)]
pub struct MerklePathInputsTrace {
    pub leaf: [LinExpr; 2],
    pub siblings: Vec<[LinExpr; 2]>,
    pub direction_bits: Vec<LinExpr>,
    pub expected_root: [LinExpr; 2],
    pub active_depth: usize,
}

/// The expressions of a path.
pub struct PathLins {
    pub leaf: Seq<Lin>,
    pub siblings: Seq<Seq<Lin>>,
    pub bits: Seq<Lin>,
    pub root: Seq<Lin>,
}

/// The values of a path.
pub struct PathValues {
    pub leaf: Seq<F128>,
    pub siblings: Seq<Seq<F128>>,
    pub bits: Seq<F128>,
    pub root: Seq<F128>,
}

impl View for MerklePathInputsTrace {
    type V = PathLins;

    open spec fn view(&self) -> PathLins {
        PathLins {
            leaf: lins(self.leaf@),
            siblings: block_lins(self.siblings@),
            bits: lins(self.direction_bits@),
            root: lins(self.expected_root@),
        }
    }
}

impl PathLins {
    /// A path of a given depth.
    pub open spec fn wf(self, depth: nat) -> bool {
        &&& depth > 0
        &&& self.leaf.len() == 2
        &&& self.root.len() == 2
        &&& self.siblings.len() == depth
        &&& self.bits.len() == depth
        &&& forall|i: int| 0 <= i < depth ==> (#[trigger] self.siblings[i]).len() == 2
    }

    pub open spec fn at(self, z: Seq<F128>) -> PathValues {
        PathValues {
            leaf: evals_at(self.leaf, z),
            siblings: blocks_at(self.siblings, z),
            bits: evals_at(self.bits, z),
            root: evals_at(self.root, z),
        }
    }
}

impl MerklePathInputsTrace {
    pub open spec fn wf(&self) -> bool {
        &&& self.active_depth > 0
        &&& self.siblings@.len() == self.active_depth
        &&& self.direction_bits@.len() == self.active_depth
    }

    pub open spec fn below(&self, n: nat) -> bool {
        &&& all_below(lins(self.leaf@), n)
        &&& crate::spine_claims::blocks_below(self.siblings@, n)
        &&& all_below(lins(self.direction_bits@), n)
        &&& all_below(lins(self.expected_root@), n)
    }
}

/// The node at a level of a path: where the direction is set, the node below is
/// the right child.
pub open spec fn node_at(p: Permutation, iv: Seq<F128>, v: PathValues, level: nat) -> Seq<F128>
    decreases level,
{
    if level == 0 {
        v.leaf
    } else {
        let below = node_at(p, iv, v, (level - 1) as nat);
        if v.bits[level - 1] == F128::one() {
            compressed(p, iv, v.siblings[level - 1], below)
        } else {
            compressed(p, iv, below, v.siblings[level - 1])
        }
    }
}

// ---------------------------------------------------------------------------
// Relations
// ---------------------------------------------------------------------------

/// The weights of the sibling and of the node below, on either side.
pub open spec fn side_weights(d: Lin, right: bool) -> (Lin, Lin) {
    let not_d = d.plus_const(F128::one());
    if right {
        (not_d, d)
    } else {
        (d, not_d)
    }
}

pub open spec fn pair_lin(row: Seq<F128>, pair: Seq<Lin>) -> Lin {
    pair[0].scale(row[0]).plus(pair[1].scale(row[1]))
}

/// The rows, terms and value of a relation: a lane of a level's left or right
/// slot.
pub open spec fn side_claim(
    c: Seq<Row>,
    p: Permutation,
    iv: Seq<F128>,
    path: PathLins,
    offset: nat,
    level: int,
    right: bool,
    lane: int,
) -> (Seq<Row>, Seq<(nat, Lin)>, Lin) {
    let row = p.full[lane];
    let slot_a = (offset + 2 * level) as nat;
    let (of_sibling, of_node) = side_weights(path.bits[level], right);
    let (c1, m) = mul_rows(c, of_sibling, pair_lin(row, path.siblings[level]));
    let value = if right {
        m
    } else {
        m.plus_const(iv[0].times(row[2]).plus(iv[1].times(row[3])))
    };
    let own = if right {
        seq![
            (point_index(slot_a + 1, 0, lane as nat), Lin::constant(F128::one())),
            (point_index(slot_a, p.rounds(), 0), Lin::constant(row[0])),
            (point_index(slot_a, p.rounds(), 1), Lin::constant(row[1])),
            (point_index(slot_a, p.rounds(), 2), Lin::constant(row[2])),
            (point_index(slot_a, p.rounds(), 3), Lin::constant(row[3])),
        ]
    } else {
        seq![(point_index(slot_a, 0, lane as nat), Lin::constant(F128::one()))]
    };
    if level == 0 {
        let (c2, k) = mul_rows(c1, of_node, pair_lin(row, path.leaf));
        (c2, own, value.plus(k))
    } else {
        let before = (slot_a - 1) as nat;
        (
            c1,
            own.push((point_index(before, p.rounds(), 0), of_node.scale(row[0]))).push(
                (point_index(before, p.rounds(), 1), of_node.scale(row[1])),
            ),
            value,
        )
    }
}

/// The first `n` relations of a path's levels: eight for every level.
pub open spec fn level_claims(
    c: Seq<Row>,
    p: Permutation,
    iv: Seq<F128>,
    path: PathLins,
    offset: nat,
    n: nat,
) -> (Seq<Row>, Seq<Seq<(nat, Lin)>>, Seq<Lin>)
    decreases n,
{
    if n == 0 {
        (c, Seq::empty(), Seq::empty())
    } else {
        let k = n - 1;
        let (c1, terms, values) = level_claims(c, p, iv, path, offset, (n - 1) as nat);
        let (c2, t, v) = side_claim(c1, p, iv, path, offset, k / 8, k % 8 >= 4, k % 4);
        (c2, terms.push(t), values.push(v))
    }
}

/// The relations of a path, the last two for its root.
pub open spec fn path_claims(
    c: Seq<Row>,
    p: Permutation,
    iv: Seq<F128>,
    path: PathLins,
    offset: nat,
) -> (Seq<Row>, Seq<Seq<(nat, Lin)>>, Seq<Lin>) {
    let depth = path.bits.len();
    let (c1, terms, values) = level_claims(c, p, iv, path, offset, 8 * depth);
    let last = (offset + 2 * depth - 1) as nat;
    let one = Lin::constant(F128::one());
    (
        c1,
        terms.push(seq![(point_index(last, p.rounds(), 0), one)]).push(
            seq![(point_index(last, p.rounds(), 1), one)],
        ),
        values.push(path.root[0]).push(path.root[1]),
    )
}

proof fn lemma_side_past(
    c: Seq<Row>,
    p: Permutation,
    iv: Seq<F128>,
    path: PathLins,
    offset: nat,
    level: int,
    right: bool,
    lane: int,
    z: Seq<F128>,
)
    ensures
        prefix(c, side_claim(c, p, iv, path, offset, level, right, lane).0),
        holds_past(side_claim(c, p, iv, path, offset, level, right, lane).0, c.len(), z) ==> {
            let row = p.full[lane];
            let (of_sibling, of_node) = side_weights(path.bits[level], right);
            let sib = of_sibling.eval(z).times(pair_lin(row, path.siblings[level]).eval(z));
            let value = if right {
                sib
            } else {
                sib.plus(iv[0].times(row[2]).plus(iv[1].times(row[3])))
            };
            side_claim(c, p, iv, path, offset, level, right, lane).2.eval(z) == if level == 0 {
                value.plus(of_node.eval(z).times(pair_lin(row, path.leaf).eval(z)))
            } else {
                value
            }
        },
{
    broadcast use {lemma_prefix_trans, group_lin};

    let row = p.full[lane];
    let (of_sibling, of_node) = side_weights(path.bits[level], right);
    let sib = pair_lin(row, path.siblings[level]);
    let (c1, m) = mul_rows(c, of_sibling, sib);
    lemma_mul_past(c, of_sibling, sib, z);
    if level == 0 {
        let leaf = pair_lin(row, path.leaf);
        let (c2, k) = mul_rows(c1, of_node, leaf);
        lemma_mul_past(c1, of_node, leaf, z);
        if holds_past(c2, c.len(), z) {
            lemma_past_split(c2, c1, c.len(), z);
        }
    }
}

/// The rows of the relations follow the rows before them; there is a relation
/// for every term list.
proof fn lemma_level_shape(
    c: Seq<Row>,
    p: Permutation,
    iv: Seq<F128>,
    path: PathLins,
    offset: nat,
    n: nat,
)
    ensures
        prefix(c, level_claims(c, p, iv, path, offset, n).0),
        level_claims(c, p, iv, path, offset, n).1.len() == n,
        level_claims(c, p, iv, path, offset, n).2.len() == n,
    decreases n,
{
    broadcast use lemma_prefix_trans;

    if n == 0 {
        lemma_prefix_refl(c);
    } else {
        let k = n - 1;
        let c1 = level_claims(c, p, iv, path, offset, (n - 1) as nat).0;
        lemma_level_shape(c, p, iv, path, offset, (n - 1) as nat);
        lemma_side_past(c1, p, iv, path, offset, k / 8, k % 8 >= 4, k % 4, Seq::empty());
    }
}

/// The relations of a path: as many as it has, over rows that follow.
pub proof fn lemma_path_shape(
    c: Seq<Row>,
    p: Permutation,
    iv: Seq<F128>,
    path: PathLins,
    offset: nat,
)
    ensures
        prefix(c, path_claims(c, p, iv, path, offset).0),
        path_claims(c, p, iv, path, offset).1.len() == 8 * path.bits.len() + 2,
        path_claims(c, p, iv, path, offset).2.len() == 8 * path.bits.len() + 2,
{
    lemma_level_shape(c, p, iv, path, offset, 8 * path.bits.len());
}

// ---------------------------------------------------------------------------
// What the relations bind
// ---------------------------------------------------------------------------

proof fn lemma_terms_push(terms: Seq<(nat, F128)>, x: (nat, F128), column: Seq<F128>, n: nat)
    requires
        n <= terms.len(),
    ensures
        terms_sum(terms.push(x), column, n) == terms_sum(terms, column, n),
    decreases n,
{
    if n > 0 {
        lemma_terms_push(terms, x, column, (n - 1) as nat);
    }
}

/// The node below a level, as the column holds it.
pub open spec fn node_below(
    p: Permutation,
    column: Seq<F128>,
    leaf: Seq<F128>,
    offset: nat,
    level: int,
) -> Seq<F128> {
    if level == 0 {
        leaf
    } else {
        let s = state_at(column, (offset + 2 * level - 1) as nat, p.rounds());
        seq![s[0], s[1]]
    }
}

/// The left child of a level, or the right one.
pub open spec fn child(bit: F128, sibling: Seq<F128>, node: Seq<F128>, right: bool) -> Seq<F128> {
    if (bit == F128::one()) == right {
        node
    } else {
        sibling
    }
}

/// What a side's slot starts from, before its first matrix.
pub open spec fn side_input(
    p: Permutation,
    iv: Seq<F128>,
    column: Seq<F128>,
    pair: Seq<F128>,
    slot_a: nat,
    right: bool,
) -> Seq<F128> {
    if right {
        absorbed(state_at(column, slot_a, p.rounds()), pair)
    } else {
        seq![pair[0], pair[1], iv[0], iv[1]]
    }
}

/// `x + d + e` is `v` exactly where `x` is `d + (v + e)`.
proof fn lemma_move(x: F128, d: F128, e: F128, v: F128)
    ensures
        x.plus(d).plus(e) == v <==> x == d.plus(v.plus(e)),
{
    broadcast use {lemma_plus_is_zero, group_field_units};

    lemma_plus_assoc(x, d, e);
    lemma_plus_comm(x, d.plus(e));
    lemma_plus_comm(v, e);
    lemma_plus_assoc(d, e, v);
    let t = d.plus(e);
    assert(t.plus(t.plus(x)) == x);
    assert(t.plus(t.plus(v)) == v);
}

/// A relation says what a lane of its slot's first state is.
#[verifier::rlimit(40)]
proof fn lemma_side_relation(
    c: Seq<Row>,
    p: Permutation,
    iv: Seq<F128>,
    path: PathLins,
    depth: nat,
    offset: nat,
    level: int,
    right: bool,
    lane: int,
    column: Seq<F128>,
    z: Seq<F128>,
)
    requires
        path.wf(depth),
        0 <= level < depth,
        0 <= lane < 4,
        path.bits[level].eval(z).is_bit(),
        holds_past(side_claim(c, p, iv, path, offset, level, right, lane).0, c.len(), z),
    ensures
        ({
            let (rows, terms, value) = side_claim(
                c,
                p,
                iv,
                path,
                offset,
                level,
                right,
                lane,
            );
            let slot_a = (offset + 2 * level) as nat;
            let slot = if right {
                slot_a + 1
            } else {
                slot_a
            };
            let v = path.at(z);
            let node = node_below(p, column, v.leaf, offset, level);
            let pair = child(v.bits[level], v.siblings[level], node, right);
            relation_holds(terms_at(terms, z), value.eval(z), column) <==> state_at(
                column,
                slot,
                0,
            )[lane] == mds(p.full, side_input(p, iv, column, pair, slot_a, right))[lane]
        }),
{
    broadcast use {group_lin, group_field_units};

    lemma_side_past(c, p, iv, path, offset, level, right, lane, z);
    let (rows, terms, value) = side_claim(c, p, iv, path, offset, level, right, lane);
    let row = p.full[lane];
    let slot_a = (offset + 2 * level) as nat;
    let slot = if right {
        slot_a + 1
    } else {
        slot_a
    };
    let v = path.at(z);
    let d = path.bits[level].eval(z);
    assert(v.bits[level] == d);
    let sl = path.siblings[level];
    assert(sl.len() == 2);
    let sib = v.siblings[level];
    assert(sib == evals_at(sl, z));
    assert(sib[0] == sl[0].eval(z) && sib[1] == sl[1].eval(z));
    let node = node_below(p, column, v.leaf, offset, level);
    let pair = child(d, sib, node, right);
    let own = node[0].times(row[0]).plus(node[1].times(row[1]));
    let other = sib[0].times(row[0]).plus(sib[1].times(row[1]));
    let given = pair[0].times(row[0]).plus(pair[1].times(row[1]));
    let (of_sibling, of_node) = side_weights(path.bits[level], right);
    let (ws, wn) = (of_sibling.eval(z), of_node.eval(z));
    let ivc = iv[0].times(row[2]).plus(iv[1].times(row[3]));
    let at = point_index(slot, 0, lane as nat);
    let x = column[at as int];
    assert(state_at(column, slot, 0)[lane] == x);
    assert(d == F128::zero() || d == F128::one());
    assert(F128::one().plus(F128::one()) == F128::zero());
    assert(F128::zero() != F128::one());
    assert(wn == F128::one() && ws == F128::zero() && given == own || wn == F128::zero() && ws
        == F128::one() && given == other);
    assert(pair_lin(row, sl).eval(z) == other);
    if level == 0 {
        assert(v.leaf[0] == path.leaf[0].eval(z) && v.leaf[1] == path.leaf[1].eval(z));
        assert(pair_lin(row, path.leaf).eval(z) == own);
    }
    // The terms that come before those of the node below.
    let sa = state_at(column, slot_a, p.rounds());
    let head = if right {
        crate::spine_claims::link_cells(at, point_index(slot_a, p.rounds(), 0), row)
    } else {
        seq![(at, F128::one())]
    };
    let mid = if right {
        dot(row, sa, 4)
    } else {
        F128::zero()
    };
    assert(terms_sum(head, column, head.len()) == x.plus(mid)) by {
        if right {
            crate::spine_claims::lemma_link_sum(at, slot_a, p.rounds(), row, column);
        } else {
            reveal_with_fuel(terms_sum, 2);
        }
    }
    let tv = terms_at(terms, z);
    let extra = if level == 0 {
        F128::zero()
    } else {
        wn.times(own)
    };
    assert(terms_sum(tv, column, tv.len()) == x.plus(mid).plus(extra)) by {
        if level == 0 {
            assert(tv =~= head);
        } else {
            let before = (slot_a - 1) as nat;
            let b0 = (point_index(before, p.rounds(), 0), wn.times(row[0]));
            let b1 = (point_index(before, p.rounds(), 1), wn.times(row[1]));
            assert(tv =~= head.push(b0).push(b1));
            let m = head.len();
            lemma_terms_push(head, b0, column, m);
            lemma_terms_push(head.push(b0), b1, column, m);
            lemma_terms_push(head.push(b0), b1, column, m + 1);
            let ends = state_at(column, before, p.rounds());
            assert(node[0] == ends[0] && node[1] == ends[1]);
            lemma_times_comm(row[0], node[0]);
            lemma_times_comm(row[1], node[1]);
            let (y0, y1) = (wn.times(row[0]).times(node[0]), wn.times(row[1]).times(node[1]));
            lemma_plus_assoc(x.plus(mid), y0, y1);
            assert(y0.plus(y1) == wn.times(own));
        }
    }
    let sum = value.eval(z);
    lemma_move(x, mid, extra, sum);
    let tail = if right {
        F128::zero()
    } else {
        ivc
    };
    assert(sum.plus(extra) == given.plus(tail)) by {
        lemma_plus_comm(other, ivc);
        lemma_plus_comm(own, ivc);
    }
    let raw = side_input(p, iv, column, pair, slot_a, right);
    assert(mds(p.full, raw)[lane] == mid.plus(given.plus(tail))) by {
        if right {
            lemma_dot_absorbed(row, sa, pair[0], pair[1]);
        } else {
            reveal_with_fuel(dot, 5);
            lemma_plus_assoc(given, iv[0].times(row[2]), iv[1].times(row[3]));
        }
    }
}

proof fn lemma_level_at(
    c: Seq<Row>,
    p: Permutation,
    iv: Seq<F128>,
    path: PathLins,
    offset: nat,
    n: nat,
    k: nat,
)
    requires
        k < n,
    ensures
        ({
            let c1 = level_claims(c, p, iv, path, offset, k).0;
            let (rows, t, v) = side_claim(
                c1,
                p,
                iv,
                path,
                offset,
                k as int / 8,
                k as int % 8 >= 4,
                k as int % 4,
            );
            let all = level_claims(c, p, iv, path, offset, n);
            &&& prefix(c, c1)
            &&& prefix(rows, all.0)
            &&& all.1[k as int] == t
            &&& all.2[k as int] == v
        }),
    decreases n,
{
    broadcast use lemma_prefix_trans;

    let m = (n - 1) as nat;
    let (c1, terms, values) = level_claims(c, p, iv, path, offset, m);
    lemma_level_shape(c, p, iv, path, offset, m);
    let j = m as int;
    lemma_side_past(c1, p, iv, path, offset, j / 8, j % 8 >= 4, j % 4, Seq::empty());
    if k < m {
        lemma_level_at(c, p, iv, path, offset, m, k);
    } else {
        lemma_prefix_refl(level_claims(c, p, iv, path, offset, n).0);
    }
}

/// One relation of a path whose rows hold.
proof fn lemma_path_relation(
    c: Seq<Row>,
    p: Permutation,
    iv: Seq<F128>,
    path: PathLins,
    depth: nat,
    offset: nat,
    level: int,
    right: bool,
    lane: int,
    column: Seq<F128>,
    z: Seq<F128>,
)
    requires
        path.wf(depth),
        0 <= level < depth,
        0 <= lane < 4,
        path.bits[level].eval(z).is_bit(),
        holds_past(path_claims(c, p, iv, path, offset).0, c.len(), z),
    ensures
        ({
            let k = 8 * level + lane + if right {
                4int
            } else {
                0
            };
            let (rows, terms, values) = path_claims(c, p, iv, path, offset);
            let slot_a = (offset + 2 * level) as nat;
            let slot = if right {
                slot_a + 1
            } else {
                slot_a
            };
            let v = path.at(z);
            let node = node_below(p, column, v.leaf, offset, level);
            let pair = child(v.bits[level], v.siblings[level], node, right);
            relation_holds(terms_at(terms[k], z), values[k].eval(z), column) <==> state_at(
                column,
                slot,
                0,
            )[lane] == mds(p.full, side_input(p, iv, column, pair, slot_a, right))[lane]
        }),
{
    let k = 8 * level + lane + if right {
        4int
    } else {
        0
    };
    let n = 8 * depth;
    assert(k / 8 == level && (k % 8 >= 4) == right && k % 4 == lane);
    lemma_level_at(c, p, iv, path, offset, n, k as nat);
    lemma_level_shape(c, p, iv, path, offset, n);
    let all = level_claims(c, p, iv, path, offset, n).0;
    let c1 = level_claims(c, p, iv, path, offset, k as nat).0;
    let rows = side_claim(c1, p, iv, path, offset, level, right, lane).0;
    lemma_side_past(c1, p, iv, path, offset, level, right, lane, z);
    assert(prefix(c, rows)) by {
        lemma_prefix_trans(c, c1, rows);
    }
    lemma_past_split(all, rows, c.len(), z);
    lemma_past_split(rows, c1, c.len(), z);
    lemma_side_relation(c1, p, iv, path, depth, offset, level, right, lane, column, z);
}

/// What a path's relations bind: over slots that follow the permutation, every
/// level ends on the path's node.
pub proof fn lemma_path_nodes(
    c: Seq<Row>,
    p: Permutation,
    iv: Seq<F128>,
    path: PathLins,
    depth: nat,
    offset: nat,
    level: nat,
    column: Seq<F128>,
    z: Seq<F128>,
)
    requires
        path.wf(depth),
        level <= depth,
        forall|i: int| 0 <= i < depth ==> (#[trigger] path.bits[i]).eval(z).is_bit(),
        forall|j: nat| j < 2 * depth ==> #[trigger] slot_follows(p, column, offset + j),
        holds_past(path_claims(c, p, iv, path, offset).0, c.len(), z),
        relations_hold(
            path_claims(c, p, iv, path, offset).1,
            path_claims(c, p, iv, path, offset).2,
            column,
            z,
        ),
    ensures
        node_below(p, column, path.at(z).leaf, offset, level as int) == node_at(
            p,
            iv,
            path.at(z),
            level,
        ),
    decreases level,
{
    if level > 0 {
        let l = level - 1;
        let v = path.at(z);
        lemma_path_nodes(c, p, iv, path, depth, offset, l as nat, column, z);
        let (rows, terms, values) = path_claims(c, p, iv, path, offset);
        lemma_path_shape(c, p, iv, path, offset);
        let node = node_below(p, column, v.leaf, offset, l);
        let slot_a = (offset + 2 * l) as nat;
        assert(path.bits[l].eval(z).is_bit());
        let left = child(v.bits[l], v.siblings[l], node, false);
        let right = child(v.bits[l], v.siblings[l], node, true);
        let raw_a = side_input(p, iv, column, left, slot_a, false);
        let raw_b = side_input(p, iv, column, right, slot_a, true);
        assert(state_at(column, slot_a, 0) =~= mds(p.full, raw_a)) by {
            assert forall|lane: int| 0 <= lane < 4 implies state_at(column, slot_a, 0)[lane]
                == mds(p.full, raw_a)[lane] by {
                let k = 8 * l + lane;
                assert(relation_holds(terms_at(terms[k], z), values[k].eval(z), column));
                lemma_path_relation(
                    c,
                    p,
                    iv,
                    path,
                    depth,
                    offset,
                    l,
                    false,
                    lane,
                    column,
                    z,
                );
            }
        }
        assert(state_at(column, slot_a + 1, 0) =~= mds(p.full, raw_b)) by {
            assert forall|lane: int| 0 <= lane < 4 implies state_at(column, slot_a + 1, 0)[lane]
                == mds(p.full, raw_b)[lane] by {
                let k = 8 * l + lane + 4;
                assert(relation_holds(terms_at(terms[k], z), values[k].eval(z), column));
                lemma_path_relation(c, p, iv, path, depth, offset, l, true, lane, column, z);
            }
        }
        assert(slot_follows(p, column, offset + (2 * l) as nat));
        assert(slot_follows(p, column, offset + (2 * l + 1) as nat));
        lemma_slot_permutes(p, column, slot_a, raw_a);
        lemma_slot_permutes(p, column, slot_a + 1, raw_b);
        assert(node_below(p, column, v.leaf, offset, level as int) =~= compressed(
            p,
            iv,
            left,
            right,
        ));
    }
}

/// The root that a path's relations bind is the path's root.
pub proof fn lemma_path_binds(
    c: Seq<Row>,
    p: Permutation,
    iv: Seq<F128>,
    path: PathLins,
    depth: nat,
    offset: nat,
    column: Seq<F128>,
    z: Seq<F128>,
)
    requires
        path.wf(depth),
        forall|i: int| 0 <= i < depth ==> (#[trigger] path.bits[i]).eval(z).is_bit(),
        forall|j: nat| j < 2 * depth ==> #[trigger] slot_follows(p, column, offset + j),
        holds_past(path_claims(c, p, iv, path, offset).0, c.len(), z),
        relations_hold(
            path_claims(c, p, iv, path, offset).1,
            path_claims(c, p, iv, path, offset).2,
            column,
            z,
        ),
    ensures
        path.at(z).root == node_at(p, iv, path.at(z), depth),
{
    broadcast use {group_lin, group_field_units};

    lemma_path_nodes(c, p, iv, path, depth, offset, depth, column, z);
    lemma_path_shape(c, p, iv, path, offset);
    lemma_level_shape(c, p, iv, path, offset, 8 * depth);
    let (rows, terms, values) = path_claims(c, p, iv, path, offset);
    let last = (offset + 2 * depth - 1) as nat;
    let k = 8 * depth as int;
    assert(relation_holds(terms_at(terms[k], z), values[k].eval(z), column));
    assert(relation_holds(terms_at(terms[k + 1], z), values[k + 1].eval(z), column));
    let (a0, a1) = (point_index(last, p.rounds(), 0), point_index(last, p.rounds(), 1));
    assert(terms_at(terms[k], z) =~= seq![(a0, F128::one())]);
    assert(terms_at(terms[k + 1], z) =~= seq![(a1, F128::one())]);
    reveal_with_fuel(terms_sum, 2);
    let s = state_at(column, last, p.rounds());
    assert(s[0] == column[a0 as int] && s[1] == column[a1 as int]);
    assert(path.at(z).root =~= node_below(p, column, path.at(z).leaf, offset, depth as int));
}

// ---------------------------------------------------------------------------
// In the trace
// ---------------------------------------------------------------------------

fn side_claim_trace(
    b: &mut FieldR1csBuilder,
    t: &PoseidonTables,
    circuit: &MerkleCircuit,
    input: &MerklePathInputsTrace,
    slot_offset: usize,
    level: usize,
    right: bool,
    lane: usize,
    num_vars: usize,
) -> (r: LinearEvalClaimTrace)
    requires
        old(b)@.wf(),
        t@.rounds() < 128,
        input.wf(),
        input.below(old(b)@.rows.len()),
        level < input.active_depth,
        lane < 4,
        9 <= num_vars < usize::BITS,
        slot_offset + 2 * input.active_depth <= pow2((num_vars - 9) as nat),
        pow2((num_vars - 9) as nat) <= usize::MAX,
    ensures
        computed(old(b)@, final(b)@),
        (final(b)@.rows, term_views(r.terms@), r.value@) == side_claim(
            old(b)@.rows,
            t@,
            circuit.iv@,
            input@,
            slot_offset as nat,
            level as int,
            right,
            lane as int,
        ),
        claim_below(r, final(b)@.rows.len()),
{
    let ghost p = t@;
    let ghost m = b@.rows.len();
    let row = &t.mds_full[lane];
    let rounds: usize = t.rc.len();
    proof {
        assert(p.full[lane as int] == row@);
        lemma_below_at(input.direction_bits@, m, level as int);
        assert(all_below(lins(input.siblings@[level as int]@), m));
    }
    let d = &input.direction_bits[level];
    let not_d = d.add_const(F128::one());
    let slot_a: usize = slot_offset + 2 * level;
    let sibling = mds_pair(row, &input.siblings[level]);
    let product = if right {
        times(b, &not_d, &sibling)
    } else {
        times(b, d, &sibling)
    };
    let mut value = if right {
        product
    } else {
        product.add_const(circuit.iv[0].mul(row[2]).add(circuit.iv[1].mul(row[3])))
    };
    let mut terms: Vec<LinearEvalTermTrace> = Vec::new();
    let one = LinExpr::constant(F128::one());
    if right {
        terms.push(state_term(num_vars, slot_a + 1, 0, lane, one));
        terms.push(state_term(num_vars, slot_a, rounds, 0, LinExpr::constant(row[0])));
        terms.push(state_term(num_vars, slot_a, rounds, 1, LinExpr::constant(row[1])));
        terms.push(state_term(num_vars, slot_a, rounds, 2, LinExpr::constant(row[2])));
        terms.push(state_term(num_vars, slot_a, rounds, 3, LinExpr::constant(row[3])));
    } else {
        terms.push(state_term(num_vars, slot_a, 0, lane, one));
    }
    assert(terms_below(terms@, b@.rows.len()));
    let node = if right {
        d
    } else {
        &not_d
    };
    if level == 0 {
        let leaf = mds_pair(row, &input.leaf);
        let product = times(b, node, &leaf);
        value = value.add(&product);
    } else {
        terms.push(state_term(num_vars, slot_a - 1, rounds, 0, node.scale(row[0])));
        terms.push(state_term(num_vars, slot_a - 1, rounds, 1, node.scale(row[1])));
    }
    proof {
        let want = side_claim(
            old(b)@.rows,
            p,
            circuit.iv@,
            input@,
            slot_offset as nat,
            level as int,
            right,
            lane as int,
        );
        assert(input@.siblings[level as int] == lins(input.siblings@[level as int]@));
        assert(term_views(terms@) =~= want.1);
        assert(value@ == want.2);
    }
    LinearEvalClaimTrace { terms, value }
}

/// Appends the relations of a path whose slots start at an offset.
pub fn append_path_chain_claims_trace(
    b: &mut FieldR1csBuilder,
    t: &PoseidonTables,
    circuit: &MerkleCircuit,
    input: &MerklePathInputsTrace,
    slot_offset: usize,
    num_vars: usize,
    claims: &mut Vec<LinearEvalClaimTrace>,
)
    requires
        old(b)@.wf(),
        t@.rounds() < 128,
        input.wf(),
        input.below(old(b)@.rows.len()),
        9 <= num_vars < usize::BITS,
        slot_offset + 2 * input.active_depth <= pow2((num_vars - 9) as nat),
        pow2((num_vars - 9) as nat) <= usize::MAX,
        linear_ok(old(claims)@, old(b)@.rows.len()),
    ensures
        computed(old(b)@, final(b)@),
        ({
            let (rows, terms, values) = path_claims(
                old(b)@.rows,
                t@,
                circuit.iv@,
                input@,
                slot_offset as nat,
            );
            &&& final(b)@.rows == rows
            &&& linear_terms(final(claims)@) == linear_terms(old(claims)@) + terms
            &&& linear_values(final(claims)@) == linear_values(old(claims)@) + values
        }),
        linear_ok(final(claims)@, final(b)@.rows.len()),
{
    let ghost p = t@;
    let ghost iv = circuit.iv@;
    let ghost path = input@;
    let ghost off = slot_offset as nat;
    let ghost b0 = b@;
    let ghost before = claims@;
    let ghost start = claims@.len();
    let depth: usize = input.active_depth;
    let mut level: usize = 0;
    proof {
        lemma_computed_refl(b0);
        assert(linear_terms(claims@) =~= linear_terms(before) + Seq::<Seq<(nat, Lin)>>::empty());
        assert(linear_values(claims@) =~= linear_values(before) + Seq::<Lin>::empty());
    }
    while level < depth
        invariant
            level <= depth,
            depth == input.active_depth,
            p == t@,
            iv == circuit.iv@,
            path == input@,
            off == slot_offset,
            p.rounds() < 128,
            input.wf(),
            input.below(b0.rows.len()),
            9 <= num_vars < usize::BITS,
            slot_offset + 2 * depth <= pow2((num_vars - 9) as nat),
            pow2((num_vars - 9) as nat) <= usize::MAX,
            b@.wf(),
            computed(b0, b@),
            linear_ok(claims@, b@.rows.len()),
            b@.rows == level_claims(b0.rows, p, iv, path, off, (8 * level) as nat).0,
            linear_terms(claims@) == linear_terms(before) + level_claims(
                b0.rows,
                p,
                iv,
                path,
                off,
                (8 * level) as nat,
            ).1,
            linear_values(claims@) == linear_values(before) + level_claims(
                b0.rows,
                p,
                iv,
                path,
                off,
                (8 * level) as nat,
            ).2,
        decreases depth - level,
    {
        let mut k: usize = 0;
        while k < 8
            invariant
                k <= 8,
                level < depth,
                depth == input.active_depth,
                p == t@,
                iv == circuit.iv@,
                path == input@,
                off == slot_offset,
                p.rounds() < 128,
                input.wf(),
                input.below(b0.rows.len()),
                9 <= num_vars < usize::BITS,
                slot_offset + 2 * depth <= pow2((num_vars - 9) as nat),
                pow2((num_vars - 9) as nat) <= usize::MAX,
                b@.wf(),
                computed(b0, b@),
                linear_ok(claims@, b@.rows.len()),
                b@.rows == level_claims(b0.rows, p, iv, path, off, (8 * level + k) as nat).0,
                linear_terms(claims@) == linear_terms(before) + level_claims(
                    b0.rows,
                    p,
                    iv,
                    path,
                    off,
                    (8 * level + k) as nat,
                ).1,
                linear_values(claims@) == linear_values(before) + level_claims(
                    b0.rows,
                    p,
                    iv,
                    path,
                    off,
                    (8 * level + k) as nat,
                ).2,
            decreases 8 - k,
        {
            let ghost so_far = claims@;
            let ghost n = (8 * level + k) as nat;
            let ghost m = b@.rows.len();
            proof {
                lemma_input_grow(input, b0.rows.len(), m);
                assert(n as int / 8 == level && (n as int % 8 >= 4) == (k >= 4) && n as int % 4
                    == k as int % 4);
            }
            let c = side_claim_trace(
                b,
                t,
                circuit,
                input,
                slot_offset,
                level,
                k >= 4,
                k % 4,
                num_vars,
            );
            claims.push(c);
            proof {
                let (rows, terms, values) = level_claims(b0.rows, p, iv, path, off, n + 1);
                assert(linear_terms(claims@) =~= linear_terms(before) + terms) by {
                    assert(linear_terms(claims@) =~= linear_terms(so_far).push(
                        term_views(c.terms@),
                    ));
                }
                assert(linear_values(claims@) =~= linear_values(before) + values) by {
                    assert(linear_values(claims@) =~= linear_values(so_far).push(c.value@));
                }
                lemma_claims_push(so_far, c, m, b@.rows.len());
            }
            k += 1;
        }
        level += 1;
    }
    let last: usize = slot_offset + 2 * depth - 1;
    let rounds: usize = t.rc.len();
    let ghost n = (8 * depth) as nat;
    let ghost so_far = claims@;
    let mut first: Vec<LinearEvalTermTrace> = Vec::new();
    first.push(state_term(num_vars, last, rounds, 0, LinExpr::constant(F128::one())));
    let c0 = LinearEvalClaimTrace { terms: first, value: input.expected_root[0].dup() };
    let mut second: Vec<LinearEvalTermTrace> = Vec::new();
    second.push(state_term(num_vars, last, rounds, 1, LinExpr::constant(F128::one())));
    let c1 = LinearEvalClaimTrace { terms: second, value: input.expected_root[1].dup() };
    claims.push(c0);
    let ghost middle = claims@;
    claims.push(c1);
    proof {
        let (rows, terms, values) = path_claims(b0.rows, p, iv, path, off);
        lemma_level_shape(b0.rows, p, iv, path, off, n);
        assert(term_views(first@) =~= terms[n as int]);
        assert(term_views(second@) =~= terms[n as int + 1]);
        assert(linear_terms(claims@) =~= linear_terms(before) + terms) by {
            assert(linear_terms(claims@) =~= linear_terms(so_far).push(term_views(first@)).push(
                term_views(second@),
            ));
        }
        assert(linear_values(claims@) =~= linear_values(before) + values) by {
            assert(linear_values(claims@) =~= linear_values(so_far).push(c0.value@).push(
                c1.value@,
            ));
        }
        assert(path.root[0].below(b0.rows.len()) && path.root[1].below(b0.rows.len()));
        lemma_claims_push(so_far, c0, b@.rows.len(), b@.rows.len());
        lemma_claims_push(middle, c1, b@.rows.len(), b@.rows.len());
    }
}

pub proof fn lemma_input_grow(input: &MerklePathInputsTrace, m: nat, n: nat)
    requires
        input.below(m),
        m <= n,
    ensures
        input.below(n),
{
    crate::eval_gadgets::lemma_below_grow(lins(input.leaf@), m, n);
    crate::eval_gadgets::lemma_below_grow(lins(input.direction_bits@), m, n);
    crate::eval_gadgets::lemma_below_grow(lins(input.expected_root@), m, n);
    crate::spine_claims::lemma_blocks_grow(input.siblings@, m, n);
}

/// A claim joins others as the circuit grows.
pub proof fn lemma_claims_push(
    claims: Seq<LinearEvalClaimTrace>,
    c: LinearEvalClaimTrace,
    m: nat,
    n: nat,
)
    requires
        linear_ok(claims, m),
        m <= n,
        claim_below(c, n),
    ensures
        linear_ok(claims.push(c), n),
{
    let all = claims.push(c);
    assert forall|i: int| 0 <= i < all.len() implies terms_below((#[trigger] all[i]).terms@, n)
        && all[i].value@.below(n) by {
        if i < claims.len() {
            assert(all[i] == claims[i]);
            assert(terms_below(claims[i].terms@, m));
            assert forall|j: int| 0 <= j < claims[i].terms@.len() implies (
            #[trigger] claims[i].terms@[j]).coeff@.below(n) by {
                assert(claims[i].terms@[j].coeff@.below(m));
            }
        }
    }
}

} // verus!
