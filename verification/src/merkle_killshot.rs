//! The verifier of a batch of paths, and the replay of their slots.

use vstd::prelude::*;
use vstd::arithmetic::power2::pow2;
use crate::batch_eval::{
    linear_ok, linear_terms, linear_values, reversed, BatchEvalReductionTrace, LinearEvalClaimTrace,
    LinearEvalProofTrace, MultiBatchEvalProofTrace,
};
use crate::bits::{weighted, weighted_sum};
use crate::block_spine::{tensors_of, BlockSpineUnifiedProofTrace};
use crate::channel::{
    drew, kept, lemma_drew_kept, lemma_drew_step, lemma_drew_trans, tape, Op, RawChannelTrace, Tape,
};
use crate::circuit::{
    all_below, group_circuit, group_lin, lemma_prefix_refl, lemma_prefix_trans, lins, mul_rows,
    pin_rows, prefix, sat, Circuit, FieldR1csBuilder, Lin, LinExpr, Row,
};
use crate::eval_gadgets::lemma_below_at;
use crate::field::{group_field_units, lemma_plus_is_zero, F128};
use crate::gadget::{
    all_zero, binds, computed, enforces, extended, holds_past, lemma_binds_grow, lemma_binds_none,
    lemma_computed_refl, lemma_computed_trans, lemma_enforces, lemma_mul_past, lemma_past_split,
    lemma_pinned_computed, lemma_pinned_none, pinned, times,
};
use crate::merkle_path::{
    append_path_chain_claims_trace, lemma_path_shape, node_at, path_claims, MerkleCircuit,
    MerklePathInputsTrace, PathLins, PathValues,
};
use crate::multilinear::evals_at;
use crate::permutation_network::row_eval;
use crate::poseidon::{compressed, permuted, state_lins, Permutation, PoseidonTables};
use crate::spine_claims::absorbed;
use crate::spine_columns::{point_tensors, ColumnAccumulator, ColumnSums, PointTensors};
use crate::spine_family::{
    close_spine_family, family_checked, family_lins, family_ok, family_run, lemma_family_keeps,
    lemma_family_sound, lemma_family_verified, open_spine_family, opening_tape, FamilyLins,
    FamilyRun, SpineTags,
};
use crate::spine_replay::{
    accumulates, at_tensors, close_replay, closed_pins, closing_rows, columns_equal, columns_of,
    lemma_closed_pins, lemma_equal_push, lemma_replay_grow, no_sums, pin_equal, raws_at,
    reduction_values, replay_rows, replay_slot, replaying, start_replay, Replay,
};
use crate::spine_shift::BlockSpineShiftProofTrace;

verus! {

broadcast use {group_circuit, lemma_computed_trans};

// ---------------------------------------------------------------------------
// The statement
// ---------------------------------------------------------------------------

pub open spec fn constant_op(value: nat) -> Op {
    Op::Absorb(Lin::constant(F128::of_nat(value)))
}

/// The operations that absorb the first `n` siblings.
pub open spec fn sibling_ops(siblings: Seq<Seq<Lin>>, n: nat) -> Seq<Op>
    decreases n,
{
    if n == 0 {
        Seq::empty()
    } else {
        sibling_ops(siblings, (n - 1) as nat).push(Op::Absorb(siblings[n - 1][0])).push(
            Op::Absorb(siblings[n - 1][1]),
        )
    }
}

/// The operations that absorb a path: its depth, root, leaf and siblings, and its
/// directions as one integer.
pub open spec fn path_ops(path: PathLins) -> Seq<Op> {
    (seq![
        constant_op(path.bits.len()),
        Op::Absorb(path.root[0]),
        Op::Absorb(path.root[1]),
        Op::Absorb(path.leaf[0]),
        Op::Absorb(path.leaf[1]),
    ] + sibling_ops(path.siblings, path.bits.len())).push(Op::Absorb(weighted(path.bits, 0)))
}

pub open spec fn path_views(inputs: Seq<MerklePathInputsTrace>) -> Seq<PathLins> {
    Seq::new(inputs.len(), |i: int| inputs[i]@)
}

/// The operations that absorb the first `n` paths.
pub open spec fn paths_ops(paths: Seq<PathLins>, n: nat) -> Seq<Op>
    decreases n,
{
    if n == 0 {
        Seq::empty()
    } else {
        paths_ops(paths, (n - 1) as nat) + path_ops(paths[n - 1])
    }
}

/// The operations that absorb a batch.
pub open spec fn statement_ops(paths: Seq<PathLins>, tag: nat) -> Seq<Op> {
    seq![constant_op(paths.len()), constant_op(tag)] + paths_ops(paths, paths.len())
}

fn absorb_path(ch: &mut RawChannelTrace, input: &MerklePathInputsTrace)
    requires
        input.wf(),
        input.active_depth <= 128,
    ensures
        final(ch)@ == old(ch)@ + path_ops(input@),
        kept(*old(ch), *final(ch)),
{
    let ghost path = input@;
    let ghost o = ch@;
    ch.absorb_const_tower(input.active_depth as u128);
    ch.absorb(&input.expected_root[0]);
    ch.absorb(&input.expected_root[1]);
    ch.absorb(&input.leaf[0]);
    ch.absorb(&input.leaf[1]);
    let ghost head = seq![
        constant_op(path.bits.len()),
        Op::Absorb(path.root[0]),
        Op::Absorb(path.root[1]),
        Op::Absorb(path.leaf[0]),
        Op::Absorb(path.leaf[1]),
    ];
    let mut level: usize = 0;
    assert(ch@ =~= o + head + sibling_ops(path.siblings, 0));
    while level < input.active_depth
        invariant
            level <= input.active_depth,
            input.wf(),
            path == input@,
            ch@ == o + head + sibling_ops(path.siblings, level as nat),
            kept(*old(ch), *ch),
        decreases input.active_depth - level,
    {
        assert(path.siblings[level as int] == lins(input.siblings@[level as int]@));
        ch.absorb(&input.siblings[level][0]);
        ch.absorb(&input.siblings[level][1]);
        level += 1;
        assert(ch@ =~= o + head + sibling_ops(path.siblings, level as nat));
    }
    let directions = weighted_sum(&input.direction_bits, 0);
    ch.absorb(&directions);
    assert(ch@ =~= o + path_ops(path));
}

/// Absorbs a batch.
fn absorb_public_batch_trace(
    ch: &mut RawChannelTrace,
    circuit: &MerkleCircuit,
    inputs: &Vec<MerklePathInputsTrace>,
)
    requires
        forall|i: int| 0 <= i < inputs@.len() ==> (#[trigger] inputs@[i]).wf(),
        forall|i: int| 0 <= i < inputs@.len() ==> (#[trigger] inputs@[i]).active_depth <= 128,
    ensures
        final(ch)@ == old(ch)@ + statement_ops(path_views(inputs@), circuit.node_tag as nat),
        kept(*old(ch), *final(ch)),
{
    let ghost o = ch@;
    let ghost paths = path_views(inputs@);
    ch.absorb_const_tower(inputs.len() as u128);
    ch.absorb_const_tower(circuit.node_tag as u128);
    let ghost head = seq![constant_op(paths.len()), constant_op(circuit.node_tag as nat)];
    let mut i: usize = 0;
    assert(ch@ =~= o + head + paths_ops(paths, 0));
    while i < inputs.len()
        invariant
            i <= inputs@.len(),
            forall|k: int| 0 <= k < inputs@.len() ==> (#[trigger] inputs@[k]).wf(),
            forall|k: int| 0 <= k < inputs@.len() ==> (#[trigger] inputs@[k]).active_depth <= 128,
            paths == path_views(inputs@),
            ch@ == o + head + paths_ops(paths, i as nat),
            kept(*old(ch), *ch),
        decreases inputs@.len() - i,
    {
        absorb_path(ch, &inputs[i]);
        i += 1;
        assert(ch@ =~= o + head + paths_ops(paths, i as nat));
    }
    assert(ch@ =~= o + statement_ops(paths, circuit.node_tag as nat));
}

// ---------------------------------------------------------------------------
// The relations of a batch
// ---------------------------------------------------------------------------

/// The slots of the first `n` paths.
pub open spec fn path_slots(paths: Seq<PathLins>, n: nat) -> nat
    decreases n,
{
    if n == 0 {
        0
    } else {
        path_slots(paths, (n - 1) as nat) + 2 * paths[n - 1].bits.len()
    }
}

/// The relations of the first `n` paths, slot after slot.
pub open spec fn batch_claims(
    c: Seq<Row>,
    p: Permutation,
    iv: Seq<F128>,
    paths: Seq<PathLins>,
    n: nat,
) -> (Seq<Row>, Seq<Seq<(nat, Lin)>>, Seq<Lin>)
    decreases n,
{
    if n == 0 {
        (c, Seq::empty(), Seq::empty())
    } else {
        let m = (n - 1) as nat;
        let (c1, terms, values) = batch_claims(c, p, iv, paths, m);
        let (c2, t, v) = path_claims(c1, p, iv, paths[n - 1], path_slots(paths, m));
        (c2, terms + t, values + v)
    }
}

pub proof fn lemma_batch_shape(
    c: Seq<Row>,
    p: Permutation,
    iv: Seq<F128>,
    paths: Seq<PathLins>,
    n: nat,
)
    ensures
        prefix(c, batch_claims(c, p, iv, paths, n).0),
        batch_claims(c, p, iv, paths, n).1.len() == batch_claims(c, p, iv, paths, n).2.len(),
        n > 0 ==> batch_claims(c, p, iv, paths, n).2.len() > 0,
    decreases n,
{
    broadcast use lemma_prefix_trans;

    if n == 0 {
        lemma_prefix_refl(c);
    } else {
        let m = (n - 1) as nat;
        lemma_batch_shape(c, p, iv, paths, m);
        lemma_path_shape(
            batch_claims(c, p, iv, paths, m).0,
            p,
            iv,
            paths[n - 1],
            path_slots(paths, m),
        );
    }
}

proof fn lemma_slots_grow(paths: Seq<PathLins>, m: nat, n: nat)
    requires
        m <= n,
    ensures
        path_slots(paths, m) <= path_slots(paths, n),
    decreases n,
{
    if m < n {
        lemma_slots_grow(paths, m, (n - 1) as nat);
    }
}

/// Every path is in shape and refers to wires below `n`.
pub open spec fn paths_ok(inputs: Seq<MerklePathInputsTrace>, n: nat) -> bool {
    forall|i: int|
        0 <= i < inputs.len() ==> (#[trigger] inputs[i]).wf() && inputs[i].active_depth <= 128
            && inputs[i].below(n)
}

proof fn lemma_paths_grow(inputs: Seq<MerklePathInputsTrace>, m: nat, n: nat)
    requires
        paths_ok(inputs, m),
        m <= n,
    ensures
        paths_ok(inputs, n),
{
    assert forall|i: int| 0 <= i < inputs.len() implies (#[trigger] inputs[i]).wf()
        && inputs[i].active_depth <= 128 && inputs[i].below(n) by {
        crate::merkle_path::lemma_input_grow(&inputs[i], m, n);
    }
}

fn batch_claims_trace(
    b: &mut FieldR1csBuilder,
    t: &PoseidonTables,
    circuit: &MerkleCircuit,
    inputs: &Vec<MerklePathInputsTrace>,
    num_vars: usize,
) -> (r: Vec<LinearEvalClaimTrace>)
    requires
        old(b)@.wf(),
        t@.rounds() < 128,
        paths_ok(inputs@, old(b)@.rows.len()),
        9 <= num_vars < usize::BITS,
        path_slots(path_views(inputs@), inputs@.len()) <= pow2((num_vars - 9) as nat),
        pow2((num_vars - 9) as nat) <= usize::MAX,
    ensures
        computed(old(b)@, final(b)@),
        (final(b)@.rows, linear_terms(r@), linear_values(r@)) == batch_claims(
            old(b)@.rows,
            t@,
            circuit.iv@,
            path_views(inputs@),
            inputs@.len(),
        ),
        linear_ok(r@, final(b)@.rows.len()),
{
    let ghost p = t@;
    let ghost iv = circuit.iv@;
    let ghost b0 = b@;
    let ghost paths = path_views(inputs@);
    let mut claims: Vec<LinearEvalClaimTrace> = Vec::new();
    let mut offset: usize = 0;
    let mut i: usize = 0;
    proof {
        lemma_computed_refl(b0);
        assert(linear_terms(claims@) =~= Seq::empty());
        assert(linear_values(claims@) =~= Seq::empty());
    }
    while i < inputs.len()
        invariant
            i <= inputs@.len(),
            p == t@,
            iv == circuit.iv@,
            p.rounds() < 128,
            paths == path_views(inputs@),
            paths_ok(inputs@, b0.rows.len()),
            9 <= num_vars < usize::BITS,
            path_slots(paths, inputs@.len()) <= pow2((num_vars - 9) as nat),
            pow2((num_vars - 9) as nat) <= usize::MAX,
            offset == path_slots(paths, i as nat),
            b@.wf(),
            computed(b0, b@),
            (b@.rows, linear_terms(claims@), linear_values(claims@)) == batch_claims(
                b0.rows,
                p,
                iv,
                paths,
                i as nat,
            ),
            linear_ok(claims@, b@.rows.len()),
        decreases inputs@.len() - i,
    {
        proof {
            lemma_paths_grow(inputs@, b0.rows.len(), b@.rows.len());
            lemma_slots_grow(paths, (i + 1) as nat, inputs@.len());
            assert(inputs@[i as int].wf());
            assert(paths[i as int].bits.len() == inputs@[i as int].active_depth);
        }
        append_path_chain_claims_trace(b, t, circuit, &inputs[i], offset, num_vars, &mut claims);
        offset = offset + 2 * inputs[i].active_depth;
        i += 1;
    }
    claims
}

// ---------------------------------------------------------------------------
// The verifier
// ---------------------------------------------------------------------------

/// A proof of a batch of paths.
#[derive(Debug)]
pub struct BatchedMerkleProofTrace {
    pub main: BlockSpineUnifiedProofTrace,
    pub shift: BlockSpineShiftProofTrace,
    pub chain: LinearEvalProofTrace,
    pub batch: MultiBatchEvalProofTrace,
    pub n_paths: usize,
    pub num_vars: usize,
    pub live_slots: usize,
}

impl BatchedMerkleProofTrace {
    /// The wires of the proof.
    pub open spec fn family(&self) -> FamilyLins {
        family_lins(&self.main, &self.shift, &self.chain, &self.batch)
    }

    /// The parts are over the proof's variables and refer to wires below `n`.
    pub open spec fn wf(&self, n: nat) -> bool {
        &&& crate::spine_family::proof_ok(
            &self.main,
            &self.shift,
            &self.chain,
            &self.batch,
            self.num_vars as nat,
            n,
        )
        &&& self.live_slots <= pow2((self.num_vars - 9) as nat)
    }
}

/// The run of the verifier over given paths, on rows and operations that precede
/// it.
#[verifier::opaque]
pub open spec fn paths_run(
    rows: Seq<Row>,
    ops: Seq<Op>,
    p: Permutation,
    circuit: MerkleCircuit,
    f: FamilyLins,
    paths: Seq<PathLins>,
    tags: SpineTags,
) -> FamilyRun {
    let start = Tape { rows, ops: ops + statement_ops(paths, circuit.node_tag as nat) };
    let live = path_slots(paths, paths.len());
    let (mid, terms, values) = batch_claims(
        opening_tape(start, p, live, f).rows,
        p,
        circuit.iv@,
        paths,
        paths.len(),
    );
    family_run(start, p, live, f, mid, terms, values, tags)
}

/// The verifier's four sumchecks hold under given values.
#[verifier::opaque]
pub open spec fn paths_checked(
    rows: Seq<Row>,
    ops: Seq<Op>,
    p: Permutation,
    circuit: MerkleCircuit,
    f: FamilyLins,
    paths: Seq<PathLins>,
    tags: SpineTags,
    z: Seq<F128>,
) -> bool {
    let start = Tape { rows, ops: ops + statement_ops(paths, circuit.node_tag as nat) };
    let live = path_slots(paths, paths.len());
    let (mid, terms, values) = batch_claims(
        opening_tape(start, p, live, f).rows,
        p,
        circuit.iv@,
        paths,
        paths.len(),
    );
    family_checked(
        family_run(start, p, live, f, mid, terms, values, tags),
        p,
        live,
        f,
        terms,
        values,
        z,
    )
}

/// Soundness: whoever satisfies the verifier's rows has made its sumchecks.
proof fn lemma_paths_sound(
    rows: Seq<Row>,
    ops: Seq<Op>,
    p: Permutation,
    circuit: MerkleCircuit,
    f: FamilyLins,
    paths: Seq<PathLins>,
    n: nat,
    tags: SpineTags,
)
    requires
        family_ok(f, n),
        p.rounds() < 128,
        path_slots(paths, paths.len()) <= pow2((n - 9) as nat),
    ensures
        forall|z: Seq<F128>| #[trigger]
            sat(paths_run(rows, ops, p, circuit, f, paths, tags).multi.tape.rows, z) ==> sat(
                rows,
                z,
            ) && paths_checked(rows, ops, p, circuit, f, paths, tags, z),
{
    reveal(paths_run);
    reveal(paths_checked);
    let start = Tape { rows, ops: ops + statement_ops(paths, circuit.node_tag as nat) };
    let live = path_slots(paths, paths.len());
    let opened = opening_tape(start, p, live, f).rows;
    let (mid, terms, values) = batch_claims(opened, p, circuit.iv@, paths, paths.len());
    lemma_batch_shape(opened, p, circuit.iv@, paths, paths.len());
    assert forall|z: Seq<F128>| #[trigger]
        sat(paths_run(rows, ops, p, circuit, f, paths, tags).multi.tape.rows, z) implies sat(
        rows,
        z,
    ) && paths_checked(rows, ops, p, circuit, f, paths, tags, z) by {
        lemma_family_sound(start, p, live, f, n, mid, terms, values, tags, z);
    }
}

/// What the sumchecks say does not change with the rows that follow them.
pub proof fn lemma_paths_checked_keep(
    before: Circuit,
    verified: Circuit,
    after: Circuit,
    ops: Seq<Op>,
    p: Permutation,
    circuit: MerkleCircuit,
    f: FamilyLins,
    paths: Seq<PathLins>,
    n: nat,
    tags: SpineTags,
)
    requires
        family_ok(f, n),
        p.rounds() < 128,
        path_slots(paths, paths.len()) <= pow2((n - 9) as nat),
        extended(verified, after),
        verified.rows == paths_run(
            before.rows,
            ops,
            p,
            circuit,
            f,
            paths,
            tags,
        ).multi.tape.rows,
        pinned(
            before,
            verified,
            paths_run(before.rows, ops, p, circuit, f, paths, tags).pins,
        ),
    ensures
        paths_checked(before.rows, ops, p, circuit, f, paths, tags, after.values)
            == paths_checked(before.rows, ops, p, circuit, f, paths, tags, verified.values),
{
    reveal(paths_run);
    reveal(paths_checked);
    let start = Tape {
        rows: before.rows,
        ops: ops + statement_ops(paths, circuit.node_tag as nat),
    };
    let live = path_slots(paths, paths.len());
    let opened = opening_tape(start, p, live, f).rows;
    let (mid, terms, values) = batch_claims(opened, p, circuit.iv@, paths, paths.len());
    lemma_batch_shape(opened, p, circuit.iv@, paths, paths.len());
    lemma_family_keeps(
        before,
        verified,
        after,
        start,
        p,
        live,
        f,
        n,
        mid,
        terms,
        values,
        tags,
    );
}

/// Verifies a batch of paths: absorbs it, opens the spine, binds the paths'
/// relations and closes on one point of each column.
#[verifier::rlimit(40)]
pub fn verify_batched_merkle_killshot_trace(
    b: &mut FieldR1csBuilder,
    ch: &mut RawChannelTrace,
    t: &PoseidonTables,
    circuit: &MerkleCircuit,
    proof: &BatchedMerkleProofTrace,
    inputs: &Vec<MerklePathInputsTrace>,
    tags: SpineTags,
) -> (r: [BatchEvalReductionTrace; 3])
    requires
        old(b)@.wf(),
        t@.rounds() < 128,
        inputs@.len() > 0,
        proof.n_paths == inputs@.len(),
        proof.wf(old(b)@.rows.len()),
        paths_ok(inputs@, old(b)@.rows.len()),
        proof.live_slots == path_slots(path_views(inputs@), inputs@.len()),
    ensures
        ({
            let (p, f, paths) = (t@, proof.family(), path_views(inputs@));
            let (rows, ops) = (old(b)@.rows, old(ch)@);
            let run = paths_run(rows, ops, p, *circuit, f, paths, tags);
            &&& tape(*final(b), *final(ch)) == run.multi.tape
            &&& pinned(old(b)@, final(b)@, run.pins)
            &&& enforces(
                old(b)@,
                final(b)@,
                |z: Seq<F128>| paths_checked(rows, ops, p, *circuit, f, paths, tags, z),
            )
            &&& forall|i: int|
                0 <= i < 3 ==> lins((#[trigger] r[i]).point@) == reversed(run.multi.challenges)
                    && r[i].value@ == proof.batch.b_finals@[i]@
        }),
        final(b)@.grows(old(b)@),
        forall|i: int|
            0 <= i < 3 ==> (#[trigger] r[i]).fits(proof.num_vars as nat, final(b)@.rows.len()),
        drew(old(b)@, *old(ch), final(b)@, *final(ch)),
{
    let ghost (b0, ch0) = (b@, *ch);
    let ghost m = b0.rows.len();
    let ghost p = t@;
    let ghost paths = path_views(inputs@);
    let ghost f = family_lins(&proof.main, &proof.shift, &proof.chain, &proof.batch);
    let ghost o = ch@;
    let num_vars: usize = proof.num_vars;
    absorb_public_batch_trace(ch, circuit, inputs);
    let ghost start = tape(*b, *ch);
    let ghost ch1 = *ch;
    let (main_red, shift_red) = open_spine_family(
        b,
        ch,
        t,
        &proof.main,
        &proof.shift,
        num_vars,
        proof.live_slots,
    );
    let ghost (b1, ch2) = (b@, *ch);
    let ghost opened = opening_tape(start, p, proof.live_slots as nat, f);
    proof {
        assert(tape(*b, *ch) == opened);
        lemma_paths_grow(inputs@, m, b1.rows.len());
    }
    let claims = batch_claims_trace(b, t, circuit, inputs, num_vars);
    let ghost b2 = b@;
    let ghost (mid, terms, values) = batch_claims(b1.rows, p, circuit.iv@, paths, paths.len());
    proof {
        lemma_batch_shape(b1.rows, p, circuit.iv@, paths, paths.len());
        crate::spine_family::lemma_reductions_grow(&main_red, &shift_red, b1.rows.len(), b2.rows.len());
        crate::spine_family::lemma_proof_grow(
            &proof.main,
            &proof.shift,
            &proof.chain,
            &proof.batch,
            num_vars as nat,
            m,
            b2.rows.len(),
        );
    }
    let r = close_spine_family(
        b,
        ch,
        &main_red,
        &shift_red,
        &proof.chain,
        &proof.batch,
        &claims,
        num_vars,
        tags,
    );
    proof {
        let live = proof.live_slots as nat;
        crate::spine_family::lemma_proof_family(
            &proof.main,
            &proof.shift,
            &proof.chain,
            &proof.batch,
            num_vars as nat,
            m,
        );
        assert(opened.on(mid) == Tape { rows: b2.rows, ops: opened.ops });
        lemma_family_verified(
            b0,
            b1,
            b2,
            b@,
            start,
            p,
            live,
            f,
            num_vars as nat,
            terms,
            values,
            tags,
        );
        lemma_drew_kept(b0, ch0, b0, ch0);
        lemma_drew_step(b0, ch0, b0, ch0, b0, ch1, b1, ch2, b2);
        lemma_drew_trans(b0, ch0, b2, ch2, b@, *ch);
        reveal(paths_run);
        lemma_paths_sound(
            b0.rows,
            o,
            p,
            *circuit,
            f,
            paths,
            num_vars as nat,
            tags,
        );
        let checked = |z: Seq<F128>|
            paths_checked(b0.rows, o, p, *circuit, f, paths, tags, z);
        reveal(paths_checked);
        assert(checked(b@.values) == paths_checked(
            b0.rows,
            o,
            p,
            *circuit,
            f,
            paths,
            tags,
            b@.values,
        ));
        let run = paths_run(b0.rows, o, p, *circuit, f, paths, tags);
        assert(b@.rows == run.multi.tape.rows);
        assert forall|z: Seq<F128>| #[trigger] sat(b@.rows, z) implies sat(b0.rows, z) && checked(
            z,
        ) by {
            assert(sat(run.multi.tape.rows, z));
        }
    }
    r
}

// ---------------------------------------------------------------------------
// The replay
// ---------------------------------------------------------------------------

/// The left or right child that a direction selects, one product a lane.
pub open spec fn selected(d: F128, node: Seq<F128>, sibling: Seq<F128>, right: bool) -> Seq<F128> {
    Seq::new(
        2,
        |k: int|
            (if right {
                sibling[k]
            } else {
                node[k]
            }).plus(d.times(node[k].plus(sibling[k]))),
    )
}

/// The node at a level, by selected children.
pub open spec fn replayed_node(p: Permutation, iv: Seq<F128>, v: PathValues, level: nat) -> Seq<F128>
    decreases level,
{
    if level == 0 {
        v.leaf
    } else {
        let l = level - 1;
        let node = replayed_node(p, iv, v, l as nat);
        compressed(
            p,
            iv,
            selected(v.bits[l], node, v.siblings[l], false),
            selected(v.bits[l], node, v.siblings[l], true),
        )
    }
}

/// Where the directions are bits, the selected children make the path's nodes.
pub proof fn lemma_replayed_node(p: Permutation, iv: Seq<F128>, v: PathValues, level: nat)
    requires
        v.leaf.len() == 2,
        level <= v.bits.len(),
        level <= v.siblings.len(),
        forall|i: int| 0 <= i < level ==> (#[trigger] v.bits[i]).is_bit(),
        forall|i: int| 0 <= i < level ==> (#[trigger] v.siblings[i]).len() == 2,
    ensures
        replayed_node(p, iv, v, level) == node_at(p, iv, v, level),
        node_at(p, iv, v, level).len() == 2,
    decreases level,
{
    broadcast use {group_field_units, lemma_plus_is_zero};

    if level > 0 {
        let l = level - 1;
        lemma_replayed_node(p, iv, v, l as nat);
        let node = node_at(p, iv, v, l as nat);
        let (d, s) = (v.bits[l], v.siblings[l]);
        assert(d.is_bit() && s.len() == 2);
        crate::field::lemma_plus_comm(node[0], s[0]);
        crate::field::lemma_plus_comm(node[1], s[1]);
        assert(F128::zero() != F128::one());
        if d == F128::one() {
            assert(selected(d, node, s, false) =~= s);
            assert(selected(d, node, s, true) =~= node);
        } else {
            assert(selected(d, node, s, false) =~= node);
            assert(selected(d, node, s, true) =~= s);
        }
    }
}

/// What the slots of the first `n` levels of a path start from.
pub open spec fn path_inputs(p: Permutation, iv: Seq<F128>, v: PathValues, n: nat) -> Seq<Seq<F128>>
    decreases n,
{
    if n == 0 {
        Seq::empty()
    } else {
        let l = n - 1;
        let node = replayed_node(p, iv, v, l as nat);
        let left = selected(v.bits[l], node, v.siblings[l], false);
        let first = seq![left[0], left[1], iv[0], iv[1]];
        path_inputs(p, iv, v, l as nat).push(first).push(
            absorbed(permuted(p, first), selected(v.bits[l], node, v.siblings[l], true)),
        )
    }
}

/// What the slots of the first `n` paths start from.
pub open spec fn paths_inputs(
    p: Permutation,
    iv: Seq<F128>,
    paths: Seq<PathLins>,
    n: nat,
    z: Seq<F128>,
) -> Seq<Seq<F128>>
    decreases n,
{
    if n == 0 {
        Seq::empty()
    } else {
        paths_inputs(p, iv, paths, (n - 1) as nat, z) + path_inputs(
            p,
            iv,
            paths[n - 1].at(z),
            paths[n - 1].bits.len(),
        )
    }
}

/// A path's root is the node at its depth.
pub open spec fn root_matches(p: Permutation, iv: Seq<F128>, path: PathLins, z: Seq<F128>) -> bool {
    replayed_node(p, iv, path.at(z), path.bits.len()) == path.at(z).root
}

/// Every root matches, and the columns of all the slots at a point are given
/// values.
pub open spec fn paths_discharged(
    p: Permutation,
    iv: Seq<F128>,
    paths: Seq<PathLins>,
    point: Seq<Lin>,
    values: Seq<Lin>,
    z: Seq<F128>,
) -> bool {
    &&& forall|i: int| 0 <= i < paths.len() ==> root_matches(p, iv, #[trigger] paths[i], z)
    &&& columns_equal(
        columns_of(
            p,
            tensors_of(evals_at(point, z)),
            paths_inputs(p, iv, paths, paths.len(), z),
            path_slots(paths, paths.len()),
        ),
        values,
        z,
    )
}

/// The rows of a path's first `n` levels.
pub open spec fn path_replay_rows(
    c: Seq<Row>,
    p: Permutation,
    t: PointTensors,
    slot: int,
    sums: ColumnSums,
    iv: Seq<F128>,
    path: PathLins,
    n: nat,
) -> Replay
    decreases n,
{
    if n == 0 {
        Replay { rows: c, sums, state: path.leaf }
    } else {
        let l = n - 1;
        let r = path_replay_rows(c, p, t, slot, sums, iv, path, (n - 1) as nat);
        let (d, sibling) = (path.bits[l], path.siblings[l]);
        let (c1, t0) = mul_rows(r.rows, d, r.state[0].plus(sibling[0]));
        let (c2, t1) = mul_rows(c1, d, r.state[1].plus(sibling[1]));
        let first = seq![
            r.state[0].plus(t0),
            r.state[1].plus(t1),
            Lin::constant(iv[0]),
            Lin::constant(iv[1]),
        ];
        let (c3, sums_a, mid) = replay_rows(c2, p, t, slot + 2 * l, r.sums, first);
        let second = seq![
            mid[0].plus(sibling[0].plus(t0)),
            mid[1].plus(sibling[1].plus(t1)),
            mid[2],
            mid[3],
        ];
        let (c4, sums_b, out) = replay_rows(c3, p, t, slot + 2 * l + 1, sums_a, second);
        Replay { rows: c4, sums: sums_b, state: seq![out[0], out[1]] }
    }
}

/// The rows of the first `n` paths, each with its root bound.
pub open spec fn paths_replay_rows(
    c: Seq<Row>,
    p: Permutation,
    t: PointTensors,
    iv: Seq<F128>,
    paths: Seq<PathLins>,
    n: nat,
) -> (Seq<Row>, ColumnSums)
    decreases n,
{
    if n == 0 {
        (c, no_sums())
    } else {
        let m = (n - 1) as nat;
        let (c1, sums) = paths_replay_rows(c, p, t, iv, paths, m);
        let path = paths[n - 1];
        let slot = path_slots(paths, m) as int;
        let r = path_replay_rows(c1, p, t, slot, sums, iv, path, path.bits.len());
        (
            pin_rows(
                pin_rows(r.rows, r.state[0].plus(path.root[0])),
                r.state[1].plus(path.root[1]),
            ),
            r.sums,
        )
    }
}

/// The rows of a discharge: they depend on wires, depths and the capacity alone.
pub open spec fn paths_discharge_rows(
    c: Seq<Row>,
    p: Permutation,
    iv: Seq<F128>,
    paths: Seq<PathLins>,
    point: Seq<Lin>,
    values: Seq<Lin>,
) -> Seq<Row> {
    let t = point_tensors(c, point);
    let (rows, sums) = paths_replay_rows(t.rows, p, t, iv, paths, paths.len());
    closing_rows(rows, sums, values)
}

/// Replays the slots of a path.
#[verifier::rlimit(80)]
fn replay_path(
    b: &mut FieldR1csBuilder,
    acc: &mut ColumnAccumulator,
    t: &PoseidonTables,
    circuit: &MerkleCircuit,
    input: &MerklePathInputsTrace,
    Ghost(point): Ghost<Seq<Lin>>,
    Ghost(raws): Ghost<Seq<Seq<Lin>>>,
    Ghost(n): Ghost<nat>,
) -> (r: ([LinExpr; 2], Ghost<Seq<Seq<Lin>>>))
    requires
        old(b)@.wf(),
        t@.rounds() < 128,
        input.wf(),
        input.below(old(b)@.rows.len()),
        old(acc).next_slot + 2 * input.active_depth <= old(acc).n_slots,
        replaying(old(acc), t@, point, raws, old(b)@.rows, n),
    ensures
        computed(old(b)@, final(b)@),
        final(acc).n_slots == old(acc).n_slots,
        replaying(final(acc), t@, point, r.1@, final(b)@.rows, n),
        r.1@.len() == raws.len() + 2 * input.active_depth,
        all_below(lins(r.0@), final(b)@.rows.len()),
        forall|ts: PointTensors| #[trigger]
            at_tensors(old(acc), ts) ==> at_tensors(final(acc), ts) && (Replay {
                rows: final(b)@.rows,
                sums: final(acc).sums(),
                state: lins(r.0@),
            }) == path_replay_rows(
                old(b)@.rows,
                t@,
                ts,
                old(acc).next_slot as int,
                old(acc).sums(),
                circuit.iv@,
                input@,
                input.active_depth as nat,
            ),
        forall|z: Seq<F128>| #[trigger]
            holds_past(final(b)@.rows, n, z) ==> {
                let v = input@.at(z);
                &&& raws_at(r.1@, z) == raws_at(raws, z) + path_inputs(
                    t@,
                    circuit.iv@,
                    v,
                    input.active_depth as nat,
                )
                &&& evals_at(lins(r.0@), z) == replayed_node(
                    t@,
                    circuit.iv@,
                    v,
                    input.active_depth as nat,
                )
            },
{
    broadcast use group_lin;

    let ghost p = t@;
    let ghost iv = circuit.iv@;
    let ghost b0 = b@;
    let ghost m = b0.rows.len();
    let ghost path = input@;
    let depth: usize = input.active_depth;
    let slots: usize = acc.n_slots;
    let ghost base: nat = acc.next_slot as nat;
    let mut current = [input.leaf[0].dup(), input.leaf[1].dup()];
    let ghost mut now = raws;
    let ghost acc0 = *acc;
    let mut level: usize = 0;
    proof {
        lemma_computed_refl(b0);
        assert(lins(current@) =~= path.leaf);
        assert forall|z: Seq<F128>| #[trigger] holds_past(b@.rows, n, z) implies {
            let v = path.at(z);
            &&& raws_at(now, z) == raws_at(raws, z) + path_inputs(p, iv, v, 0)
            &&& evals_at(lins(current@), z) == replayed_node(p, iv, v, 0)
        } by {
            assert(raws_at(now, z) =~= raws_at(raws, z) + path_inputs(p, iv, path.at(z), 0));
        }
    }
    while level < depth
        invariant
            level <= depth,
            depth == input.active_depth,
            p == t@,
            iv == circuit.iv@,
            p.rounds() < 128,
            path == input@,
            input.wf(),
            m == b0.rows.len(),
            input.below(m),
            b@.wf(),
            computed(b0, b@),
            acc.n_slots == slots,
            base + 2 * depth <= slots,
            base == raws.len(),
            now.len() == base + 2 * level,
            replaying(acc, p, point, now, b@.rows, n),
            all_below(lins(current@), b@.rows.len()),
            base == acc0.next_slot,
            acc.next_slot == base + 2 * level,
            forall|ts: PointTensors| #[trigger]
                at_tensors(&acc0, ts) ==> at_tensors(acc, ts) && (Replay {
                    rows: b@.rows,
                    sums: acc.sums(),
                    state: lins(current@),
                }) == path_replay_rows(
                    b0.rows,
                    p,
                    ts,
                    base as int,
                    acc0.sums(),
                    iv,
                    path,
                    level as nat,
                ),
            forall|z: Seq<F128>| #[trigger]
                holds_past(b@.rows, n, z) ==> {
                    let v = path.at(z);
                    &&& raws_at(now, z) == raws_at(raws, z) + path_inputs(p, iv, v, level as nat)
                    &&& evals_at(lins(current@), z) == replayed_node(p, iv, v, level as nat)
                },
        decreases depth - level,
    {
        let sibling = &input.siblings[level];
        let d = &input.direction_bits[level];
        let ghost c0 = b@;
        let ghost acc1 = *acc;
        let ghost k0 = b@.rows.len();
        let ghost cl = lins(current@);
        let ghost sl = lins(sibling@);
        proof {
            lemma_below_at(input.direction_bits@, m, level as int);
            assert(all_below(lins(input.siblings@[level as int]@), m));
            assert(sl[0].below(m) && sl[1].below(m));
            assert(cl[0].below(k0) && cl[1].below(k0));
            assert(path.siblings[level as int] == sl);
            assert(path.bits[level as int] == d@);
        }
        let sum0 = current[0].add(&sibling[0]);
        let t0 = times(b, d, &sum0);
        let ghost c1 = b@;
        let sum1 = current[1].add(&sibling[1]);
        let t1 = times(b, d, &sum1);
        let ghost c2 = b@;
        let left = [current[0].add(&t0), current[1].add(&t1)];
        let right = [sibling[0].add(&t0), sibling[1].add(&t1)];
        let first = [
            left[0].dup(),
            left[1].dup(),
            LinExpr::constant(circuit.iv[0]),
            LinExpr::constant(circuit.iv[1]),
        ];
        let ghost raw_a = state_lins(first);
        let ghost prior = now;
        proof {
            lemma_replay_grow(acc, p, point, now, c0.rows, c2.rows, n);
        }
        let mid = replay_slot(b, acc, t, &first, Ghost(point), Ghost(now), Ghost(n));
        let ghost acc2 = *acc;
        let ghost c3 = b@;
        let ghost k3 = b@.rows.len();
        let ghost ml = state_lins(mid);
        proof {
            assert(ml[0].below(k3) && ml[1].below(k3) && ml[2].below(k3) && ml[3].below(k3));
        }
        let second = [
            mid[0].add(&right[0]),
            mid[1].add(&right[1]),
            mid[2].dup(),
            mid[3].dup(),
        ];
        let ghost raw_b = state_lins(second);
        let out = replay_slot(
            b,
            acc,
            t,
            &second,
            Ghost(point),
            Ghost(now.push(raw_a)),
            Ghost(n),
        );
        let ghost ol = state_lins(out);
        let ghost k4 = b@.rows.len();
        proof {
            assert(ol[0].below(k4) && ol[1].below(k4));
        }
        current = [out[0].dup(), out[1].dup()];
        proof {
            assert(raw_a =~= seq![
                cl[0].plus(t0@),
                cl[1].plus(t1@),
                Lin::constant(iv[0]),
                Lin::constant(iv[1]),
            ]);
            assert(raw_b =~= seq![
                ml[0].plus(sl[0].plus(t0@)),
                ml[1].plus(sl[1].plus(t1@)),
                ml[2],
                ml[3],
            ]);
            assert(lins(current@) =~= seq![ol[0], ol[1]]);
            assert forall|ts: PointTensors| #[trigger] at_tensors(&acc0, ts) implies at_tensors(
                acc,
                ts,
            ) && (Replay {
                rows: b@.rows,
                sums: acc.sums(),
                state: lins(current@),
            }) == path_replay_rows(
                b0.rows,
                p,
                ts,
                base as int,
                acc0.sums(),
                iv,
                path,
                (level + 1) as nat,
            ) by {
                assert(at_tensors(&acc1, ts));
                assert(at_tensors(&acc2, ts));
            }
            now = now.push(raw_a).push(raw_b);
            let rows = b@.rows;
            assert forall|z: Seq<F128>| #[trigger] holds_past(rows, n, z) implies {
                let v = path.at(z);
                &&& raws_at(now, z) == raws_at(raws, z) + path_inputs(
                    p,
                    iv,
                    v,
                    (level + 1) as nat,
                )
                &&& evals_at(lins(current@), z) == replayed_node(p, iv, v, (level + 1) as nat)
            } by {
                lemma_past_split(rows, c3.rows, n, z);
                lemma_past_split(c3.rows, c2.rows, n, z);
                lemma_past_split(c2.rows, c1.rows, n, z);
                lemma_past_split(c1.rows, c0.rows, n, z);
                lemma_past_split(c1.rows, c0.rows, n, z);
                lemma_mul_past(c0.rows, d@, sum0@, z);
                lemma_mul_past(c1.rows, d@, sum1@, z);
                let v = path.at(z);
                let l = level as int;
                let node = replayed_node(p, iv, v, level as nat);
                assert(evals_at(cl, z) == node);
                assert(node[0] == cl[0].eval(z) && node[1] == cl[1].eval(z));
                let sv = v.siblings[l];
                assert(sv == evals_at(sl, z));
                assert(sv[0] == sl[0].eval(z) && sv[1] == sl[1].eval(z));
                assert(v.bits[l] == d@.eval(z));
                let lv = selected(v.bits[l], node, sv, false);
                let rv = selected(v.bits[l], node, sv, true);
                let fv = seq![lv[0], lv[1], iv[0], iv[1]];
                assert(row_eval(raw_a, z) =~= fv);
                let pv = permuted(p, fv);
                assert(row_eval(ml, z) == pv);
                assert(pv[0] == ml[0].eval(z) && pv[1] == ml[1].eval(z) && pv[2] == ml[2].eval(z)
                    && pv[3] == ml[3].eval(z));
                assert(row_eval(raw_b, z) =~= absorbed(pv, rv));
                let qv = permuted(p, absorbed(pv, rv));
                assert(row_eval(ol, z) == qv);
                assert(qv[0] == ol[0].eval(z) && qv[1] == ol[1].eval(z));
                assert(raws_at(now, z) =~= raws_at(prior, z).push(row_eval(raw_a, z)).push(
                    row_eval(raw_b, z),
                ));
                assert(raws_at(now, z) =~= raws_at(raws, z) + path_inputs(
                    p,
                    iv,
                    v,
                    (level + 1) as nat,
                ));
                assert(evals_at(lins(current@), z) =~= compressed(p, iv, lv, rv));
            }
        }
        level += 1;
    }
    (current, Ghost(now))
}

fn count_slots(inputs: &Vec<MerklePathInputsTrace>) -> (r: usize)
    requires
        forall|i: int| 0 <= i < inputs@.len() ==> (#[trigger] inputs@[i]).wf(),
        path_slots(path_views(inputs@), inputs@.len()) <= usize::MAX,
    ensures
        r == path_slots(path_views(inputs@), inputs@.len()),
{
    let ghost paths = path_views(inputs@);
    let mut r: usize = 0;
    let mut i: usize = 0;
    while i < inputs.len()
        invariant
            i <= inputs@.len(),
            paths == path_views(inputs@),
            forall|k: int| 0 <= k < inputs@.len() ==> (#[trigger] inputs@[k]).wf(),
            r == path_slots(paths, i as nat),
            path_slots(paths, inputs@.len()) <= usize::MAX,
        decreases inputs@.len() - i,
    {
        proof {
            lemma_slots_grow(paths, (i + 1) as nat, inputs@.len());
            assert(inputs@[i as int].wf());
        }
        r = r + 2 * inputs[i].active_depth;
        i += 1;
    }
    r
}

/// Replays every path and binds its root, then binds the columns of all the
/// slots to the reductions.
#[verifier::rlimit(60)]
pub fn discharge_batched_merkle_trace(
    b: &mut FieldR1csBuilder,
    t: &PoseidonTables,
    circuit: &MerkleCircuit,
    inputs: &Vec<MerklePathInputsTrace>,
    reductions: &[BatchEvalReductionTrace; 3],
)
    requires
        old(b)@.wf(),
        t@.rounds() < 128,
        inputs@.len() > 0,
        paths_ok(inputs@, old(b)@.rows.len()),
        reductions[0].point@.len() >= 9,
        path_slots(path_views(inputs@), inputs@.len()) <= pow2(
            (reductions[0].point@.len() - 9) as nat,
        ),
        pow2((reductions[0].point@.len() - 9) as nat) <= usize::MAX,
        all_below(lins(reductions[0].point@), old(b)@.rows.len()),
        forall|i: int| 0 <= i < 3 ==> (#[trigger] reductions[i]).value@.below(old(b)@.rows.len()),
    ensures
        enforces(
            old(b)@,
            final(b)@,
            |z: Seq<F128>|
                paths_discharged(
                    t@,
                    circuit.iv@,
                    path_views(inputs@),
                    lins(reductions[0].point@),
                    reduction_values(*reductions),
                    z,
                ),
        ),
        final(b)@.rows == paths_discharge_rows(
            old(b)@.rows,
            t@,
            circuit.iv@,
            path_views(inputs@),
            lins(reductions[0].point@),
            reduction_values(*reductions),
        ),
{
    let ghost p = t@;
    let ghost iv = circuit.iv@;
    let ghost b0 = b@;
    let ghost n = b0.rows.len();
    let ghost pl = lins(reductions[0].point@);
    let ghost paths = path_views(inputs@);
    proof {
        assert(inputs@[0].wf());
        lemma_slots_grow(paths, 1, inputs@.len());
        reveal_with_fuel(path_slots, 2);
    }
    let live_slots: usize = count_slots(inputs);
    let mut acc = start_replay(b, &reductions[0].point, live_slots, Ghost(p));
    let ghost ts = point_tensors(b0.rows, pl);
    let ghost mut raws: Seq<Seq<Lin>> = Seq::empty();
    let ghost mut pins: Seq<Lin> = Seq::empty();
    let mut i: usize = 0;
    proof {
        lemma_pinned_none(b0, b@);
        lemma_binds_none(b@.rows);
        assert forall|z: Seq<F128>| #[trigger] holds_past(b@.rows, n, z) implies raws_at(raws, z)
            == paths_inputs(p, iv, paths, 0, z) by {
            assert(raws_at(raws, z) =~= paths_inputs(p, iv, paths, 0, z));
        }
    }
    while i < inputs.len()
        invariant
            i <= inputs@.len(),
            paths == path_views(inputs@),
            p == t@,
            iv == circuit.iv@,
            p.rounds() < 128,
            n == b0.rows.len(),
            live_slots == path_slots(paths, inputs@.len()),
            paths_ok(inputs@, n),
            b@.wf(),
            b@.grows(b0),
            acc.n_slots == live_slots,
            replaying(&acc, p, pl, raws, b@.rows, n),
            at_tensors(&acc, ts),
            (b@.rows, acc.sums()) == paths_replay_rows(ts.rows, p, ts, iv, paths, i as nat),
            raws.len() == path_slots(paths, i as nat),
            pinned(b0, b@, pins),
            binds(b@.rows, pins),
            forall|z: Seq<F128>| #[trigger]
                holds_past(b@.rows, n, z) ==> raws_at(raws, z) == paths_inputs(
                    p,
                    iv,
                    paths,
                    i as nat,
                    z,
                ),
            forall|z: Seq<F128>| #[trigger]
                holds_past(b@.rows, n, z) ==> (all_zero(pins, z) <==> forall|k: int|
                    0 <= k < i ==> root_matches(p, iv, #[trigger] paths[k], z)),
        decreases inputs@.len() - i,
    {
        let input = &inputs[i];
        let ghost b1 = b@;
        let ghost path = paths[i as int];
        proof {
            assert(inputs@[i as int].wf());
            lemma_slots_grow(paths, (i + 1) as nat, inputs@.len());
            crate::merkle_path::lemma_input_grow(input, n, b1.rows.len());
        }
        let (root, now) = replay_path(
            b,
            &mut acc,
            t,
            circuit,
            input,
            Ghost(pl),
            Ghost(raws),
            Ghost(n),
        );
        let ghost b2 = b@;
        let ghost sl = lins(root@);
        let ghost el = lins(input.expected_root@);
        let ghost p1 = pins.push(sl[0].plus(el[0]));
        let ghost p2 = p1.push(sl[1].plus(el[1]));
        proof {
            lemma_pinned_computed(b0, b1, b2, pins);
            lemma_binds_grow(b1.rows, b2.rows, pins);
            assert(sl[0].below(b2.rows.len()) && sl[1].below(b2.rows.len()));
            assert(el[0].below(n) && el[1].below(n));
        }
        pin_equal(b, &root[0], &input.expected_root[0], Ghost(b0), Ghost(pins));
        pin_equal(b, &root[1], &input.expected_root[1], Ghost(b0), Ghost(p1));
        proof {
            lemma_replay_grow(&acc, p, pl, now@, b2.rows, b@.rows, n);
            let rows = b@.rows;
            assert forall|z: Seq<F128>| #[trigger] holds_past(rows, n, z) implies raws_at(now@, z)
                == paths_inputs(p, iv, paths, (i + 1) as nat, z) && (all_zero(p2, z)
                <==> forall|k: int|
                0 <= k < i + 1 ==> root_matches(p, iv, #[trigger] paths[k], z)) by {
                lemma_past_split(rows, b2.rows, n, z);
                lemma_past_split(b2.rows, b1.rows, n, z);
                lemma_equal_push(pins, sl[0], el[0], z);
                lemma_equal_push(p1, sl[1], el[1], z);
                let v = path.at(z);
                let node = replayed_node(p, iv, v, path.bits.len());
                assert(evals_at(sl, z) == node);
                assert(node[0] == sl[0].eval(z) && node[1] == sl[1].eval(z));
                assert(v.root[0] == el[0].eval(z) && v.root[1] == el[1].eval(z));
                assert(node.len() == 2 && v.root.len() == 2);
                assert(root_matches(p, iv, path, z) <==> node[0] == v.root[0] && node[1]
                    == v.root[1]) by {
                    if node[0] == v.root[0] && node[1] == v.root[1] {
                        assert(node =~= v.root);
                    }
                }
                assert((forall|k: int| 0 <= k < i + 1 ==> root_matches(p, iv, #[trigger] paths[k], z))
                    <==> (forall|k: int| 0 <= k < i ==> root_matches(p, iv, #[trigger] paths[k], z))
                    && root_matches(p, iv, path, z));
            }
            raws = now@;
            pins = p2;
        }
        i += 1;
    }
    let ghost b3 = b@;
    close_replay(b, &acc, reductions, Ghost(b0), Ghost(pins));
    proof {
        let all = closed_pins(pins, &acc, *reductions);
        let values = reduction_values(*reductions);
        let f = |z: Seq<F128>| paths_discharged(p, iv, paths, pl, values, z);
        assert forall|z: Seq<F128>| #[trigger] holds_past(b@.rows, n, z) implies (all_zero(all, z)
            <==> f(z)) by {
            lemma_past_split(b@.rows, b3.rows, n, z);
            assert(accumulates(&acc, p, pl, raws, z));
            lemma_closed_pins(pins, &acc, *reductions, p, pl, raws, z);
        }
        lemma_enforces(b0, b@, all, f);
    }
}

} // verus!
