//! Paths and their proofs on fresh wires, and the slot that verifies them.

use vstd::prelude::*;
use vstd::arithmetic::power2::pow2;
use crate::accepted_claim_batch::free_rows;
use crate::batch_eval::reversed;
use crate::bits::bool_rows;
use crate::channel::{
    challenges_held, lemma_drew_end, lemma_drew_fresh, squeezed_wires, Op, RawChannelTrace,
};
use crate::circuit::{
    all_below, group_circuit, lemma_prefix_index, lins, sat, Circuit, FieldR1csBuilder, Lin,
    LinExpr, Row,
};
use crate::eval_gadgets::{lemma_below_grow, lemma_below_push, lemma_empty_below};
use crate::field::F128;
use crate::gadget::{
    bit_wire, computed, enforces, free_wire, lemma_computed_refl, lemma_computed_trans,
    lemma_enforces_after, lemma_enforces_trans,
};
use crate::merkle_killshot::{
    discharge_batched_merkle_trace, lemma_paths_checked_keep, lemma_replayed_node, path_slots,
    path_views, paths_checked, paths_discharge_rows, paths_discharged, paths_ok, paths_run,
    root_matches, verify_batched_merkle_killshot_trace, BatchedMerkleProofTrace,
};
use crate::merkle_path::{node_at, MerkleCircuit, MerklePathInputsTrace, PathLins, PathValues};
use crate::multilinear::evals_at;
use crate::poseidon::{Permutation, PoseidonTables};
use crate::spine_claims::{blocks_at, blocks_below, lemma_blocks_grow};
use crate::spine_family::{lemma_proof_family, FamilyLins, SpineTags};
use crate::spine_proofs::{
    lemma_evals_stable, poly_lens, poly_views, proof_width, proof_wires, SpineProof,
    SpineProofTrace,
};
use crate::spine_replay::reduction_values;
use crate::structural_region::{
    allocated, lemma_allocated_computed, lemma_free_rows_add, wires_from,
};

verus! {

broadcast use {group_circuit, lemma_computed_trans};

/// A path in arrays of a common length: past the active depth, siblings are zero
/// and directions unset.
#[derive(Debug)]
pub struct MerklePathInputs {
    pub leaf: [F128; 2],
    pub siblings: Vec<[F128; 2]>,
    pub directions: Vec<bool>,
    pub expected_root: [F128; 2],
    pub active_depth: usize,
}

impl MerklePathInputs {
    pub open spec fn canonical(&self) -> bool {
        &&& 0 < self.active_depth <= self.siblings@.len()
        &&& self.directions@.len() == self.siblings@.len()
        &&& forall|i: int|
            self.active_depth <= i < self.siblings@.len() ==> (#[trigger] self.siblings@[i])@
                == seq![F128::zero(), F128::zero()]
        &&& forall|i: int|
            self.active_depth <= i < self.directions@.len() ==> !(#[trigger] self.directions@[i])
    }

    /// The values of the active levels.
    pub open spec fn values(&self) -> PathValues {
        let n = self.active_depth as nat;
        PathValues {
            leaf: self.leaf@,
            siblings: Seq::new(n, |i: int| self.siblings@[i]@),
            bits: Seq::new(n, |i: int| F128::of_bool(self.directions@[i])),
            root: self.expected_root@,
        }
    }
}

/// Consecutive wires of a path of a given depth.
pub open spec fn path_wires(start: int, depth: nat) -> PathLins {
    PathLins {
        leaf: wires_from(start, 2),
        siblings: Seq::new(depth, |i: int| wires_from(start + 2 + 2 * i, 2)),
        bits: wires_from(start + 2 + 2 * depth, depth),
        root: wires_from(start + 2 + 3 * depth, 2),
    }
}

/// The rows of a path's wires: only the directions are bound, to be bits.
pub open spec fn path_wire_rows(c: Seq<Row>, depth: nat) -> Seq<Row> {
    free_rows(bool_rows(free_rows(c, 2 + 2 * depth), depth), 2)
}

/// The rows and wires of the first `n` paths, by their depths.
pub open spec fn paths_wired(c: Seq<Row>, depths: Seq<nat>, n: nat) -> (Seq<Row>, Seq<PathLins>)
    decreases n,
{
    if n == 0 {
        (c, Seq::empty())
    } else {
        let (c1, paths) = paths_wired(c, depths, (n - 1) as nat);
        (
            path_wire_rows(c1, depths[n - 1]),
            paths.push(path_wires(c1.len() as int, depths[n - 1])),
        )
    }
}

pub open spec fn input_depths(inputs: Seq<MerklePathInputs>) -> Seq<nat> {
    Seq::new(inputs.len(), |i: int| inputs[i].active_depth as nat)
}

fn pair_wires(b: &mut FieldR1csBuilder, pair: &[F128; 2]) -> (r: [LinExpr; 2])
    requires
        old(b)@.wf(),
    ensures
        computed(old(b)@, final(b)@),
        final(b)@.rows.len() == old(b)@.rows.len() + 2,
        all_below(lins(r@), final(b)@.rows.len()),
        evals_at(lins(r@), final(b)@.values) == pair@,
        final(b)@.rows == free_rows(old(b)@.rows, 2),
        lins(r@) == wires_from(old(b)@.rows.len() as int, 2),
{
    let x = free_wire(b, pair[0]);
    let ghost b1 = b@;
    let y = free_wire(b, pair[1]);
    let r = [x, y];
    proof {
        reveal_with_fuel(free_rows, 3);
        assert(lins(r@) =~= wires_from(old(b)@.rows.len() as int, 2));
        assert(x@.eval(b@.values) == x@.eval(b1.values));
        assert(evals_at(lins(r@), b@.values) =~= pair@);
    }
    r
}

/// The directions on wires are bits.
pub open spec fn bits_bound(rows: Seq<Row>, bits: Seq<Lin>) -> bool {
    forall|z: Seq<F128>, i: int| #[trigger]
        sat(rows, z) && 0 <= i < bits.len() ==> (#[trigger] bits[i]).eval(z).is_bit()
}

proof fn lemma_bits_grow(rows: Seq<Row>, more: Seq<Row>, bits: Seq<Lin>)
    requires
        bits_bound(rows, bits),
        crate::circuit::prefix(rows, more),
    ensures
        bits_bound(more, bits),
{
    assert forall|z: Seq<F128>, i: int| #[trigger]
        sat(more, z) && 0 <= i < bits.len() implies (#[trigger] bits[i]).eval(z).is_bit() by {
        crate::circuit::lemma_sat_prefix(rows, more, z);
    }
}

impl MerklePathInputsTrace {
    /// Fresh wires of a path: leaf, siblings, directions that are bits, root.
    #[verifier::rlimit(40)]
    pub fn allocate(b: &mut FieldR1csBuilder, native: &MerklePathInputs) -> (r:
        MerklePathInputsTrace)
        requires
            old(b)@.wf(),
            native.canonical(),
        ensures
            computed(old(b)@, final(b)@),
            final(b)@.rows.len() == old(b)@.rows.len() + 3 * native.active_depth + 4,
            r.wf(),
            r.active_depth == native.active_depth,
            r.below(final(b)@.rows.len()),
            r@.at(final(b)@.values) == native.values(),
            bits_bound(final(b)@.rows, r@.bits),
            r@ == path_wires(old(b)@.rows.len() as int, native.active_depth as nat),
            final(b)@.rows == path_wire_rows(old(b)@.rows, native.active_depth as nat),
    {
        let ghost b0 = b@;
        let depth: usize = native.active_depth;
        let leaf = pair_wires(b, &native.leaf);
        let ghost b1 = b@;
        let mut siblings: Vec<[LinExpr; 2]> = Vec::new();
        proof {
            lemma_computed_refl(b1);
        }
        while siblings.len() < depth
            invariant
                siblings@.len() <= depth,
                depth <= native.siblings@.len(),
                b@.wf(),
                computed(b1, b@),
                b@.rows.len() == b1.rows.len() + 2 * siblings@.len(),
                b@.rows == free_rows(b1.rows, 2 * siblings@.len()),
                forall|i: int|
                    0 <= i < siblings@.len() ==> lins((#[trigger] siblings@[i])@) == wires_from(
                        b1.rows.len() + 2 * i,
                        2,
                    ),
                blocks_below(siblings@, b@.rows.len()),
                forall|i: int|
                    0 <= i < siblings@.len() ==> evals_at(
                        lins((#[trigger] siblings@[i])@),
                        b@.values,
                    ) == native.siblings@[i]@,
            decreases depth - siblings@.len(),
        {
            let ghost c = b@;
            let ghost prior = siblings@;
            let i: usize = siblings.len();
            let pair = pair_wires(b, &native.siblings[i]);
            siblings.push(pair);
            proof {
                lemma_free_rows_add(b1.rows, 2 * i as nat, 2);
                assert forall|k: int| 0 <= k < siblings@.len() implies lins(
                    (#[trigger] siblings@[k])@,
                ) == wires_from(b1.rows.len() + 2 * k, 2) by {
                    if k < i {
                        assert(siblings@[k] == prior[k]);
                    }
                }
                lemma_blocks_grow(prior, c.rows.len(), b@.rows.len());
                assert forall|k: int| 0 <= k < siblings@.len() implies all_below(
                    lins((#[trigger] siblings@[k])@),
                    b@.rows.len(),
                ) && evals_at(lins(siblings@[k]@), b@.values) == native.siblings@[k]@ by {
                    if k < i {
                        assert(siblings@[k] == prior[k]);
                        assert(all_below(lins(prior[k]@), c.rows.len()));
                        lemma_evals_stable(c, b@, lins(prior[k]@));
                    }
                }
            }
        }
        let ghost b2 = b@;
        let mut bits: Vec<LinExpr> = Vec::new();
        proof {
            lemma_computed_refl(b2);
            lemma_empty_below(b2.rows.len());
            assert(lins(bits@) =~= wires_from(b2.rows.len() as int, 0));
        }
        while bits.len() < depth
            invariant
                bits@.len() <= depth,
                depth <= native.directions@.len(),
                b@.wf(),
                computed(b2, b@),
                b@.rows.len() == b2.rows.len() + bits@.len(),
                b@.rows == bool_rows(b2.rows, bits@.len()),
                lins(bits@) == wires_from(b2.rows.len() as int, bits@.len()),
                all_below(lins(bits@), b@.rows.len()),
                bits_bound(b@.rows, lins(bits@)),
                forall|i: int|
                    0 <= i < bits@.len() ==> (#[trigger] bits@[i])@.eval(b@.values)
                        == F128::of_bool(native.directions@[i]),
            decreases depth - bits@.len(),
        {
            let ghost c = b@;
            let ghost prior = bits@;
            let i: usize = bits.len();
            let bit = bit_wire(b, native.directions[i]);
            proof {
                lemma_below_push(bits@, bit, c.rows.len(), b@.rows.len());
                lemma_bits_grow(c.rows, b@.rows, lins(bits@));
            }
            bits.push(bit);
            proof {
                assert(lins(bits@) =~= lins(prior).push(bit@));
                assert(lins(bits@) =~= wires_from(b2.rows.len() as int, bits@.len()));
                assert forall|z: Seq<F128>, k: int| #[trigger]
                    sat(b@.rows, z) && 0 <= k < bits@.len() implies (#[trigger] lins(
                    bits@,
                )[k]).eval(z).is_bit() by {
                    if k < i {
                        assert(lins(bits@)[k] == lins(prior)[k]);
                    }
                }
                assert forall|k: int| 0 <= k < bits@.len() implies (#[trigger] bits@[k])@.eval(
                    b@.values,
                ) == F128::of_bool(native.directions@[k]) by {
                    if k < i {
                        assert(bits@[k] == prior[k]);
                        assert(lins(prior)[k].below(c.rows.len()));
                    }
                }
            }
        }
        let ghost b3 = b@;
        let root = pair_wires(b, &native.expected_root);
        let r = MerklePathInputsTrace {
            leaf,
            siblings,
            direction_bits: bits,
            expected_root: root,
            active_depth: depth,
        };
        proof {
            let n = b@.rows.len();
            let z = b@.values;
            lemma_below_grow(lins(leaf@), b1.rows.len(), n);
            lemma_blocks_grow(siblings@, b2.rows.len(), n);
            lemma_below_grow(lins(bits@), b3.rows.len(), n);
            lemma_bits_grow(b3.rows, b@.rows, lins(bits@));
            lemma_evals_stable(b1, b@, lins(leaf@));
            lemma_evals_stable(b3, b@, lins(bits@));
            lemma_free_rows_add(b0.rows, 2, 2 * depth as nat);
            let wires = path_wires(b0.rows.len() as int, depth as nat);
            assert(r@.siblings =~= wires.siblings);
            assert(r@ == wires);
            let v = r@.at(z);
            let w = native.values();
            assert(v.leaf =~= w.leaf);
            assert(v.siblings =~= w.siblings) by {
                assert forall|k: int| 0 <= k < depth implies v.siblings[k] == w.siblings[k] by {
                    assert(all_below(lins(siblings@[k]@), b2.rows.len()));
                    lemma_evals_stable(b2, b@, lins(siblings@[k]@));
                }
            }
            assert(v.bits =~= w.bits) by {
                assert forall|k: int| 0 <= k < depth implies v.bits[k] == w.bits[k] by {
                    assert(evals_at(lins(bits@), z)[k] == evals_at(lins(bits@), b3.values)[k]);
                    assert(bits@[k]@.eval(b3.values) == F128::of_bool(native.directions@[k]));
                }
            }
            assert(v.root =~= w.root);
        }
        r
    }
}

impl BatchedMerkleProofTrace {
    /// Fresh wires of a proof about given paths.
    pub fn allocate(
        b: &mut FieldR1csBuilder,
        native: &SpineProof,
        inputs: &Vec<MerklePathInputsTrace>,
        live_slots: usize,
        num_vars: usize,
    ) -> (r: BatchedMerkleProofTrace)
        requires
            old(b)@.wf(),
            9 <= num_vars < usize::BITS,
            pow2((num_vars - 9) as nat) <= usize::MAX,
            native.wf(num_vars as nat),
            live_slots == path_slots(path_views(inputs@), inputs@.len()),
            live_slots <= pow2((num_vars - 9) as nat),
        ensures
            allocated(old(b)@, final(b)@, native.values()),
            r.wf(final(b)@.rows.len()),
            r.n_paths == inputs@.len(),
            r.num_vars == num_vars,
            r.live_slots == live_slots,
            r.family() == proof_wires(
                old(b)@.rows.len() as int,
                num_vars as nat,
                poly_lens(poly_views(native.main.round_polys@)),
                poly_lens(poly_views(native.shift.round_polys@)),
            ),
            native.values().len() == proof_width(
                num_vars as nat,
                poly_lens(poly_views(native.main.round_polys@)),
                poly_lens(poly_views(native.shift.round_polys@)),
            ),
    {
        let r = SpineProofTrace::allocate(b, native, num_vars);
        BatchedMerkleProofTrace {
            main: r.main,
            shift: r.shift,
            chain: r.chain,
            batch: r.batch,
            n_paths: inputs.len(),
            num_vars,
            live_slots,
        }
    }
}

/// The paths' directions are bits.
pub open spec fn all_bits_bound(rows: Seq<Row>, inputs: Seq<MerklePathInputsTrace>) -> bool {
    forall|i: int| 0 <= i < inputs.len() ==> bits_bound(rows, (#[trigger] inputs[i])@.bits)
}

/// Every path is a canonical one of the given values.
pub open spec fn inputs_ok(inputs: Seq<MerklePathInputs>) -> bool {
    forall|i: int|
        0 <= i < inputs.len() ==> (#[trigger] inputs[i]).canonical() && inputs[i].active_depth
            <= 128
}

/// The slots of the first `n` paths.
pub open spec fn input_slots(inputs: Seq<MerklePathInputs>, n: nat) -> nat
    decreases n,
{
    if n == 0 {
        0
    } else {
        input_slots(inputs, (n - 1) as nat) + 2 * inputs[n - 1].active_depth as nat
    }
}

proof fn lemma_input_slots(
    inputs: Seq<MerklePathInputs>,
    wires: Seq<MerklePathInputsTrace>,
    n: nat,
)
    requires
        n <= inputs.len(),
        n <= wires.len(),
        forall|i: int|
            0 <= i < n ==> (#[trigger] wires[i]).wf() && wires[i].active_depth
                == inputs[i].active_depth,
    ensures
        path_slots(path_views(wires), n) == input_slots(inputs, n),
    decreases n,
{
    if n > 0 {
        lemma_input_slots(inputs, wires, (n - 1) as nat);
        assert(wires[n - 1].wf());
    }
}

proof fn lemma_slots_within(inputs: Seq<MerklePathInputs>, m: nat, n: nat)
    requires
        m <= n,
    ensures
        input_slots(inputs, m) <= input_slots(inputs, n),
    decreases n,
{
    if m < n {
        lemma_slots_within(inputs, m, (n - 1) as nat);
    }
}

/// Wires of paths with their values.
pub open spec fn wires_hold(
    wires: Seq<MerklePathInputsTrace>,
    inputs: Seq<MerklePathInputs>,
    z: Seq<F128>,
) -> bool {
    forall|i: int|
        0 <= i < wires.len() ==> (#[trigger] wires[i])@.at(z) == inputs[i].values()
}

proof fn lemma_path_stable(before: Circuit, after: Circuit, path: &MerklePathInputsTrace)
    requires
        after.grows(before),
        path.below(before.rows.len()),
    ensures
        path@.at(after.values) == path@.at(before.values),
{
    lemma_evals_stable(before, after, path@.leaf);
    lemma_evals_stable(before, after, path@.bits);
    lemma_evals_stable(before, after, path@.root);
    let (y, z) = (before.values, after.values);
    assert(blocks_at(path@.siblings, z) =~= blocks_at(path@.siblings, y)) by {
        assert forall|k: int| 0 <= k < path@.siblings.len() implies blocks_at(path@.siblings, z)[k]
            == blocks_at(path@.siblings, y)[k] by {
            assert(all_below(lins(path.siblings@[k]@), before.rows.len()));
            lemma_evals_stable(before, after, path@.siblings[k]);
        }
    }
}

/// Wires of a batch of paths.
#[verifier::rlimit(40)]
fn allocate_paths(b: &mut FieldR1csBuilder, inputs: &Vec<MerklePathInputs>) -> (r: (
    Vec<MerklePathInputsTrace>,
    usize,
))
    requires
        old(b)@.wf(),
        inputs_ok(inputs@),
        input_slots(inputs@, inputs@.len()) <= usize::MAX,
    ensures
        computed(old(b)@, final(b)@),
        r.0@.len() == inputs@.len(),
        r.1 == path_slots(path_views(r.0@), r.0@.len()),
        r.1 == input_slots(inputs@, inputs@.len()),
        paths_ok(r.0@, final(b)@.rows.len()),
        wires_hold(r.0@, inputs@, final(b)@.values),
        all_bits_bound(final(b)@.rows, r.0@),
        forall|i: int|
            0 <= i < r.0@.len() ==> (#[trigger] r.0@[i]).active_depth == inputs@[i].active_depth,
        (final(b)@.rows, path_views(r.0@)) == paths_wired(
            old(b)@.rows,
            input_depths(inputs@),
            inputs@.len(),
        ),
{
    let ghost b0 = b@;
    let mut r: Vec<MerklePathInputsTrace> = Vec::new();
    let mut slots: usize = 0;
    proof {
        lemma_computed_refl(b0);
        assert(path_views(r@) =~= Seq::empty());
    }
    while r.len() < inputs.len()
        invariant
            r@.len() <= inputs@.len(),
            inputs_ok(inputs@),
            input_slots(inputs@, inputs@.len()) <= usize::MAX,
            slots == input_slots(inputs@, r@.len()),
            b@.wf(),
            computed(b0, b@),
            paths_ok(r@, b@.rows.len()),
            wires_hold(r@, inputs@, b@.values),
            all_bits_bound(b@.rows, r@),
            forall|i: int|
                0 <= i < r@.len() ==> (#[trigger] r@[i]).active_depth == inputs@[i].active_depth,
            (b@.rows, path_views(r@)) == paths_wired(
                b0.rows,
                input_depths(inputs@),
                r@.len(),
            ),
        decreases inputs@.len() - r@.len(),
    {
        let i: usize = r.len();
        let ghost c = b@;
        let ghost prior = r@;
        proof {
            assert(inputs@[i as int].canonical());
            lemma_slots_within(inputs@, (i + 1) as nat, inputs@.len());
        }
        let path = MerklePathInputsTrace::allocate(b, &inputs[i]);
        slots = slots + 2 * inputs[i].active_depth;
        r.push(path);
        proof {
            assert(path_views(r@) =~= path_views(prior).push(path@));
            assert forall|k: int| 0 <= k < r@.len() implies (#[trigger] r@[k]).wf()
                && r@[k].active_depth <= 128 && r@[k].below(b@.rows.len()) by {
                if k < i {
                    assert(r@[k] == prior[k]);
                    crate::merkle_path::lemma_input_grow(
                        &prior[k],
                        c.rows.len(),
                        b@.rows.len(),
                    );
                }
            }
            assert forall|k: int| 0 <= k < r@.len() implies (#[trigger] r@[k])@.at(b@.values)
                == inputs@[k].values() && bits_bound(b@.rows, r@[k]@.bits) by {
                if k < i {
                    assert(r@[k] == prior[k]);
                    assert(prior[k].below(c.rows.len()));
                    lemma_path_stable(c, b@, &prior[k]);
                    lemma_bits_grow(c.rows, b@.rows, prior[k]@.bits);
                }
            }
        }
    }
    proof {
        lemma_input_slots(inputs@, r@, r@.len());
    }
    (r, slots)
}

/// The rows that verify and replay paths on given wires.
#[verifier::opaque]
pub open spec fn verified_rows(
    c: Seq<Row>,
    p: Permutation,
    circuit: MerkleCircuit,
    paths: Seq<PathLins>,
    f: FamilyLins,
    tags: SpineTags,
) -> Seq<Row> {
    let run = paths_run(c, Seq::empty(), p, circuit, f, paths, tags);
    paths_discharge_rows(
        run.multi.tape.rows,
        p,
        circuit.iv@,
        paths,
        reversed(run.multi.challenges),
        f.finals,
    )
}

/// The slot's conditions on values: the verifier's sumchecks, over a transcript
/// that starts with the paths, every path's root, and the columns of the replayed
/// slots at the point that the transcript ends on, which are the proof's final
/// values.
#[verifier::opaque]
pub open spec fn merkle_slot_accepts(
    wired: Seq<Row>,
    p: Permutation,
    circuit: MerkleCircuit,
    paths: Seq<PathLins>,
    f: FamilyLins,
    tags: SpineTags,
    z: Seq<F128>,
) -> bool {
    let run = paths_run(wired, Seq::empty(), p, circuit, f, paths, tags);
    &&& paths_checked(wired, Seq::empty(), p, circuit, f, paths, tags, z)
    &&& paths_discharged(
        p,
        circuit.iv@,
        paths,
        reversed(run.multi.challenges),
        f.finals,
        z,
    )
}

/// The wires of the challenges that the verifier draws.
#[verifier::opaque]
pub open spec fn slot_challenges(
    wired: Seq<Row>,
    p: Permutation,
    circuit: MerkleCircuit,
    paths: Seq<PathLins>,
    f: FamilyLins,
    tags: SpineTags,
) -> Seq<Lin> {
    let run = paths_run(wired, Seq::empty(), p, circuit, f, paths, tags);
    squeezed_wires(run.multi.tape.ops)
}

/// Where a slot accepts and the directions are bits, every path is authentic.
pub proof fn lemma_slot_sound(
    wired: Seq<Row>,
    p: Permutation,
    circuit: MerkleCircuit,
    inputs: Seq<MerklePathInputsTrace>,
    f: FamilyLins,
    tags: SpineTags,
    i: int,
    z: Seq<F128>,
)
    requires
        merkle_slot_accepts(wired, p, circuit, path_views(inputs), f, tags, z),
        all_bits_bound(wired, inputs),
        sat(wired, z),
        0 <= i < inputs.len(),
        inputs[i].wf(),
    ensures
        inputs[i]@.at(z).root == node_at(
            p,
            circuit.iv@,
            inputs[i]@.at(z),
            inputs[i].active_depth as nat,
        ),
{
    reveal(merkle_slot_accepts);
    let paths = path_views(inputs);
    assert(root_matches(p, circuit.iv@, paths[i], z));
    let v = inputs[i]@.at(z);
    assert(bits_bound(wired, inputs[i]@.bits));
    let depth = inputs[i].active_depth as nat;
    assert forall|k: int| 0 <= k < depth implies (#[trigger] v.bits[k]).is_bit() by {
        assert(inputs[i]@.bits[k].eval(z).is_bit());
    }
    lemma_replayed_node(p, circuit.iv@, v, depth);
}

/// The rows of a whole slot. They depend on the shape alone: on the depths of the
/// paths and the lengths of the proof, not on what either holds.
pub open spec fn merkle_slot_rows(
    c: Seq<Row>,
    p: Permutation,
    circuit: MerkleCircuit,
    depths: Seq<nat>,
    n: nat,
    main: Seq<nat>,
    shift: Seq<nat>,
    tags: SpineTags,
) -> Seq<Row> {
    let (c1, paths) = paths_wired(c, depths, depths.len());
    verified_rows(
        free_rows(c1, proof_width(n, main, shift)),
        p,
        circuit,
        paths,
        proof_wires(c1.len() as int, n, main, shift),
        tags,
    )
}

/// Verifies and replays paths on given wires, on a fresh channel.
#[verifier::rlimit(80)]
fn verify_slot(
    b: &mut FieldR1csBuilder,
    t: &PoseidonTables,
    circuit: &MerkleCircuit,
    wires: &BatchedMerkleProofTrace,
    paths: &Vec<MerklePathInputsTrace>,
    challenges: Vec<F128>,
    tags: SpineTags,
)
    requires
        old(b)@.wf(),
        t@.rounds() < 128,
        paths@.len() > 0,
        wires.n_paths == paths@.len(),
        wires.wf(old(b)@.rows.len()),
        paths_ok(paths@, old(b)@.rows.len()),
        wires.live_slots == path_slots(path_views(paths@), paths@.len()),
    ensures
        enforces(
            old(b)@,
            final(b)@,
            |z: Seq<F128>|
                merkle_slot_accepts(
                    old(b)@.rows,
                    t@,
                    *circuit,
                    path_views(paths@),
                    wires.family(),
                    tags,
                    z,
                ),
        ),
        final(b)@.rows == verified_rows(
            old(b)@.rows,
            t@,
            *circuit,
            path_views(paths@),
            wires.family(),
            tags,
        ),
        challenges_held(
            challenges@,
            slot_challenges(
                old(b)@.rows,
                t@,
                *circuit,
                path_views(paths@),
                wires.family(),
                tags,
            ),
            final(b)@.values,
        ),
{
    let ghost b2 = b@;
    let mut ch = RawChannelTrace::new(challenges);
    let ghost ch0 = ch;
    let reductions = verify_batched_merkle_killshot_trace(
        b,
        &mut ch,
        t,
        circuit,
        wires,
        paths,
        tags,
    );
    let ghost (b3, ch3) = (b@, ch);
    let ghost (p, f, views) = (t@, wires.family(), path_views(paths@));
    let ghost o = Seq::<Op>::empty();
    let ghost run = paths_run(b2.rows, o, p, *circuit, f, views, tags);
    let ghost point = reversed(run.multi.challenges);
    proof {
        lemma_paths_grown(paths@, b2, b3);
        assert(reductions[0].fits(wires.num_vars as nat, b3.rows.len()));
        assert(forall|i: int|
            0 <= i < 3 ==> (#[trigger] reductions[i]).fits(wires.num_vars as nat, b3.rows.len()));
        assert(lins(reductions[0].point@) == point);
        assert(reduction_values(reductions) =~= f.finals) by {
            assert(reductions[0].value@ == wires.batch.b_finals@[0]@);
            assert(reductions[1].value@ == wires.batch.b_finals@[1]@);
            assert(reductions[2].value@ == wires.batch.b_finals@[2]@);
        }
    }
    discharge_batched_merkle_trace(b, t, circuit, paths, &reductions);
    proof {
        lemma_drew_end(b2, ch0, b3, ch3, b@, ch3);
        lemma_drew_fresh(b2, ch0, b@, ch3);
        reveal(slot_challenges);
        reveal(merkle_slot_accepts);
        reveal(verified_rows);
        let checked = |z: Seq<F128>| paths_checked(b2.rows, o, p, *circuit, f, views, tags, z);
        let replayed = |z: Seq<F128>|
            paths_discharged(p, circuit.iv@, views, point, f.finals, z);
        assert(enforces(b2, b3, checked));
        assert(enforces(b3, b@, replayed));
        lemma_proof_family(
            &wires.main,
            &wires.shift,
            &wires.chain,
            &wires.batch,
            wires.num_vars as nat,
            b2.rows.len(),
        );
        lemma_paths_checked_keep(
            b2,
            b3,
            b@,
            o,
            p,
            *circuit,
            f,
            views,
            wires.num_vars as nat,
            tags,
        );
        let accepts = |z: Seq<F128>|
            merkle_slot_accepts(b2.rows, p, *circuit, views, f, tags, z);
        lemma_enforces_trans(b2, b3, b@, checked, replayed, accepts);
    }
}

/// A whole slot: paths and proof on fresh wires, the verifier on a fresh
/// channel, and the replay. The challenges are those that the channel gives.
/// The slot's own values satisfy its rows exactly where the verifier and the
/// replay accept the paths and the proof; whoever satisfies its rows has
/// authentic paths.
#[verifier::rlimit(40)]
pub fn build_batched_merkle_slot(
    b: &mut FieldR1csBuilder,
    t: &PoseidonTables,
    circuit: &MerkleCircuit,
    proof: &SpineProof,
    inputs: &Vec<MerklePathInputs>,
    num_vars: usize,
    challenges: Vec<F128>,
    tags: SpineTags,
) -> (r: Vec<MerklePathInputsTrace>)
    requires
        old(b)@.wf(),
        t@.rounds() < 128,
        inputs@.len() > 0,
        inputs_ok(inputs@),
        9 <= num_vars < usize::BITS,
        pow2((num_vars - 9) as nat) <= usize::MAX,
        input_slots(inputs@, inputs@.len()) <= pow2((num_vars - 9) as nat),
        proof.wf(num_vars as nat),
    ensures
        final(b)@.grows(old(b)@),
        r@.len() == inputs@.len(),
        paths_ok(r@, final(b)@.rows.len()),
        wires_hold(r@, inputs@, final(b)@.values),
        forall|i: int|
            0 <= i < r@.len() ==> (#[trigger] r@[i]).active_depth == inputs@[i].active_depth,
        ({
            let (c, depths, n) = (old(b)@.rows, input_depths(inputs@), num_vars as nat);
            let main = poly_lens(poly_views(proof.main.round_polys@));
            let shift = poly_lens(poly_views(proof.shift.round_polys@));
            let (c1, paths) = paths_wired(c, depths, depths.len());
            let wired = free_rows(c1, proof_width(n, main, shift));
            let f = proof_wires(c1.len() as int, n, main, shift);
            &&& path_views(r@) == paths
            &&& final(b)@.rows == merkle_slot_rows(c, t@, *circuit, depths, n, main, shift, tags)
            &&& final(b)@.values.len() >= c1.len() + proof.values().len()
            &&& final(b)@.values.subrange(
                c1.len() as int,
                c1.len() + proof.values().len() as int,
            ) == proof.values()
            &&& enforces(
                old(b)@,
                final(b)@,
                |z: Seq<F128>| merkle_slot_accepts(wired, t@, *circuit, paths, f, tags, z),
            )
            &&& challenges_held(
                challenges@,
                slot_challenges(wired, t@, *circuit, paths, f, tags),
                final(b)@.values,
            )
        }),
        forall|z: Seq<F128>, i: int| #[trigger]
            sat(final(b)@.rows, z) && 0 <= i < r@.len() ==> (#[trigger] r@[i])@.at(z).root
                == node_at(t@, circuit.iv@, r@[i]@.at(z), r@[i].active_depth as nat),
{
    let ghost b0 = b@;
    let (paths, live_slots) = allocate_paths(b, inputs);
    let ghost b1 = b@;
    let wires = BatchedMerkleProofTrace::allocate(b, proof, &paths, live_slots, num_vars);
    let ghost b2 = b@;
    let ghost (p, f, views) = (t@, wires.family(), path_views(paths@));
    proof {
        lemma_paths_grown(paths@, b1, b2);
        lemma_allocated_computed(b1, b2, proof.values());
    }
    verify_slot(b, t, circuit, &wires, &paths, challenges, tags);
    proof {
        lemma_paths_grown(paths@, b2, b@);
        lemma_paths_kept(paths@, inputs@, b1, b@);
        let accepts = |z: Seq<F128>|
            merkle_slot_accepts(b2.rows, p, *circuit, views, f, tags, z);
        assert(enforces(b2, b@, accepts));
        lemma_enforces_after(b0, b2, b@, accepts);
        assert(b@.values.subrange(
            b1.rows.len() as int,
            b1.rows.len() + proof.values().len() as int,
        ) =~= proof.values()) by {
            lemma_prefix_index(b2.values, b@.values);
        }
        assert(all_bits_bound(b2.rows, paths@)) by {
            assert forall|i: int| 0 <= i < paths@.len() implies bits_bound(
                b2.rows,
                (#[trigger] paths@[i])@.bits,
            ) by {
                lemma_bits_grow(b1.rows, b2.rows, paths@[i]@.bits);
            }
        }
        assert forall|z: Seq<F128>, i: int| #[trigger]
            sat(b@.rows, z) && 0 <= i < paths@.len() implies (#[trigger] paths@[i])@.at(z).root
            == node_at(p, circuit.iv@, paths@[i]@.at(z), paths@[i].active_depth as nat) by {
            assert(paths@[i].wf());
            assert(accepts(z) && sat(b2.rows, z));
            lemma_slot_sound(b2.rows, p, *circuit, paths@, f, tags, i, z);
        }
    }
    paths
}

/// Wires of paths keep their values while a circuit grows.
proof fn lemma_paths_kept(
    wires: Seq<MerklePathInputsTrace>,
    inputs: Seq<MerklePathInputs>,
    before: Circuit,
    after: Circuit,
)
    requires
        paths_ok(wires, before.rows.len()),
        wires_hold(wires, inputs, before.values),
        after.grows(before),
    ensures
        wires_hold(wires, inputs, after.values),
{
    assert forall|i: int| 0 <= i < wires.len() implies (#[trigger] wires[i])@.at(after.values)
        == inputs[i].values() by {
        assert(wires[i].below(before.rows.len()));
        lemma_path_stable(before, after, &wires[i]);
    }
}

proof fn lemma_paths_grown(inputs: Seq<MerklePathInputsTrace>, before: Circuit, after: Circuit)
    requires
        paths_ok(inputs, before.rows.len()),
        after.grows(before),
    ensures
        paths_ok(inputs, after.rows.len()),
{
    assert forall|i: int| 0 <= i < inputs.len() implies (#[trigger] inputs[i]).wf()
        && inputs[i].active_depth <= 128 && inputs[i].below(after.rows.len()) by {
        crate::merkle_path::lemma_input_grow(&inputs[i], before.rows.len(), after.rows.len());
    }
}

} // verus!
