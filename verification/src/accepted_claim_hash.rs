//! The hash of an accepted block's claim: a sponge over its fields, two lanes a
//! block.

use vstd::prelude::*;
use vstd::arithmetic::power2::pow2;
use crate::accepted_claim_batch::free_rows;
use crate::batch_eval::{
    alloc_values, linear_ok, linear_terms, linear_values, reversed, BatchEvalReductionTrace,
    LinearEvalClaimTrace, LinearEvalProofTrace, MultiBatchEvalProofTrace,
};
use crate::block_spine::{tensors_of, BlockSpineUnifiedProofTrace};
use crate::channel::{
    drew, kept, lemma_drew_kept, lemma_drew_step, lemma_drew_trans, tape, Op, RawChannelTrace, Tape,
};
use crate::circuit::{
    all_below, group_circuit, lins, pin_rows, prefix, sat, Circuit, FieldR1csBuilder, Lin, LinExpr,
    Row,
};
use crate::eval_gadgets::{lemma_below_at, lemma_below_grow};
use crate::field::F128;
use crate::gadget::{
    enforces, lemma_computed_trans, lemma_enforces_after, lemma_enforces_trans, pinned,
};
use crate::merkle_killshot::constant_op;
use crate::multilinear::evals_at;
use crate::poseidon::{Permutation, PoseidonTables};
use crate::round_poly::{absorb_all, absorbs};
use crate::spine_claims::{
    block_lins, blocks_at, blocks_below, sponge_chain_claims_trace, sponge_state, sponge_terms,
    sponge_values,
};
use crate::spine_columns::{point_tensors, ColumnSums, PointTensors};
use crate::spine_family::{
    family_checked, family_lins, family_run, lemma_family_keeps, lemma_family_sound,
    lemma_proof_family, opening_tape, proof_ok, verify_spine_relations, FamilyLins, FamilyRun,
    SpineTags,
};
use crate::spine_proofs::{
    lemma_evals_stable, lemma_wires_eval, poly_lens, poly_views, proof_width, proof_wires,
    SpineProof, SpineProofTrace,
};
use crate::spine_replay::{
    chain_inputs, chain_rows, chain_slots, chains_discharged, chains_inputs, chains_rows,
    closing_rows, columns_equal, columns_of, discharge_sponge_chains_trace, no_sums,
    reduction_values, SpongeChainTrace,
};
use crate::spine_shift::BlockSpineShiftProofTrace;
use crate::structural_region::{
    allocated, lemma_allocated, lemma_allocated_computed, lemma_allocated_none, wires_from,
};

verus! {

broadcast use {group_circuit, lemma_computed_trans};

/// Fields of a claim.
pub const ACCEPTED_CLAIM_FIELDS: usize = 80;

/// Blocks of two fields.
pub const ACCEPTED_CLAIM_BLOCKS: usize = 40;

/// The claim's hash: the tag that names it and the capacity that it starts from.
#[derive(Clone, Copy, Debug)]
pub struct ClaimHash {
    pub tag: u64,
    pub iv: [F128; 2],
}

/// A claim's fields and the lanes of its hash, on wires.
#[derive(Debug)]
pub struct AcceptedClaimHashInputsTrace {
    pub fields: Vec<LinExpr>,
    pub expected_claim: Vec<LinExpr>,
}

impl AcceptedClaimHashInputsTrace {
    pub open spec fn wf(&self, n: nat) -> bool {
        &&& self.fields@.len() == ACCEPTED_CLAIM_FIELDS
        &&& self.expected_claim@.len() == 2
        &&& all_below(lins(self.fields@), n)
        &&& all_below(lins(self.expected_claim@), n)
    }

    /// The fields, two a block.
    pub open spec fn blocks(&self) -> Seq<Seq<Lin>> {
        field_blocks(lins(self.fields@))
    }

    /// The hash of the fields under given values.
    pub open spec fn hash_at(&self, p: Permutation, iv: Seq<F128>, z: Seq<F128>) -> Seq<F128> {
        self@.hash_at(p, iv, z)
    }
}

/// The expressions of a claim: its fields and the lanes of its hash.
pub struct ClaimLins {
    pub fields: Seq<Lin>,
    pub expected: Seq<Lin>,
}

impl ClaimLins {
    pub open spec fn blocks(self) -> Seq<Seq<Lin>> {
        field_blocks(self.fields)
    }

    pub open spec fn hash_at(self, p: Permutation, iv: Seq<F128>, z: Seq<F128>) -> Seq<F128> {
        sponge_state(p, iv, blocks_at(self.blocks(), z), ACCEPTED_CLAIM_BLOCKS as nat).take(2)
    }

    /// The lanes are the hash of the fields.
    pub open spec fn hashed(self, p: Permutation, iv: Seq<F128>, z: Seq<F128>) -> bool {
        self.hash_at(p, iv, z) == evals_at(self.expected, z)
    }
}

impl View for AcceptedClaimHashInputsTrace {
    type V = ClaimLins;

    open spec fn view(&self) -> ClaimLins {
        ClaimLins { fields: lins(self.fields@), expected: lins(self.expected_claim@) }
    }
}

pub open spec fn claim_views(inputs: Seq<AcceptedClaimHashInputsTrace>) -> Seq<ClaimLins> {
    Seq::new(inputs.len(), |i: int| inputs[i]@)
}

pub open spec fn field_blocks(fields: Seq<Lin>) -> Seq<Seq<Lin>> {
    Seq::new(ACCEPTED_CLAIM_BLOCKS as nat, |i: int| seq![fields[2 * i], fields[2 * i + 1]])
}

/// The operations that absorb the first `n` claims.
pub open spec fn claim_ops(claims: Seq<ClaimLins>, n: nat) -> Seq<Op>
    decreases n,
{
    if n == 0 {
        Seq::empty()
    } else {
        claim_ops(claims, (n - 1) as nat) + absorbs(claims[n - 1].fields) + absorbs(
            claims[n - 1].expected,
        )
    }
}

/// The operations that absorb a batch.
pub open spec fn claims_ops(claims: Seq<ClaimLins>, tag: nat) -> Seq<Op> {
    seq![
        constant_op(claims.len()),
        constant_op(tag),
        constant_op(ACCEPTED_CLAIM_FIELDS as nat),
    ] + claim_ops(claims, claims.len())
}

/// The terms of the first `n` claims' chains.
pub open spec fn claims_terms(p: Permutation, n: nat) -> Seq<Seq<(nat, Lin)>>
    decreases n,
{
    if n == 0 {
        Seq::empty()
    } else {
        claims_terms(p, (n - 1) as nat) + sponge_terms(
            p,
            ACCEPTED_CLAIM_BLOCKS as nat,
            2,
            ((n - 1) * ACCEPTED_CLAIM_BLOCKS) as nat,
        )
    }
}

/// The values of the first `n` claims' chains.
pub open spec fn claims_values(
    p: Permutation,
    iv: Seq<F128>,
    claims: Seq<ClaimLins>,
    n: nat,
) -> Seq<Lin>
    decreases n,
{
    if n == 0 {
        Seq::empty()
    } else {
        claims_values(p, iv, claims, (n - 1) as nat) + sponge_values(
            p,
            iv,
            claims[n - 1].blocks(),
            claims[n - 1].expected,
        )
    }
}

pub open spec fn inputs_wf(inputs: Seq<AcceptedClaimHashInputsTrace>, n: nat) -> bool {
    forall|i: int| 0 <= i < inputs.len() ==> (#[trigger] inputs[i]).wf(n)
}

/// The blocks of a claim.
fn claim_blocks(input: &AcceptedClaimHashInputsTrace, Ghost(n): Ghost<nat>) -> (r: Vec<
    [LinExpr; 2],
>)
    requires
        input.wf(n),
    ensures
        block_lins(r@) == input.blocks(),
        r@.len() == ACCEPTED_CLAIM_BLOCKS,
        blocks_below(r@, n),
{
    let mut r: Vec<[LinExpr; 2]> = Vec::new();
    while r.len() < ACCEPTED_CLAIM_BLOCKS
        invariant
            r@.len() <= ACCEPTED_CLAIM_BLOCKS,
            input.wf(n),
            blocks_below(r@, n),
            forall|i: int|
                0 <= i < r@.len() ==> lins((#[trigger] r@[i])@) == seq![
                    input.fields@[2 * i]@,
                    input.fields@[2 * i + 1]@,
                ],
        decreases ACCEPTED_CLAIM_BLOCKS - r@.len(),
    {
        let i: usize = r.len();
        let ghost prior = r@;
        proof {
            lemma_below_at(input.fields@, n, 2 * i as int);
            lemma_below_at(input.fields@, n, 2 * i as int + 1);
        }
        let block = [input.fields[2 * i].dup(), input.fields[2 * i + 1].dup()];
        r.push(block);
        proof {
            assert(lins(block@) =~= seq![
                input.fields@[2 * i as int]@,
                input.fields@[2 * i as int + 1]@,
            ]);
            assert forall|k: int| 0 <= k < r@.len() implies all_below(
                lins((#[trigger] r@[k])@),
                n,
            ) by {
                if k < i {
                    assert(r@[k] == prior[k]);
                }
            }
        }
    }
    assert(block_lins(r@) =~= input.blocks());
    r
}

/// Absorbs a batch.
fn absorb_public_batch_trace(
    ch: &mut RawChannelTrace,
    hash: &ClaimHash,
    inputs: &Vec<AcceptedClaimHashInputsTrace>,
)
    ensures
        final(ch)@ == old(ch)@ + claims_ops(claim_views(inputs@), hash.tag as nat),
        kept(*old(ch), *final(ch)),
{
    let ghost o = ch@;
    let ghost claims = claim_views(inputs@);
    ch.absorb_const_tower(inputs.len() as u128);
    ch.absorb_const_tower(hash.tag as u128);
    ch.absorb_const_tower(ACCEPTED_CLAIM_FIELDS as u128);
    let ghost head = seq![
        constant_op(inputs@.len()),
        constant_op(hash.tag as nat),
        constant_op(ACCEPTED_CLAIM_FIELDS as nat),
    ];
    let mut i: usize = 0;
    assert(ch@ =~= o + head + claim_ops(claims, 0));
    while i < inputs.len()
        invariant
            i <= inputs@.len(),
            claims == claim_views(inputs@),
            ch@ == o + head + claim_ops(claims, i as nat),
            kept(*old(ch), *ch),
        decreases inputs@.len() - i,
    {
        absorb_all(ch, &inputs[i].fields);
        absorb_all(ch, &inputs[i].expected_claim);
        assert(claims[i as int] == inputs@[i as int]@);
        i += 1;
        assert(ch@ =~= o + head + claim_ops(claims, i as nat));
    }
    assert(ch@ =~= o + claims_ops(claims, hash.tag as nat));
}

/// The relations of the claims' chains.
fn claim_chain_claims_trace(
    t: &PoseidonTables,
    hash: &ClaimHash,
    inputs: &Vec<AcceptedClaimHashInputsTrace>,
    num_vars: usize,
    Ghost(n): Ghost<nat>,
) -> (r: Vec<LinearEvalClaimTrace>)
    requires
        t@.rounds() < 128,
        9 <= num_vars < usize::BITS,
        inputs@.len() * ACCEPTED_CLAIM_BLOCKS <= pow2((num_vars - 9) as nat),
        pow2((num_vars - 9) as nat) <= usize::MAX,
        inputs_wf(inputs@, n),
    ensures
        linear_terms(r@) == claims_terms(t@, inputs@.len()),
        linear_values(r@) == claims_values(t@, hash.iv@, claim_views(inputs@), inputs@.len()),
        linear_ok(r@, n),
        inputs@.len() > 0 ==> r@.len() > 0,
{
    let ghost p = t@;
    let ghost views = claim_views(inputs@);
    let mut r: Vec<LinearEvalClaimTrace> = Vec::new();
    let mut i: usize = 0;
    proof {
        assert(linear_terms(r@) =~= claims_terms(p, 0));
        assert(linear_values(r@) =~= claims_values(p, hash.iv@, views, 0));
    }
    while i < inputs.len()
        invariant
            i <= inputs@.len(),
            p == t@,
            views == claim_views(inputs@),
            p.rounds() < 128,
            9 <= num_vars < usize::BITS,
            inputs@.len() * ACCEPTED_CLAIM_BLOCKS <= pow2((num_vars - 9) as nat),
            pow2((num_vars - 9) as nat) <= usize::MAX,
            inputs_wf(inputs@, n),
            linear_terms(r@) == claims_terms(p, i as nat),
            linear_values(r@) == claims_values(p, hash.iv@, views, i as nat),
            linear_ok(r@, n),
            i > 0 ==> r@.len() > 0,
        decreases inputs@.len() - i,
    {
        let input = &inputs[i];
        assert(inputs@[i as int].wf(n));
        assert(views[i as int] == inputs@[i as int]@);
        let blocks = claim_blocks(input, Ghost(n));
        let mut more = sponge_chain_claims_trace(
            t,
            &blocks,
            &hash.iv,
            &input.expected_claim,
            i * ACCEPTED_CLAIM_BLOCKS,
            num_vars,
        );
        let ghost before = r@;
        let ghost extra = more@;
        proof {
            assert(linear_ok(extra, n));
            assert(linear_terms(extra).len() == extra.len());
        }
        r.append(&mut more);
        proof {
            assert(r@ =~= before + extra);
            assert(linear_terms(r@) =~= linear_terms(before) + linear_terms(extra));
            assert(linear_values(r@) =~= linear_values(before) + linear_values(extra));
            assert forall|k: int| 0 <= k < r@.len() implies crate::batch_eval::terms_below(
                (#[trigger] r@[k]).terms@,
                n,
            ) && r@[k].value@.below(n) by {
                if k < before.len() {
                    assert(r@[k] == before[k]);
                } else {
                    assert(r@[k] == extra[k - before.len()]);
                }
            }
        }
        i += 1;
    }
    r
}

/// A proof about claims.
#[derive(Debug)]
pub struct AcceptedClaimHashProofTrace {
    pub main: BlockSpineUnifiedProofTrace,
    pub shift: BlockSpineShiftProofTrace,
    pub chain: LinearEvalProofTrace,
    pub batch: MultiBatchEvalProofTrace,
    pub n_claims: usize,
    pub num_vars: usize,
    pub live_slots: usize,
}

/// The three columns at the closing point.
#[derive(Debug)]
pub struct AcceptedClaimHashReductionsTrace {
    pub state: BatchEvalReductionTrace,
    pub sin: BatchEvalReductionTrace,
    pub sout: BatchEvalReductionTrace,
}

impl AcceptedClaimHashProofTrace {
    /// The wires of the proof.
    pub open spec fn family(&self) -> FamilyLins {
        family_lins(&self.main, &self.shift, &self.chain, &self.batch)
    }

    pub open spec fn wf(&self, n: nat) -> bool {
        &&& proof_ok(
            &self.main,
            &self.shift,
            &self.chain,
            &self.batch,
            self.num_vars as nat,
            n,
        )
        &&& self.live_slots <= pow2((self.num_vars - 9) as nat)
    }

    /// Fresh wires of a proof about `n_inputs` claims.
    pub fn allocate(
        b: &mut FieldR1csBuilder,
        native: &SpineProof,
        n_inputs: usize,
        num_vars: usize,
    ) -> (r: AcceptedClaimHashProofTrace)
        requires
            old(b)@.wf(),
            9 <= num_vars < usize::BITS,
            pow2((num_vars - 9) as nat) <= usize::MAX,
            native.wf(num_vars as nat),
            n_inputs * ACCEPTED_CLAIM_BLOCKS <= pow2((num_vars - 9) as nat),
        ensures
            allocated(old(b)@, final(b)@, native.values()),
            r.wf(final(b)@.rows.len()),
            r.n_claims == n_inputs,
            r.num_vars == num_vars,
            r.live_slots == n_inputs * ACCEPTED_CLAIM_BLOCKS,
            r.family() == proof_wires(
                old(b)@.rows.len() as int,
                num_vars as nat,
                poly_lens(poly_views(native.main.round_polys@)),
                poly_lens(poly_views(native.shift.round_polys@)),
            ),
            native.values().len() == proof_width(
                num_vars as nat,
                poly_lens(poly_views(native.main.round_polys@)),
                poly_lens(poly_views(native.shift.round_polys@)),
            ),
    {
        let r = SpineProofTrace::allocate(b, native, num_vars);
        AcceptedClaimHashProofTrace {
            main: r.main,
            shift: r.shift,
            chain: r.chain,
            batch: r.batch,
            n_claims: n_inputs,
            num_vars,
            live_slots: n_inputs * ACCEPTED_CLAIM_BLOCKS,
        }
    }
}

/// The run of the verifier over given claims, on rows and operations that precede
/// it.
pub open spec fn claims_run(
    rows: Seq<Row>,
    ops: Seq<Op>,
    p: Permutation,
    hash: ClaimHash,
    f: FamilyLins,
    claims: Seq<ClaimLins>,
    tags: SpineTags,
) -> FamilyRun {
    let start = Tape { rows, ops: ops + claims_ops(claims, hash.tag as nat) };
    let live = claims.len() * ACCEPTED_CLAIM_BLOCKS as nat;
    family_run(
        start,
        p,
        live,
        f,
        opening_tape(start, p, live, f).rows,
        claims_terms(p, claims.len()),
        claims_values(p, hash.iv@, claims, claims.len()),
        tags,
    )
}

/// The verifier's four sumchecks hold under given values.
pub open spec fn claims_checked(
    run: FamilyRun,
    p: Permutation,
    hash: ClaimHash,
    f: FamilyLins,
    claims: Seq<ClaimLins>,
    z: Seq<F128>,
) -> bool {
    family_checked(
        run,
        p,
        claims.len() * ACCEPTED_CLAIM_BLOCKS as nat,
        f,
        claims_terms(p, claims.len()),
        claims_values(p, hash.iv@, claims, claims.len()),
        z,
    )
}

/// Verifies claim hashes: absorbs the claims, opens the spine, binds their chains
/// and closes on one point of each column.
pub fn verify_accepted_claim_hash_killshot_trace(
    b: &mut FieldR1csBuilder,
    ch: &mut RawChannelTrace,
    t: &PoseidonTables,
    hash: &ClaimHash,
    proof: &AcceptedClaimHashProofTrace,
    inputs: &Vec<AcceptedClaimHashInputsTrace>,
    tags: SpineTags,
) -> (r: AcceptedClaimHashReductionsTrace)
    requires
        old(b)@.wf(),
        t@.rounds() < 128,
        inputs@.len() > 0,
        proof.n_claims == inputs@.len(),
        proof.live_slots == inputs@.len() * ACCEPTED_CLAIM_BLOCKS,
        proof.wf(old(b)@.rows.len()),
        inputs_wf(inputs@, old(b)@.rows.len()),
    ensures
        ({
            let (p, f, claims) = (t@, proof.family(), claim_views(inputs@));
            let run = claims_run(old(b)@.rows, old(ch)@, p, *hash, f, claims, tags);
            let point = reversed(run.multi.challenges);
            &&& tape(*final(b), *final(ch)) == run.multi.tape
            &&& pinned(old(b)@, final(b)@, run.pins)
            &&& enforces(
                old(b)@,
                final(b)@,
                |z: Seq<F128>| claims_checked(run, p, *hash, f, claims, z),
            )
            &&& lins(r.state.point@) == point
            &&& lins(r.sin.point@) == point
            &&& lins(r.sout.point@) == point
        }),
        final(b)@.grows(old(b)@),
        r.state.value@ == proof.batch.b_finals@[0]@,
        r.sin.value@ == proof.batch.b_finals@[1]@,
        r.sout.value@ == proof.batch.b_finals@[2]@,
        r.state.fits(proof.num_vars as nat, final(b)@.rows.len()),
        r.sin.fits(proof.num_vars as nat, final(b)@.rows.len()),
        r.sout.fits(proof.num_vars as nat, final(b)@.rows.len()),
        drew(old(b)@, *old(ch), final(b)@, *final(ch)),
{
    let ghost (b0, ch0) = (b@, *ch);
    let ghost o = ch@;
    absorb_public_batch_trace(ch, hash, inputs);
    let ghost start = tape(*b, *ch);
    let ghost ch1 = *ch;
    let claims = claim_chain_claims_trace(t, hash, inputs, proof.num_vars, Ghost(b0.rows.len()));
    let r = verify_spine_relations(
        b,
        ch,
        t,
        &proof.main,
        &proof.shift,
        &proof.chain,
        &proof.batch,
        &claims,
        proof.num_vars,
        proof.live_slots,
        tags,
    );
    proof {
        let (p, f, views) = (t@, proof.family(), claim_views(inputs@));
        assert(start == Tape { rows: b0.rows, ops: o + claims_ops(views, hash.tag as nat) });
        lemma_drew_kept(b0, ch0, b0, ch1);
        lemma_drew_trans(b0, ch0, b0, ch1, b@, *ch);
        let live = proof.live_slots as nat;
        assert(live == views.len() * ACCEPTED_CLAIM_BLOCKS as nat);
        let run = claims_run(b0.rows, o, p, *hash, f, views, tags);
        let checked = |z: Seq<F128>| claims_checked(run, p, *hash, f, views, z);
        lemma_proof_family(
            &proof.main,
            &proof.shift,
            &proof.chain,
            &proof.batch,
            proof.num_vars as nat,
            b0.rows.len(),
        );
        assert forall|z: Seq<F128>| #[trigger] sat(b@.rows, z) implies sat(b0.rows, z) && checked(
            z,
        ) by {
            lemma_family_sound(
                start,
                p,
                live,
                f,
                proof.num_vars as nat,
                opening_tape(start, p, live, f).rows,
                claims_terms(p, views.len()),
                claims_values(p, hash.iv@, views, views.len()),
                tags,
                z,
            );
        }
        assert(checked(b@.values) == claims_checked(run, p, *hash, f, views, b@.values));
        assert(r[0].fits(proof.num_vars as nat, b@.rows.len()));
        assert(r[1].fits(proof.num_vars as nat, b@.rows.len()));
        assert(r[2].fits(proof.num_vars as nat, b@.rows.len()));
    }
    AcceptedClaimHashReductionsTrace { state: r[0].dup(), sin: r[1].dup(), sout: r[2].dup() }
}

// ---------------------------------------------------------------------------
// The replay
// ---------------------------------------------------------------------------

impl AcceptedClaimHashReductionsTrace {
    /// The values of the columns in order.
    pub open spec fn values(&self) -> Seq<Lin> {
        seq![self.state.value@, self.sin.value@, self.sout.value@]
    }

    /// The columns in order.
    pub fn columns(&self) -> (r: [BatchEvalReductionTrace; 3])
        ensures
            lins(r[0].point@) == lins(self.state.point@),
            r[0].point@.len() == self.state.point@.len(),
            r[0].value@ == self.state.value@,
            r[1].value@ == self.sin.value@,
            r[2].value@ == self.sout.value@,
    {
        [self.state.dup(), self.sin.dup(), self.sout.dup()]
    }
}

/// Every claim's hash is that of its fields, and the columns of all the slots at a
/// point are given values.
pub open spec fn claims_discharged(
    p: Permutation,
    hash: ClaimHash,
    claims: Seq<ClaimLins>,
    point: Seq<Lin>,
    values: Seq<Lin>,
    z: Seq<F128>,
) -> bool {
    &&& forall|i: int| 0 <= i < claims.len() ==> (#[trigger] claims[i]).hashed(p, hash.iv@, z)
    &&& columns_equal(
        columns_of(
            p,
            tensors_of(evals_at(point, z)),
            claims_inputs(p, hash.iv@, claims, claims.len(), z),
            claims.len() * ACCEPTED_CLAIM_BLOCKS as nat,
        ),
        values,
        z,
    )
}

/// What the slots of the first `n` claims start from.
pub open spec fn claims_inputs(
    p: Permutation,
    iv: Seq<F128>,
    claims: Seq<ClaimLins>,
    n: nat,
    z: Seq<F128>,
) -> Seq<Seq<F128>>
    decreases n,
{
    if n == 0 {
        Seq::empty()
    } else {
        claims_inputs(p, iv, claims, (n - 1) as nat, z) + chain_inputs(
            p,
            iv,
            blocks_at(claims[n - 1].blocks(), z),
            ACCEPTED_CLAIM_BLOCKS as nat,
        )
    }
}

/// The rows of the first `n` claims' chains, each with its hash bound.
pub open spec fn claims_rows(
    c: Seq<Row>,
    p: Permutation,
    t: PointTensors,
    iv: Seq<F128>,
    claims: Seq<ClaimLins>,
    n: nat,
) -> (Seq<Row>, ColumnSums)
    decreases n,
{
    if n == 0 {
        (c, no_sums())
    } else {
        let (c1, sums) = claims_rows(c, p, t, iv, claims, (n - 1) as nat);
        let claim = claims[n - 1];
        let r = chain_rows(
            c1,
            p,
            t,
            (n - 1) * ACCEPTED_CLAIM_BLOCKS,
            sums,
            iv,
            claim.blocks(),
            ACCEPTED_CLAIM_BLOCKS as nat,
        );
        let e = claim.expected;
        (pin_rows(pin_rows(r.rows, r.state[0].plus(e[0])), r.state[1].plus(e[1])), r.sums)
    }
}

/// The rows of a discharge: they depend on wires and the capacity alone.
pub open spec fn claims_discharge_rows(
    c: Seq<Row>,
    p: Permutation,
    iv: Seq<F128>,
    claims: Seq<ClaimLins>,
    point: Seq<Lin>,
    values: Seq<Lin>,
) -> Seq<Row> {
    let t = point_tensors(c, point);
    let (rows, sums) = claims_rows(t.rows, p, t, iv, claims, claims.len());
    closing_rows(rows, sums, values)
}

/// The chain of a claim.
pub open spec fn chain_of(c: SpongeChainTrace, iv: Seq<F128>, claim: ClaimLins) -> bool {
    &&& block_lins(c.blocks@) == claim.blocks()
    &&& c.iv@ == iv
    &&& lins(c.expected@) == claim.expected
}

proof fn lemma_chains(
    p: Permutation,
    iv: Seq<F128>,
    claims: Seq<ClaimLins>,
    chains: Seq<SpongeChainTrace>,
    n: nat,
)
    requires
        n <= claims.len(),
        chains.len() == claims.len(),
        forall|i: int| 0 <= i < chains.len() ==> chain_of(#[trigger] chains[i], iv, claims[i]),
    ensures
        chain_slots(chains, n) == n * ACCEPTED_CLAIM_BLOCKS,
        forall|z: Seq<F128>| #[trigger]
            chains_inputs(p, chains, n, z) == claims_inputs(p, iv, claims, n, z),
        forall|c: Seq<Row>, t: PointTensors| #[trigger]
            chains_rows(c, p, t, chains, n) == claims_rows(c, p, t, iv, claims, n),
    decreases n,
{
    if n > 0 {
        let m = (n - 1) as nat;
        lemma_chains(p, iv, claims, chains, m);
        let c = chains[n - 1];
        assert(chain_of(c, iv, claims[n - 1]));
        assert(block_lins(c.blocks@).len() == c.blocks@.len());
        assert forall|z: Seq<F128>| #[trigger]
            chains_inputs(p, chains, n, z) == claims_inputs(p, iv, claims, n, z) by {
            assert(chains_inputs(p, chains, m, z) == claims_inputs(p, iv, claims, m, z));
        }
        assert forall|rows: Seq<Row>, t: PointTensors| #[trigger]
            chains_rows(rows, p, t, chains, n) == claims_rows(rows, p, t, iv, claims, n) by {
            assert(chains_rows(rows, p, t, chains, m) == claims_rows(rows, p, t, iv, claims, m));
        }
    } else {
        assert forall|z: Seq<F128>| #[trigger]
            chains_inputs(p, chains, n, z) == claims_inputs(p, iv, claims, n, z) by {}
        assert forall|rows: Seq<Row>, t: PointTensors| #[trigger]
            chains_rows(rows, p, t, chains, n) == claims_rows(rows, p, t, iv, claims, n) by {}
    }
}

proof fn lemma_digest(
    p: Permutation,
    iv: Seq<F128>,
    claim: ClaimLins,
    c: SpongeChainTrace,
    z: Seq<F128>,
)
    requires
        chain_of(c, iv, claim),
    ensures
        c.digest_matches(p, z) <==> claim.hashed(p, iv, z),
{
    assert(block_lins(c.blocks@).len() == c.blocks@.len());
    let e = evals_at(claim.expected, z);
    let h = claim.hash_at(p, iv, z);
    let n = ACCEPTED_CLAIM_BLOCKS as nat;
    let s = sponge_state(p, iv, blocks_at(claim.blocks(), z), n);
    assert(s.len() == 4);
    assert(h[0] == s[0] && h[1] == s[1]);
    assert(lins(c.expected@)[0] == c.expected@[0]@ && lins(c.expected@)[1] == c.expected@[1]@);
    assert(e[0] == c.expected@[0]@.eval(z) && e[1] == c.expected@[1]@.eval(z));
    if h[0] == e[0] && h[1] == e[1] {
        assert(h =~= e);
    }
}

fn claim_chains(
    inputs: &Vec<AcceptedClaimHashInputsTrace>,
    hash: &ClaimHash,
    Ghost(n): Ghost<nat>,
) -> (r: Vec<SpongeChainTrace>)
    requires
        inputs_wf(inputs@, n),
    ensures
        r@.len() == inputs@.len(),
        forall|i: int| 0 <= i < r@.len() ==> chain_of(#[trigger] r@[i], hash.iv@, inputs@[i]@),
        forall|i: int| 0 <= i < r@.len() ==> (#[trigger] r@[i]).below(n),
{
    let mut r: Vec<SpongeChainTrace> = Vec::new();
    while r.len() < inputs.len()
        invariant
            r@.len() <= inputs@.len(),
            inputs_wf(inputs@, n),
            forall|i: int| 0 <= i < r@.len() ==> chain_of(#[trigger] r@[i], hash.iv@, inputs@[i]@),
            forall|i: int| 0 <= i < r@.len() ==> (#[trigger] r@[i]).below(n),
        decreases inputs@.len() - r@.len(),
    {
        let i: usize = r.len();
        let input = &inputs[i];
        assert(inputs@[i as int].wf(n));
        let blocks = claim_blocks(input, Ghost(n));
        let expected = [input.expected_claim[0].dup(), input.expected_claim[1].dup()];
        assert(lins(expected@) =~= lins(input.expected_claim@));
        r.push(SpongeChainTrace { blocks, iv: hash.iv, expected });
    }
    r
}

/// Replays every claim's chain and binds its hash, then binds the columns of all
/// the slots to the reductions.
pub fn discharge_accepted_claim_hash_trace(
    b: &mut FieldR1csBuilder,
    t: &PoseidonTables,
    hash: &ClaimHash,
    inputs: &Vec<AcceptedClaimHashInputsTrace>,
    reductions: &AcceptedClaimHashReductionsTrace,
)
    requires
        old(b)@.wf(),
        t@.rounds() < 128,
        inputs@.len() > 0,
        inputs_wf(inputs@, old(b)@.rows.len()),
        reductions.state.point@.len() >= 9,
        inputs@.len() * ACCEPTED_CLAIM_BLOCKS <= pow2((reductions.state.point@.len() - 9) as nat),
        pow2((reductions.state.point@.len() - 9) as nat) <= usize::MAX,
        all_below(lins(reductions.state.point@), old(b)@.rows.len()),
        reductions.state.value@.below(old(b)@.rows.len()),
        reductions.sin.value@.below(old(b)@.rows.len()),
        reductions.sout.value@.below(old(b)@.rows.len()),
    ensures
        enforces(
            old(b)@,
            final(b)@,
            |z: Seq<F128>|
                claims_discharged(
                    t@,
                    *hash,
                    claim_views(inputs@),
                    lins(reductions.state.point@),
                    reductions.values(),
                    z,
                ),
        ),
        final(b)@.rows == claims_discharge_rows(
            old(b)@.rows,
            t@,
            hash.iv@,
            claim_views(inputs@),
            lins(reductions.state.point@),
            reductions.values(),
        ),
{
    let ghost b0 = b@;
    let ghost n = b0.rows.len();
    let ghost (p, iv, claims) = (t@, hash.iv@, claim_views(inputs@));
    let chains = claim_chains(inputs, hash, Ghost(n));
    let columns = reductions.columns();
    proof {
        assert forall|i: int| 0 <= i < chains@.len() implies chain_of(
            #[trigger] chains@[i],
            iv,
            claims[i],
        ) by {
            assert(claims[i] == inputs@[i]@);
        }
        lemma_chains(p, iv, claims, chains@, claims.len());
    }
    discharge_sponge_chains_trace(b, t, &chains, &columns);
    proof {
        let (point, values) = (lins(reductions.state.point@), reductions.values());
        assert(reduction_values(columns) =~= values);
        let f = |z: Seq<F128>| chains_discharged(p, chains@, columns, z);
        let g = |z: Seq<F128>| claims_discharged(p, *hash, claims, point, values, z);
        assert forall|z: Seq<F128>| #[trigger] f(z) == g(z) by {
            assert(chains_inputs(p, chains@, claims.len(), z) == claims_inputs(
                p,
                iv,
                claims,
                claims.len(),
                z,
            ));
            assert forall|i: int| 0 <= i < claims.len() implies (
            (#[trigger] chains@[i]).digest_matches(p, z) <==> claims[i].hashed(p, iv, z)) by {
                assert(chain_of(chains@[i], iv, claims[i]));
                lemma_digest(p, iv, claims[i], chains@[i], z);
            }
            if g(z) {
                assert forall|i: int| 0 <= i < chains@.len() implies (
                #[trigger] chains@[i]).digest_matches(p, z) by {
                    assert(claims[i].hashed(p, iv, z));
                }
            }
            if f(z) {
                assert forall|i: int| 0 <= i < claims.len() implies (#[trigger] claims[i]).hashed(
                    p,
                    iv,
                    z,
                ) by {
                    assert(chains@[i].digest_matches(p, z));
                }
            }
        }
        assert(enforces(b0, b@, f));
        assert(f(b@.values) == g(b@.values));
        assert forall|z: Seq<F128>| #[trigger] sat(b@.rows, z) implies sat(b0.rows, z) && g(z) by {
            assert(f(z));
        }
    }
}

// ---------------------------------------------------------------------------
// The slot
// ---------------------------------------------------------------------------

/// A claim's fields and the lanes of its hash.
#[derive(Debug)]
pub struct AcceptedClaimHashInputs {
    pub fields: Vec<F128>,
    pub expected_claim: Vec<F128>,
}

impl AcceptedClaimHashInputs {
    pub open spec fn wf(&self) -> bool {
        self.fields@.len() == ACCEPTED_CLAIM_FIELDS && self.expected_claim@.len() == 2
    }

    /// The values in the order of their wires.
    pub open spec fn values(&self) -> Seq<F128> {
        self.fields@ + self.expected_claim@
    }
}

/// How many wires a claim takes.
pub open spec fn claim_width() -> nat {
    ACCEPTED_CLAIM_FIELDS as nat + 2
}

/// Consecutive wires of a claim.
pub open spec fn claim_wires(start: int) -> ClaimLins {
    ClaimLins {
        fields: wires_from(start, ACCEPTED_CLAIM_FIELDS as nat),
        expected: wires_from(start + ACCEPTED_CLAIM_FIELDS, 2),
    }
}

/// The values of the first `n` claims, in the order of their wires.
pub open spec fn claim_values(inputs: Seq<AcceptedClaimHashInputs>, n: nat) -> Seq<F128>
    decreases n,
{
    if n == 0 {
        Seq::empty()
    } else {
        claim_values(inputs, (n - 1) as nat) + inputs[n - 1].values()
    }
}

impl AcceptedClaimHashInputsTrace {
    /// Wires with the values of a claim.
    pub open spec fn holds(&self, native: AcceptedClaimHashInputs, z: Seq<F128>) -> bool {
        &&& evals_at(lins(self.fields@), z) == native.fields@
        &&& evals_at(lins(self.expected_claim@), z) == native.expected_claim@
    }

    /// Fresh wires of a claim.
    pub fn allocate(b: &mut FieldR1csBuilder, native: &AcceptedClaimHashInputs) -> (r:
        AcceptedClaimHashInputsTrace)
        requires
            old(b)@.wf(),
            native.wf(),
        ensures
            allocated(old(b)@, final(b)@, native.values()),
            r@ == claim_wires(old(b)@.rows.len() as int),
            r.wf(final(b)@.rows.len()),
            r.holds(*native, final(b)@.values),
    {
        let ghost b0 = b@;
        let fields = alloc_values(b, &native.fields);
        let ghost b1 = b@;
        let expected_claim = alloc_values(b, &native.expected_claim);
        proof {
            lemma_allocated(b0, b1, b@, native.fields@, native.expected_claim@);
            lemma_wires_eval(b0.values, native.fields@, b1.values);
            lemma_wires_eval(b1.values, native.expected_claim@, b@.values);
            lemma_evals_stable(b1, b@, lins(fields@));
            lemma_below_grow(lins(fields@), b1.rows.len(), b@.rows.len());
        }
        AcceptedClaimHashInputsTrace { fields, expected_claim }
    }
}

pub open spec fn claims_hold(
    wires: Seq<AcceptedClaimHashInputsTrace>,
    inputs: Seq<AcceptedClaimHashInputs>,
    z: Seq<F128>,
) -> bool {
    forall|i: int| 0 <= i < wires.len() ==> (#[trigger] wires[i]).holds(inputs[i], z)
}

proof fn lemma_claims_keep(
    wires: Seq<AcceptedClaimHashInputsTrace>,
    inputs: Seq<AcceptedClaimHashInputs>,
    before: Circuit,
    after: Circuit,
)
    requires
        inputs_wf(wires, before.rows.len()),
        claims_hold(wires, inputs, before.values),
        after.grows(before),
    ensures
        inputs_wf(wires, after.rows.len()),
        claims_hold(wires, inputs, after.values),
{
    assert forall|i: int| 0 <= i < wires.len() implies (#[trigger] wires[i]).wf(after.rows.len())
        && wires[i].holds(inputs[i], after.values) by {
        assert(wires[i].wf(before.rows.len()));
        lemma_below_grow(lins(wires[i].fields@), before.rows.len(), after.rows.len());
        lemma_below_grow(lins(wires[i].expected_claim@), before.rows.len(), after.rows.len());
        lemma_evals_stable(before, after, lins(wires[i].fields@));
        lemma_evals_stable(before, after, lins(wires[i].expected_claim@));
    }
}

fn allocate_claims(b: &mut FieldR1csBuilder, inputs: &Vec<AcceptedClaimHashInputs>) -> (r: Vec<
    AcceptedClaimHashInputsTrace,
>)
    requires
        old(b)@.wf(),
        forall|i: int| 0 <= i < inputs@.len() ==> (#[trigger] inputs@[i]).wf(),
    ensures
        allocated(old(b)@, final(b)@, claim_values(inputs@, inputs@.len())),
        final(b)@.rows.len() == old(b)@.rows.len() + claim_width() * inputs@.len(),
        r@.len() == inputs@.len(),
        claim_views(r@) == claims_wires(old(b)@.rows.len() as int, inputs@.len()),
        inputs_wf(r@, final(b)@.rows.len()),
        claims_hold(r@, inputs@, final(b)@.values),
{
    let ghost b0 = b@;
    let mut r: Vec<AcceptedClaimHashInputsTrace> = Vec::new();
    proof {
        lemma_allocated_none(b0);
    }
    while r.len() < inputs.len()
        invariant
            r@.len() <= inputs@.len(),
            forall|i: int| 0 <= i < inputs@.len() ==> (#[trigger] inputs@[i]).wf(),
            b@.wf(),
            allocated(b0, b@, claim_values(inputs@, r@.len())),
            b@.rows.len() == b0.rows.len() + claim_width() * r@.len(),
            forall|i: int|
                0 <= i < r@.len() ==> (#[trigger] r@[i])@ == claim_wires(
                    b0.rows.len() + claim_width() * i,
                ),
            inputs_wf(r@, b@.rows.len()),
            claims_hold(r@, inputs@, b@.values),
        decreases inputs@.len() - r@.len(),
    {
        let i: usize = r.len();
        let ghost c = b@;
        let ghost prior = r@;
        let claim = AcceptedClaimHashInputsTrace::allocate(b, &inputs[i]);
        r.push(claim);
        proof {
            let native = inputs@[i as int];
            assert(native.wf());
            lemma_allocated(b0, c, b@, claim_values(inputs@, i as nat), native.values());
            assert(claim_width() * (i + 1) == claim_width() * i + claim_width())
                by (nonlinear_arith);
            lemma_claims_keep(prior, inputs@, c, b@);
            assert forall|k: int| 0 <= k < r@.len() implies (#[trigger] r@[k]).wf(b@.rows.len())
                && r@[k].holds(inputs@[k], b@.values) && r@[k]@ == claim_wires(
                b0.rows.len() + claim_width() * k,
            ) by {
                if k < i {
                    assert(r@[k] == prior[k]);
                }
            }
        }
    }
    assert(claim_views(r@) =~= claims_wires(b0.rows.len() as int, inputs@.len()));
    r
}

/// Consecutive wires of `n` claims.
pub open spec fn claims_wires(start: int, n: nat) -> Seq<ClaimLins> {
    Seq::new(n, |i: int| claim_wires(start + claim_width() * i))
}

/// The wires of a slot: claims and proof.
pub struct ClaimSlotWires {
    pub claims: Seq<ClaimLins>,
    pub proof: FamilyLins,
}

/// The wires of a slot of `count` claims, one after the other.
pub open spec fn claim_slot_wires(
    start: int,
    count: nat,
    n: nat,
    main: Seq<nat>,
    shift: Seq<nat>,
) -> ClaimSlotWires {
    ClaimSlotWires {
        claims: claims_wires(start, count),
        proof: proof_wires(start + claim_width() * count, n, main, shift),
    }
}

/// The slot's conditions on values: the verifier's sumchecks, the claims' hashes,
/// and the columns of the replayed slots at the point that the transcript ends on,
/// which are the proof's final values.
#[verifier::opaque]
pub open spec fn claim_slot_accepts(
    wired: Seq<Row>,
    ops: Seq<Op>,
    p: Permutation,
    hash: ClaimHash,
    w: ClaimSlotWires,
    tags: SpineTags,
    z: Seq<F128>,
) -> bool {
    let run = claims_run(wired, ops, p, hash, w.proof, w.claims, tags);
    &&& claims_checked(run, p, hash, w.proof, w.claims, z)
    &&& claims_discharged(
        p,
        hash,
        w.claims,
        reversed(run.multi.challenges),
        w.proof.finals,
        z,
    )
}

/// The rows of a slot whose wires stand in `wired`: they depend on the shape
/// alone, not on what the claims or the proof hold.
pub open spec fn claim_slot_rows(
    wired: Seq<Row>,
    ops: Seq<Op>,
    p: Permutation,
    hash: ClaimHash,
    w: ClaimSlotWires,
    tags: SpineTags,
) -> Seq<Row> {
    let run = claims_run(wired, ops, p, hash, w.proof, w.claims, tags);
    claims_discharge_rows(
        run.multi.tape.rows,
        p,
        hash.iv@,
        w.claims,
        reversed(run.multi.challenges),
        w.proof.finals,
    )
}

/// A whole slot: claims and proof on fresh wires, the verifier on the channel,
/// and the replay. Whoever satisfies its rows has hashed every claim's fields to
/// the claim's expected lanes.
#[verifier::rlimit(60)]
pub fn build_accepted_claim_hash_slot(
    b: &mut FieldR1csBuilder,
    ch: &mut RawChannelTrace,
    t: &PoseidonTables,
    hash: &ClaimHash,
    proof: &SpineProof,
    inputs: &Vec<AcceptedClaimHashInputs>,
    num_vars: usize,
    tags: SpineTags,
) -> (r: (Vec<AcceptedClaimHashInputsTrace>, AcceptedClaimHashReductionsTrace))
    requires
        old(b)@.wf(),
        t@.rounds() < 128,
        inputs@.len() > 0,
        forall|i: int| 0 <= i < inputs@.len() ==> (#[trigger] inputs@[i]).wf(),
        9 <= num_vars < usize::BITS,
        pow2((num_vars - 9) as nat) <= usize::MAX,
        inputs@.len() * ACCEPTED_CLAIM_BLOCKS <= pow2((num_vars - 9) as nat),
        proof.wf(num_vars as nat),
    ensures
        final(b)@.grows(old(b)@),
        r.0@.len() == inputs@.len(),
        inputs_wf(r.0@, final(b)@.rows.len()),
        claims_hold(r.0@, inputs@, final(b)@.values),
        ({
            let (p, c, count, n) = (t@, old(b)@.rows, inputs@.len(), num_vars as nat);
            let main = poly_lens(poly_views(proof.main.round_polys@));
            let shift = poly_lens(poly_views(proof.shift.round_polys@));
            let w = claim_slot_wires(c.len() as int, count, n, main, shift);
            let wired = free_rows(c, claim_width() * count + proof_width(n, main, shift));
            let run = claims_run(wired, old(ch)@, p, *hash, w.proof, w.claims, tags);
            let point = reversed(run.multi.challenges);
            &&& claim_views(r.0@) == w.claims
            &&& final(b)@.rows == claim_slot_rows(wired, old(ch)@, p, *hash, w, tags)
            &&& final(ch)@ == run.multi.tape.ops
            &&& lins(r.1.state.point@) == point
            &&& lins(r.1.sin.point@) == point
            &&& lins(r.1.sout.point@) == point
            &&& r.1.values() == w.proof.finals
            &&& prefix(
                old(b)@.values + (claim_values(inputs@, count) + proof.values()),
                final(b)@.values,
            )
            &&& enforces(
                old(b)@,
                final(b)@,
                |z: Seq<F128>| claim_slot_accepts(wired, old(ch)@, p, *hash, w, tags, z),
            )
        }),
        drew(old(b)@, *old(ch), final(b)@, *final(ch)),
        forall|z: Seq<F128>, i: int| #[trigger]
            sat(final(b)@.rows, z) && 0 <= i < r.0@.len() ==> (#[trigger] r.0@[i]).hash_at(
                t@,
                hash.iv@,
                z,
            ) == evals_at(lins(r.0@[i].expected_claim@), z),
{
    let ghost (b0, ch0) = (b@, *ch);
    let ghost ops = ch@;
    let claims = allocate_claims(b, inputs);
    let ghost b1 = b@;
    let wires = AcceptedClaimHashProofTrace::allocate(b, proof, inputs.len(), num_vars);
    let ghost b2 = b@;
    let ghost (p, count, n) = (t@, inputs@.len(), num_vars as nat);
    let ghost main = poly_lens(poly_views(proof.main.round_polys@));
    let ghost shift = poly_lens(poly_views(proof.shift.round_polys@));
    let ghost w = claim_slot_wires(b0.rows.len() as int, count, n, main, shift);
    let ghost values = claim_values(inputs@, count) + proof.values();
    proof {
        lemma_claims_keep(claims@, inputs@, b1, b2);
        lemma_allocated(b0, b1, b2, claim_values(inputs@, count), proof.values());
        lemma_allocated_computed(b0, b2, values);
        assert(wires.family() == w.proof);
    }
    let reductions = verify_accepted_claim_hash_killshot_trace(
        b,
        ch,
        t,
        hash,
        &wires,
        &claims,
        tags,
    );
    let ghost (b3, ch3) = (b@, *ch);
    let ghost run = claims_run(b2.rows, ops, p, *hash, w.proof, w.claims, tags);
    let ghost point = reversed(run.multi.challenges);
    proof {
        lemma_claims_keep(claims@, inputs@, b2, b3);
        assert(reductions.values() =~= w.proof.finals);
    }
    discharge_accepted_claim_hash_trace(b, t, hash, &claims, &reductions);
    proof {
        lemma_claims_keep(claims@, inputs@, b3, b@);
        lemma_drew_kept(b0, ch0, b2, ch0);
        lemma_drew_step(b0, ch0, b2, ch0, b2, ch0, b3, ch3, b@);
        reveal(claim_slot_accepts);
        let f = |z: Seq<F128>| claims_checked(run, p, *hash, w.proof, w.claims, z);
        let g = |z: Seq<F128>|
            claims_discharged(p, *hash, w.claims, point, w.proof.finals, z);
        assert(enforces(b2, b3, f));
        assert(enforces(b3, b@, g));
        let start = Tape { rows: b2.rows, ops: ops + claims_ops(w.claims, hash.tag as nat) };
        let live = count * ACCEPTED_CLAIM_BLOCKS as nat;
        lemma_proof_family(
            &wires.main,
            &wires.shift,
            &wires.chain,
            &wires.batch,
            n,
            b2.rows.len(),
        );
        lemma_claims_len(p, hash.iv@, w.claims, count);
        lemma_family_keeps(
            b2,
            b3,
            b@,
            start,
            p,
            live,
            w.proof,
            n,
            opening_tape(start, p, live, w.proof).rows,
            claims_terms(p, count),
            claims_values(p, hash.iv@, w.claims, count),
            tags,
        );
        let h = |z: Seq<F128>| claim_slot_accepts(b2.rows, ops, p, *hash, w, tags, z);
        lemma_enforces_trans(b2, b3, b@, f, g, h);
        lemma_enforces_after(b0, b2, b@, h);
        assert forall|z: Seq<F128>, i: int| #[trigger]
            sat(b@.rows, z) && 0 <= i < claims@.len() implies (#[trigger] claims@[i]).hash_at(
            p,
            hash.iv@,
            z,
        ) == evals_at(lins(claims@[i].expected_claim@), z) by {
            assert(g(z));
            assert(w.claims[i] == claims@[i]@);
            assert(w.claims[i].hashed(p, hash.iv@, z));
        }
    }
    let r = (claims, reductions);
    assert(r.0@ == claims@ && r.1 == reductions);
    r
}

/// Terms and values of the claims' chains go together.
proof fn lemma_claims_len(p: Permutation, iv: Seq<F128>, claims: Seq<ClaimLins>, n: nat)
    requires
        n <= claims.len(),
        forall|i: int| 0 <= i < n ==> (#[trigger] claims[i]).expected.len() == 2,
    ensures
        claims_terms(p, n).len() == claims_values(p, iv, claims, n).len(),
    decreases n,
{
    if n > 0 {
        lemma_claims_len(p, iv, claims, (n - 1) as nat);
    }
}

} // verus!
