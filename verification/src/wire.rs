//! Canonical terminal wire codec.
//!
//! The prefix is `version:u8 || height:u64-le || semantic_id:[u8;32] ||
//! class_id:u8`. The shape of the rest is derived from the class. No vector
//! lengths occur on the wire.

use vstd::prelude::*;
use vstd::arithmetic::power2::pow2;
use crate::bytes::{
    enc_all, get_le, lemma_concat_injective, lemma_enc_all_injective, lemma_enc_all_len,
    lemma_enc_all_push, lemma_le_bytes_len, lemma_le_value_bytes, le_bytes, put_bytes, put_le,
};
use crate::wire_shape::{
    epoch_of, power_of_two, shape_of, BaseFoldWireShape, HistoryStepError, PcsParams, F128_BYTES,
    F256_BYTES, HASH_BYTES, PREFIX_BYTES,
};

verus! {

/// The wire version.
pub const HISTORY_STEP_WIRE_VERSION: u8 = 1;

/// A field element as it is stored, in two lanes.
#[derive(Clone, Copy, Debug, PartialEq, Eq, Structural)]
pub struct WireF128 {
    pub lo: u64,
    pub hi: u64,
}

/// An element of the quadratic extension as it is stored, by its two coordinates.
#[derive(Clone, Copy, Debug, PartialEq, Eq, Structural)]
pub struct WireF256 {
    pub lo: WireF128,
    pub hi: WireF128,
}

/// One folding message.
#[derive(Clone, Copy, Debug, PartialEq, Eq, Structural)]
pub struct C1RoundMessage {
    pub u_0: WireF256,
    pub u_2: WireF256,
}

/// One query of an opening proof.
#[derive(Debug, PartialEq, Eq)]
pub struct C1QueryOpening {
    pub position: u64,
    pub initial_leaf: Vec<WireF128>,
    pub initial_path: Vec<[u8; 32]>,
    pub post_row_batch_leaf: Vec<WireF256>,
    pub post_row_batch_path: Vec<[u8; 32]>,
    pub epoch_leaves: Vec<Vec<WireF256>>,
    pub epoch_paths: Vec<Vec<[u8; 32]>>,
}

/// An opening proof.
#[derive(Debug, PartialEq, Eq)]
pub struct C1BaseFoldProof {
    pub round_messages: Vec<C1RoundMessage>,
    pub post_row_batch_commit: [u8; 32],
    pub round_commitments: Vec<[u8; 32]>,
    pub final_a: WireF256,
    pub final_b: WireF256,
    pub final_codeword: Vec<WireF256>,
    pub plaintext_tail: Vec<WireF256>,
    pub pow_nonce: u64,
    pub queries: Vec<C1QueryOpening>,
}

/// A field proof.
#[derive(Debug, PartialEq, Eq)]
pub struct C1FieldR1csProof {
    pub round1_ab: Vec<WireF256>,
    pub round1_c: Vec<WireF256>,
    pub multilinear_rounds: Vec<(WireF256, WireF256)>,
    pub final_a_eval: WireF256,
    pub final_b_eval: WireF256,
    pub final_c_eval: WireF256,
    pub lincheck_rounds: Vec<(WireF256, WireF256)>,
    pub z_partial: Vec<WireF256>,
    pub pcs_open: C1BaseFoldProof,
}

/// A terminal: its metadata, commitment, public lanes, proof and the bytes of
/// its sidecar.
#[derive(Debug, PartialEq, Eq)]
pub struct HistoryStepTerminal {
    pub height: u64,
    pub semantic_id: [u8; 32],
    pub class_id: u8,
    pub commitment_root: [u8; 32],
    pub io: Vec<WireF128>,
    pub field_proof: C1FieldR1csProof,
    pub sidecar: Vec<u8>,
}

/// Dimensions of a field proof.
#[derive(Clone, Copy, Debug, PartialEq, Eq, Structural)]
pub struct FieldShape {
    pub m: usize,
    pub k_log: usize,
    pub k_skip: usize,
}

/// What the wire of a class depends on.
#[derive(Debug)]
pub struct HistoryStepClass {
    pub shape: FieldShape,
    pub pcs_params: PcsParams,
    pub sidecar_len: usize,
}

/// The classes in wire order.
#[derive(Debug)]
pub struct HistoryStepRuntime {
    pub io_len: usize,
    pub classes: Vec<HistoryStepClass>,
}

impl HistoryStepRuntime {
    pub open spec fn wf(&self) -> bool {
        &&& self.classes@.len() <= 256
        &&& forall|i: int|
            0 <= i < self.classes@.len() ==> (
            #[trigger] self.classes@[i]).pcs_params.first_fold_fits()
    }
}

// ---------------------------------------------------------------------------
// Values and encodings
// ---------------------------------------------------------------------------

pub struct QueryValue {
    pub position: nat,
    pub initial_leaf: Seq<WireF128>,
    pub initial_path: Seq<Seq<u8>>,
    pub post_leaf: Seq<WireF256>,
    pub post_path: Seq<Seq<u8>>,
    pub epoch_leaves: Seq<Seq<WireF256>>,
    pub epoch_paths: Seq<Seq<Seq<u8>>>,
}

pub struct BaseFoldValue {
    pub messages: Seq<C1RoundMessage>,
    pub post_commit: Seq<u8>,
    pub commitments: Seq<Seq<u8>>,
    pub final_a: WireF256,
    pub final_b: WireF256,
    pub final_codeword: Seq<WireF256>,
    pub tail: Seq<WireF256>,
    pub nonce: nat,
    pub queries: Seq<QueryValue>,
}

pub struct FieldProofValue {
    pub round1_ab: Seq<WireF256>,
    pub round1_c: Seq<WireF256>,
    pub rounds: Seq<(WireF256, WireF256)>,
    pub final_a: WireF256,
    pub final_b: WireF256,
    pub final_c: WireF256,
    pub lincheck_rounds: Seq<(WireF256, WireF256)>,
    pub z_partial: Seq<WireF256>,
    pub pcs_open: BaseFoldValue,
}

pub struct TerminalValue {
    pub height: nat,
    pub semantic_id: Seq<u8>,
    pub class_id: u8,
    pub commitment_root: Seq<u8>,
    pub io: Seq<WireF128>,
    pub field_proof: FieldProofValue,
    pub sidecar: Seq<u8>,
}

/// The bytes of hashes.
pub open spec fn hashes(s: Seq<[u8; 32]>) -> Seq<Seq<u8>> {
    Seq::new(s.len(), |i: int| s[i]@)
}

pub open spec fn f256_rows(s: Seq<Vec<WireF256>>) -> Seq<Seq<WireF256>> {
    Seq::new(s.len(), |i: int| s[i]@)
}

pub open spec fn hash_rows(s: Seq<Vec<[u8; 32]>>) -> Seq<Seq<Seq<u8>>> {
    Seq::new(s.len(), |i: int| hashes(s[i]@))
}

impl View for C1QueryOpening {
    type V = QueryValue;

    open spec fn view(&self) -> QueryValue {
        QueryValue {
            position: self.position as nat,
            initial_leaf: self.initial_leaf@,
            initial_path: hashes(self.initial_path@),
            post_leaf: self.post_row_batch_leaf@,
            post_path: hashes(self.post_row_batch_path@),
            epoch_leaves: f256_rows(self.epoch_leaves@),
            epoch_paths: hash_rows(self.epoch_paths@),
        }
    }
}

pub open spec fn query_views(s: Seq<C1QueryOpening>) -> Seq<QueryValue> {
    Seq::new(s.len(), |i: int| s[i]@)
}

impl View for C1BaseFoldProof {
    type V = BaseFoldValue;

    open spec fn view(&self) -> BaseFoldValue {
        BaseFoldValue {
            messages: self.round_messages@,
            post_commit: self.post_row_batch_commit@,
            commitments: hashes(self.round_commitments@),
            final_a: self.final_a,
            final_b: self.final_b,
            final_codeword: self.final_codeword@,
            tail: self.plaintext_tail@,
            nonce: self.pow_nonce as nat,
            queries: query_views(self.queries@),
        }
    }
}

impl View for C1FieldR1csProof {
    type V = FieldProofValue;

    open spec fn view(&self) -> FieldProofValue {
        FieldProofValue {
            round1_ab: self.round1_ab@,
            round1_c: self.round1_c@,
            rounds: self.multilinear_rounds@,
            final_a: self.final_a_eval,
            final_b: self.final_b_eval,
            final_c: self.final_c_eval,
            lincheck_rounds: self.lincheck_rounds@,
            z_partial: self.z_partial@,
            pcs_open: self.pcs_open@,
        }
    }
}

impl View for HistoryStepTerminal {
    type V = TerminalValue;

    open spec fn view(&self) -> TerminalValue {
        TerminalValue {
            height: self.height as nat,
            semantic_id: self.semantic_id@,
            class_id: self.class_id,
            commitment_root: self.commitment_root@,
            io: self.io@,
            field_proof: self.field_proof@,
            sidecar: self.sidecar@,
        }
    }
}

#[verifier::opaque]
pub open spec fn enc_f128(x: WireF128) -> Seq<u8> {
    le_bytes(x.lo as nat, 8) + le_bytes(x.hi as nat, 8)
}

pub open spec fn enc_f256(x: WireF256) -> Seq<u8> {
    enc_f128(x.lo) + enc_f128(x.hi)
}

pub open spec fn enc_pair(x: (WireF256, WireF256)) -> Seq<u8> {
    enc_f256(x.0) + enc_f256(x.1)
}

pub open spec fn enc_message(x: C1RoundMessage) -> Seq<u8> {
    enc_f256(x.u_0) + enc_f256(x.u_2)
}

pub open spec fn enc_f128s(s: Seq<WireF128>) -> Seq<u8> {
    enc_all(s, |x: WireF128| enc_f128(x))
}

pub open spec fn enc_f256s(s: Seq<WireF256>) -> Seq<u8> {
    enc_all(s, |x: WireF256| enc_f256(x))
}

pub open spec fn enc_pairs(s: Seq<(WireF256, WireF256)>) -> Seq<u8> {
    enc_all(s, |x: (WireF256, WireF256)| enc_pair(x))
}

pub open spec fn enc_messages(s: Seq<C1RoundMessage>) -> Seq<u8> {
    enc_all(s, |x: C1RoundMessage| enc_message(x))
}

pub open spec fn enc_hashes(s: Seq<Seq<u8>>) -> Seq<u8> {
    enc_all(s, |x: Seq<u8>| x)
}

/// The first `n` committed rounds of a query.
pub open spec fn enc_epochs(q: QueryValue, n: nat) -> Seq<u8>
    decreases n,
{
    if n == 0 {
        Seq::empty()
    } else {
        enc_epochs(q, (n - 1) as nat) + enc_f256s(q.epoch_leaves[n - 1]) + enc_hashes(
            q.epoch_paths[n - 1],
        )
    }
}

pub open spec fn enc_query(q: QueryValue) -> Seq<u8> {
    le_bytes(q.position, 8) + enc_f128s(q.initial_leaf) + enc_hashes(q.initial_path) + enc_f256s(
        q.post_leaf,
    ) + enc_hashes(q.post_path) + enc_epochs(q, q.epoch_leaves.len())
}

pub open spec fn enc_queries(s: Seq<QueryValue>) -> Seq<u8> {
    enc_all(s, |x: QueryValue| enc_query(x))
}

pub open spec fn enc_basefold(p: BaseFoldValue) -> Seq<u8> {
    enc_messages(p.messages) + p.post_commit + enc_hashes(p.commitments) + enc_f256(p.final_a)
        + enc_f256(p.final_b) + enc_f256s(p.final_codeword) + enc_f256s(p.tail) + le_bytes(
        p.nonce,
        8,
    ) + enc_queries(p.queries)
}

pub open spec fn enc_field_proof(p: FieldProofValue) -> Seq<u8> {
    enc_f256s(p.round1_ab) + enc_f256s(p.round1_c) + enc_pairs(p.rounds) + enc_f256(p.final_a)
        + enc_f256(p.final_b) + enc_f256(p.final_c) + enc_pairs(p.lincheck_rounds) + enc_f256s(
        p.z_partial,
    ) + enc_basefold(p.pcs_open)
}

pub open spec fn enc_prefix(t: TerminalValue) -> Seq<u8> {
    seq![HISTORY_STEP_WIRE_VERSION] + le_bytes(t.height, 8) + t.semantic_id + seq![t.class_id]
}

/// The wire of a terminal.
pub open spec fn enc_terminal(t: TerminalValue) -> Seq<u8> {
    enc_prefix(t) + (t.commitment_root + enc_f128s(t.io) + enc_field_proof(t.field_proof)
        + t.sidecar)
}

// ---------------------------------------------------------------------------
// Shapes
// ---------------------------------------------------------------------------

pub open spec fn hashes_ok(s: Seq<Seq<u8>>) -> bool {
    forall|i: int| 0 <= i < s.len() ==> (#[trigger] s[i]).len() == 32
}

pub open spec fn epoch_ok(q: QueryValue, s: &BaseFoldWireShape, i: int) -> bool {
    &&& q.epoch_leaves[i].len() == s.epoch_shapes@[i].0
    &&& q.epoch_paths[i].len() == s.epoch_shapes@[i].1
    &&& hashes_ok(q.epoch_paths[i])
}

pub open spec fn query_ok(q: QueryValue, s: &BaseFoldWireShape) -> bool {
    &&& q.position < pow2(64)
    &&& q.initial_leaf.len() == s.initial_leaf
    &&& q.initial_path.len() == s.initial_path
    &&& hashes_ok(q.initial_path)
    &&& q.post_leaf.len() == s.post_row_batch_leaf
    &&& q.post_path.len() == s.post_row_batch_path
    &&& hashes_ok(q.post_path)
    &&& q.epoch_leaves.len() == s.epoch_shapes@.len()
    &&& q.epoch_paths.len() == s.epoch_shapes@.len()
    &&& forall|i: int| 0 <= i < s.epoch_shapes@.len() ==> #[trigger] epoch_ok(q, s, i)
}

pub open spec fn basefold_ok(p: BaseFoldValue, s: &BaseFoldWireShape) -> bool {
    &&& p.messages.len() == s.round_messages
    &&& p.post_commit.len() == 32
    &&& p.commitments.len() == s.round_commitments
    &&& hashes_ok(p.commitments)
    &&& p.final_codeword.len() == s.final_codeword
    &&& p.tail.len() == s.plaintext_tail
    &&& p.nonce < pow2(64)
    &&& p.queries.len() == s.queries
    &&& forall|i: int| 0 <= i < p.queries.len() ==> query_ok(#[trigger] p.queries[i], s)
}

/// Dimensions for which a field proof has a shape.
pub open spec fn field_shape_ok(f: FieldShape) -> bool {
    &&& pow2(f.k_skip as nat) <= usize::MAX
    &&& f.m >= f.k_skip
    &&& f.k_log >= f.k_skip
}

pub open spec fn field_proof_ok(p: FieldProofValue, f: FieldShape, s: &BaseFoldWireShape) -> bool {
    &&& p.round1_ab.len() == pow2(f.k_skip as nat)
    &&& p.round1_c.len() == pow2(f.k_skip as nat)
    &&& p.rounds.len() == f.m - f.k_skip
    &&& p.lincheck_rounds.len() == f.k_log - f.k_skip
    &&& p.z_partial.len() == pow2(f.k_skip as nat)
    &&& basefold_ok(p.pcs_open, s)
}

/// Bytes of a field proof.
pub open spec fn field_proof_bytes(f: FieldShape, s: &BaseFoldWireShape) -> nat {
    let skip = pow2(f.k_skip as nat);
    ((skip * 2 + (f.m - f.k_skip) * 2 + 3) + ((f.k_log - f.k_skip) * 2 + skip)) as nat * 32
        + s.total_len()
}

// ---------------------------------------------------------------------------
// Lengths of encodings
// ---------------------------------------------------------------------------

pub proof fn lemma_f128_len(x: WireF128)
    ensures
        enc_f128(x).len() == 16,
{
    reveal(enc_f128);
    lemma_le_bytes_len(x.lo as nat, 8);
    lemma_le_bytes_len(x.hi as nat, 8);
}

pub proof fn lemma_f256_len(x: WireF256)
    ensures
        enc_f256(x).len() == 32,
{
    lemma_f128_len(x.lo);
    lemma_f128_len(x.hi);
}

pub proof fn lemma_f128s_len(s: Seq<WireF128>)
    ensures
        enc_f128s(s).len() == s.len() * 16,
{
    let f = |x: WireF128| enc_f128(x);
    assert forall|i: int| 0 <= i < s.len() implies f(#[trigger] s[i]).len() == 16 by {
        lemma_f128_len(s[i]);
    }
    lemma_enc_all_len(s, f, 16);
}

pub proof fn lemma_f256s_len(s: Seq<WireF256>)
    ensures
        enc_f256s(s).len() == s.len() * 32,
{
    let f = |x: WireF256| enc_f256(x);
    assert forall|i: int| 0 <= i < s.len() implies f(#[trigger] s[i]).len() == 32 by {
        lemma_f256_len(s[i]);
    }
    lemma_enc_all_len(s, f, 32);
}

pub proof fn lemma_pairs_len(s: Seq<(WireF256, WireF256)>)
    ensures
        enc_pairs(s).len() == s.len() * 64,
{
    let f = |x: (WireF256, WireF256)| enc_pair(x);
    assert forall|i: int| 0 <= i < s.len() implies f(#[trigger] s[i]).len() == 64 by {
        lemma_f256_len(s[i].0);
        lemma_f256_len(s[i].1);
    }
    lemma_enc_all_len(s, f, 64);
}

pub proof fn lemma_messages_len(s: Seq<C1RoundMessage>)
    ensures
        enc_messages(s).len() == s.len() * 64,
{
    let f = |x: C1RoundMessage| enc_message(x);
    assert forall|i: int| 0 <= i < s.len() implies f(#[trigger] s[i]).len() == 64 by {
        lemma_f256_len(s[i].u_0);
        lemma_f256_len(s[i].u_2);
    }
    lemma_enc_all_len(s, f, 64);
}

pub proof fn lemma_hashes_len(s: Seq<Seq<u8>>)
    requires
        hashes_ok(s),
    ensures
        enc_hashes(s).len() == s.len() * 32,
{
    let f = |x: Seq<u8>| x;
    assert forall|i: int| 0 <= i < s.len() implies f(#[trigger] s[i]).len() == 32 by {}
    lemma_enc_all_len(s, f, 32);
}

pub proof fn lemma_epochs_len(q: QueryValue, s: &BaseFoldWireShape, n: nat)
    requires
        query_ok(q, s),
        n <= s.epoch_shapes@.len(),
    ensures
        enc_epochs(q, n).len() == s.epochs_len(n),
    decreases n,
{
    if n > 0 {
        lemma_epochs_len(q, s, (n - 1) as nat);
        assert(epoch_ok(q, s, n - 1));
        lemma_f256s_len(q.epoch_leaves[n - 1]);
        lemma_hashes_len(q.epoch_paths[n - 1]);
    }
}

pub proof fn lemma_query_len(q: QueryValue, s: &BaseFoldWireShape)
    requires
        query_ok(q, s),
    ensures
        enc_query(q).len() == s.query_len(),
{
    lemma_le_bytes_len(q.position, 8);
    lemma_f128s_len(q.initial_leaf);
    lemma_hashes_len(q.initial_path);
    lemma_f256s_len(q.post_leaf);
    lemma_hashes_len(q.post_path);
    lemma_epochs_len(q, s, s.epoch_shapes@.len());
}

pub proof fn lemma_queries_len(qs: Seq<QueryValue>, s: &BaseFoldWireShape)
    requires
        forall|i: int| 0 <= i < qs.len() ==> query_ok(#[trigger] qs[i], s),
    ensures
        enc_queries(qs).len() == qs.len() * s.query_len(),
{
    let f = |x: QueryValue| enc_query(x);
    assert forall|i: int| 0 <= i < qs.len() implies f(#[trigger] qs[i]).len() == s.query_len() by {
        lemma_query_len(qs[i], s);
    }
    lemma_enc_all_len(qs, f, s.query_len());
}

pub proof fn lemma_basefold_len(p: BaseFoldValue, s: &BaseFoldWireShape)
    requires
        basefold_ok(p, s),
    ensures
        enc_basefold(p).len() == s.total_len(),
{
    lemma_messages_len(p.messages);
    lemma_hashes_len(p.commitments);
    lemma_f256_len(p.final_a);
    lemma_f256_len(p.final_b);
    lemma_f256s_len(p.final_codeword);
    lemma_f256s_len(p.tail);
    lemma_le_bytes_len(p.nonce, 8);
    lemma_queries_len(p.queries, s);
}

/// A field proof of its shape has the bytes of that shape.
pub proof fn lemma_field_proof_len(p: FieldProofValue, f: FieldShape, s: &BaseFoldWireShape)
    requires
        field_shape_ok(f),
        field_proof_ok(p, f, s),
    ensures
        enc_field_proof(p).len() == field_proof_bytes(f, s),
{
    lemma_f256s_len(p.round1_ab);
    lemma_f256s_len(p.round1_c);
    lemma_pairs_len(p.rounds);
    lemma_f256_len(p.final_a);
    lemma_f256_len(p.final_b);
    lemma_f256_len(p.final_c);
    lemma_pairs_len(p.lincheck_rounds);
    lemma_f256s_len(p.z_partial);
    lemma_basefold_len(p.pcs_open, s);
    let skip = pow2(f.k_skip as nat);
    let a = (f.m - f.k_skip) as nat;
    let c = (f.k_log - f.k_skip) as nat;
    assert(((skip * 2 + a * 2 + 3) + (c * 2 + skip)) * 32 == skip * 32 + skip * 32 + a * 64 + 96
        + c * 64 + skip * 32) by (nonlinear_arith);
}

// ---------------------------------------------------------------------------
// Writing
// ---------------------------------------------------------------------------

fn put_f128(out: &mut Vec<u8>, value: WireF128)
    ensures
        final(out)@ == old(out)@ + enc_f128(value),
{
    proof {
        reveal(enc_f128);
    }
    put_le(out, value.lo as u128, 8);
    put_le(out, value.hi as u128, 8);
    assert(out@ =~= old(out)@ + enc_f128(value));
}

fn put_f256(out: &mut Vec<u8>, value: WireF256)
    ensures
        final(out)@ == old(out)@ + enc_f256(value),
{
    put_f128(out, value.lo);
    put_f128(out, value.hi);
    assert(out@ =~= old(out)@ + enc_f256(value));
}

fn put_hash(out: &mut Vec<u8>, value: &[u8; 32])
    ensures
        final(out)@ == old(out)@ + value@,
{
    put_bytes(out, value);
}

/// Writes field elements where there are as many as expected.
fn encode_f128_vec(out: &mut Vec<u8>, values: &Vec<WireF128>, expected: usize) -> (ok: bool)
    ensures
        ok <==> values@.len() == expected,
        ok ==> final(out)@ == old(out)@ + enc_f128s(values@),
        !ok ==> final(out)@ == old(out)@,
{
    if values.len() != expected {
        return false;
    }
    let mut i: usize = 0;
    assert(values@.take(0) =~= Seq::empty());
    assert(out@ =~= old(out)@ + enc_f128s(values@.take(0)));
    while i < values.len()
        invariant
            i <= values@.len(),
            out@ == old(out)@ + enc_f128s(values@.take(i as int)),
        decreases values@.len() - i,
    {
        let ghost before = out@;
        put_f128(out, values[i]);
        proof {
            assert(values@.take(i + 1) =~= values@.take(i as int).push(values@[i as int]));
            lemma_enc_all_push(values@.take(i as int), values@[i as int], |x: WireF128| enc_f128(x));
            assert(out@ =~= old(out)@ + enc_f128s(values@.take(i + 1)));
        }
        i += 1;
    }
    assert(values@.take(i as int) =~= values@);
    true
}

/// Writes extension elements where there are as many as expected.
fn encode_f256_vec(out: &mut Vec<u8>, values: &Vec<WireF256>, expected: usize) -> (ok: bool)
    ensures
        ok <==> values@.len() == expected,
        ok ==> final(out)@ == old(out)@ + enc_f256s(values@),
        !ok ==> final(out)@ == old(out)@,
{
    if values.len() != expected {
        return false;
    }
    let mut i: usize = 0;
    assert(values@.take(0) =~= Seq::empty());
    assert(out@ =~= old(out)@ + enc_f256s(values@.take(0)));
    while i < values.len()
        invariant
            i <= values@.len(),
            out@ == old(out)@ + enc_f256s(values@.take(i as int)),
        decreases values@.len() - i,
    {
        put_f256(out, values[i]);
        proof {
            assert(values@.take(i + 1) =~= values@.take(i as int).push(values@[i as int]));
            lemma_enc_all_push(values@.take(i as int), values@[i as int], |x: WireF256| enc_f256(x));
            assert(out@ =~= old(out)@ + enc_f256s(values@.take(i + 1)));
        }
        i += 1;
    }
    assert(values@.take(i as int) =~= values@);
    true
}

/// Writes pairs where there are as many as expected.
fn encode_f256_pair_vec(
    out: &mut Vec<u8>,
    values: &Vec<(WireF256, WireF256)>,
    expected: usize,
) -> (ok: bool)
    ensures
        ok <==> values@.len() == expected,
        ok ==> final(out)@ == old(out)@ + enc_pairs(values@),
        !ok ==> final(out)@ == old(out)@,
{
    if values.len() != expected {
        return false;
    }
    let mut i: usize = 0;
    assert(values@.take(0) =~= Seq::empty());
    assert(out@ =~= old(out)@ + enc_pairs(values@.take(0)));
    while i < values.len()
        invariant
            i <= values@.len(),
            out@ == old(out)@ + enc_pairs(values@.take(i as int)),
        decreases values@.len() - i,
    {
        put_f256(out, values[i].0);
        put_f256(out, values[i].1);
        proof {
            assert(values@.take(i + 1) =~= values@.take(i as int).push(values@[i as int]));
            lemma_enc_all_push(
                values@.take(i as int),
                values@[i as int],
                |x: (WireF256, WireF256)| enc_pair(x),
            );
            assert(out@ =~= old(out)@ + enc_pairs(values@.take(i + 1)));
        }
        i += 1;
    }
    assert(values@.take(i as int) =~= values@);
    true
}

/// Writes hashes where there are as many as expected.
fn encode_hash_vec(out: &mut Vec<u8>, values: &Vec<[u8; 32]>, expected: usize) -> (ok: bool)
    ensures
        ok <==> values@.len() == expected,
        ok ==> final(out)@ == old(out)@ + enc_hashes(hashes(values@)),
        !ok ==> final(out)@ == old(out)@,
{
    if values.len() != expected {
        return false;
    }
    let mut i: usize = 0;
    let ghost all = hashes(values@);
    assert(all.take(0) =~= Seq::empty());
    assert(out@ =~= old(out)@ + enc_hashes(all.take(0)));
    while i < values.len()
        invariant
            i <= values@.len(),
            all == hashes(values@),
            out@ == old(out)@ + enc_hashes(all.take(i as int)),
        decreases values@.len() - i,
    {
        put_hash(out, &values[i]);
        proof {
            assert(all.take(i + 1) =~= all.take(i as int).push(all[i as int]));
            lemma_enc_all_push(all.take(i as int), all[i as int], |x: Seq<u8>| x);
            assert(out@ =~= old(out)@ + enc_hashes(all.take(i + 1)));
        }
        i += 1;
    }
    assert(all.take(i as int) =~= all);
    true
}

proof fn lemma_hash_rows(s: Seq<[u8; 32]>)
    ensures
        hashes_ok(hashes(s)),
{
    assert forall|i: int| 0 <= i < s.len() implies (#[trigger] hashes(s)[i]).len() == 32 by {
        assert(s[i]@.len() == 32);
    }
}

proof fn lemma_u64_bound(v: u64)
    ensures
        (v as nat) < pow2(64),
{
    vstd::arithmetic::power2::lemma2_to64();
    vstd::arithmetic::power2::lemma2_to64_rest();
}

/// Writes a query of the shape.
fn encode_query(out: &mut Vec<u8>, query: &C1QueryOpening, shape: &BaseFoldWireShape) -> (ok: bool)
    ensures
        ok <==> query_ok(query@, shape),
        ok ==> final(out)@ == old(out)@ + enc_query(query@),
{
    let ghost v = query@;
    proof {
        lemma_hash_rows(query.initial_path@);
        lemma_hash_rows(query.post_row_batch_path@);
        lemma_u64_bound(query.position);
    }
    put_le(out, query.position as u128, 8);
    if !encode_f128_vec(out, &query.initial_leaf, shape.initial_leaf) {
        return false;
    }
    if !encode_hash_vec(out, &query.initial_path, shape.initial_path) {
        return false;
    }
    if !encode_f256_vec(out, &query.post_row_batch_leaf, shape.post_row_batch_leaf) {
        return false;
    }
    if !encode_hash_vec(out, &query.post_row_batch_path, shape.post_row_batch_path) {
        return false;
    }
    if query.epoch_leaves.len() != shape.epoch_shapes.len() || query.epoch_paths.len()
        != shape.epoch_shapes.len() {
        return false;
    }
    let mut i: usize = 0;
    let ghost head = le_bytes(v.position, 8) + enc_f128s(v.initial_leaf) + enc_hashes(
        v.initial_path,
    ) + enc_f256s(v.post_leaf) + enc_hashes(v.post_path);
    assert(out@ =~= old(out)@ + (head + enc_epochs(v, 0)));
    while i < shape.epoch_shapes.len()
        invariant
            i <= shape.epoch_shapes@.len(),
            v == query@,
            query.epoch_leaves@.len() == shape.epoch_shapes@.len(),
            query.epoch_paths@.len() == shape.epoch_shapes@.len(),
            out@ == old(out)@ + (head + enc_epochs(v, i as nat)),
            forall|j: int| 0 <= j < i ==> #[trigger] epoch_ok(v, shape, j),
        decreases shape.epoch_shapes@.len() - i,
    {
        proof {
            lemma_hash_rows(query.epoch_paths@[i as int]@);
            assert(v.epoch_leaves[i as int] == query.epoch_leaves@[i as int]@);
            assert(v.epoch_paths[i as int] == hashes(query.epoch_paths@[i as int]@));
        }
        if !encode_f256_vec(out, &query.epoch_leaves[i], shape.epoch_shapes[i].0) {
            assert(!epoch_ok(v, shape, i as int));
            return false;
        }
        if !encode_hash_vec(out, &query.epoch_paths[i], shape.epoch_shapes[i].1) {
            assert(!epoch_ok(v, shape, i as int));
            return false;
        }
        assert(epoch_ok(v, shape, i as int));
        assert(out@ =~= old(out)@ + (head + enc_epochs(v, (i + 1) as nat)));
        i += 1;
    }
    true
}

/// Writes an opening proof of the shape.
fn encode_basefold(
    out: &mut Vec<u8>,
    proof: &C1BaseFoldProof,
    shape: &BaseFoldWireShape,
) -> (ok: bool)
    ensures
        ok <==> basefold_ok(proof@, shape),
        ok ==> final(out)@ == old(out)@ + enc_basefold(proof@),
{
    let ghost v = proof@;
    let ghost start = out@;
    proof {
        lemma_hash_rows(proof.round_commitments@);
        lemma_u64_bound(proof.pow_nonce);
    }
    if proof.round_messages.len() != shape.round_messages || proof.round_commitments.len()
        != shape.round_commitments || proof.queries.len() != shape.queries {
        return false;
    }
    let mut i: usize = 0;
    assert(v.messages.take(0) =~= Seq::empty());
    assert(out@ =~= start + enc_messages(v.messages.take(0)));
    while i < proof.round_messages.len()
        invariant
            i <= proof.round_messages@.len(),
            v == proof@,
            out@ == start + enc_messages(v.messages.take(i as int)),
        decreases proof.round_messages@.len() - i,
    {
        put_f256(out, proof.round_messages[i].u_0);
        put_f256(out, proof.round_messages[i].u_2);
        proof {
            assert(v.messages.take(i + 1) =~= v.messages.take(i as int).push(v.messages[i as int]));
            lemma_enc_all_push(
                v.messages.take(i as int),
                v.messages[i as int],
                |x: C1RoundMessage| enc_message(x),
            );
            assert(out@ =~= start + enc_messages(v.messages.take(i + 1)));
        }
        i += 1;
    }
    assert(v.messages.take(i as int) =~= v.messages);
    put_hash(out, &proof.post_row_batch_commit);
    if !encode_hash_vec(out, &proof.round_commitments, shape.round_commitments) {
        return false;
    }
    put_f256(out, proof.final_a);
    put_f256(out, proof.final_b);
    if !encode_f256_vec(out, &proof.final_codeword, shape.final_codeword) {
        return false;
    }
    if !encode_f256_vec(out, &proof.plaintext_tail, shape.plaintext_tail) {
        return false;
    }
    put_le(out, proof.pow_nonce as u128, 8);
    let ghost head = enc_messages(v.messages) + v.post_commit + enc_hashes(v.commitments)
        + enc_f256(v.final_a) + enc_f256(v.final_b) + enc_f256s(v.final_codeword) + enc_f256s(
        v.tail,
    ) + le_bytes(v.nonce, 8);
    assert(out@ =~= start + head);
    let mut k: usize = 0;
    assert(v.queries.take(0) =~= Seq::empty());
    assert(out@ =~= start + (head + enc_queries(v.queries.take(0))));
    while k < proof.queries.len()
        invariant
            k <= proof.queries@.len(),
            v == proof@,
            out@ == start + (head + enc_queries(v.queries.take(k as int))),
            forall|j: int| 0 <= j < k ==> query_ok(#[trigger] v.queries[j], shape),
        decreases proof.queries@.len() - k,
    {
        assert(v.queries[k as int] == proof.queries@[k as int]@);
        if !encode_query(out, &proof.queries[k], shape) {
            return false;
        }
        proof {
            assert(v.queries.take(k + 1) =~= v.queries.take(k as int).push(v.queries[k as int]));
            lemma_enc_all_push(
                v.queries.take(k as int),
                v.queries[k as int],
                |x: QueryValue| enc_query(x),
            );
            assert(out@ =~= start + (head + enc_queries(v.queries.take(k + 1))));
        }
        k += 1;
    }
    assert(v.queries.take(k as int) =~= v.queries);
    true
}

/// Writes a field proof of the shape.
#[verifier::rlimit(40)]
fn encode_field_proof(
    out: &mut Vec<u8>,
    proof: &C1FieldR1csProof,
    skip: usize,
    shape: FieldShape,
    opening: &BaseFoldWireShape,
) -> (ok: bool)
    requires
        field_shape_ok(shape),
        skip == pow2(shape.k_skip as nat),
    ensures
        ok <==> field_proof_ok(proof@, shape, opening),
        ok ==> final(out)@ == old(out)@ + enc_field_proof(proof@),
{
    let ghost v = proof@;
    let ghost start = out@;
    if !encode_f256_vec(out, &proof.round1_ab, skip) {
        return false;
    }
    if !encode_f256_vec(out, &proof.round1_c, skip) {
        return false;
    }
    if !encode_f256_pair_vec(out, &proof.multilinear_rounds, shape.m - shape.k_skip) {
        return false;
    }
    put_f256(out, proof.final_a_eval);
    put_f256(out, proof.final_b_eval);
    put_f256(out, proof.final_c_eval);
    if !encode_f256_pair_vec(out, &proof.lincheck_rounds, shape.k_log - shape.k_skip) {
        return false;
    }
    if !encode_f256_vec(out, &proof.z_partial, skip) {
        return false;
    }
    if !encode_basefold(out, &proof.pcs_open, opening) {
        return false;
    }
    assert(out@ =~= start + enc_field_proof(v));
    true
}

// ---------------------------------------------------------------------------
// Reading
// ---------------------------------------------------------------------------

/// A position in bytes.
struct Reader<'a> {
    bytes: &'a [u8],
    position: usize,
}

/// Bytes split into an encoding and what follows it.
spec fn splits(from: Seq<u8>, enc: Seq<u8>, to: Seq<u8>) -> bool {
    from == enc + to
}

proof fn lemma_splits(a: Seq<u8>, e: Seq<u8>, b: Seq<u8>, f: Seq<u8>, c: Seq<u8>)
    requires
        splits(a, e, b),
        splits(b, f, c),
    ensures
        splits(a, e + f, c),
{
    assert(a =~= (e + f) + c);
}

impl<'a> Reader<'a> {
    spec fn ok(&self) -> bool {
        self.position <= self.bytes@.len()
    }

    spec fn rest(&self) -> Seq<u8> {
        self.bytes@.skip(self.position as int)
    }

    fn new(bytes: &'a [u8]) -> (r: Self)
        ensures
            r.ok(),
            r.rest() == bytes@,
    {
        let r = Reader { bytes, position: 0 };
        assert(r.rest() =~= bytes@);
        r
    }

    /// Moves over `count` bytes and gives where they start.
    fn take(&mut self, count: usize) -> (r: Option<usize>)
        requires
            old(self).ok(),
        ensures
            final(self).ok(),
            final(self).bytes == old(self).bytes,
            match r {
                Some(start) => start == old(self).position && start + count
                    <= final(self).bytes@.len() && splits(
                    old(self).rest(),
                    final(self).bytes@.subrange(start as int, start + count),
                    final(self).rest(),
                ),
                None => old(self).rest().len() < count && *final(self) == *old(self),
            },
    {
        let start: usize = self.position;
        if count > self.bytes.len() - start {
            return None;
        }
        self.position = start + count;
        assert(old(self).rest() =~= self.bytes@.subrange(start as int, start + count)
            + self.rest());
        Some(start)
    }

    fn byte(&mut self) -> (r: Option<u8>)
        requires
            old(self).ok(),
        ensures
            final(self).ok(),
            match r {
                Some(v) => splits(old(self).rest(), seq![v], final(self).rest()),
                None => old(self).rest().len() < 1,
            },
    {
        let start: usize = self.take(1)?;
        let v: u8 = self.bytes[start];
        assert(self.bytes@.subrange(start as int, start + 1) =~= seq![v]);
        Some(v)
    }

    fn integer(&mut self) -> (r: Option<u64>)
        requires
            old(self).ok(),
        ensures
            final(self).ok(),
            match r {
                Some(v) => splits(old(self).rest(), le_bytes(v as nat, 8), final(self).rest()),
                None => old(self).rest().len() < 8,
            },
    {
        let start: usize = self.take(8)?;
        let v: u128 = get_le(self.bytes, start, 8);
        proof {
            crate::bytes::lemma_le_value_bound(self.bytes@.subrange(start as int, start + 8));
            vstd::arithmetic::power2::lemma2_to64_rest();
            assert(v < 0x1_0000_0000_0000_0000);
        }
        Some(v as u64)
    }

    fn element(&mut self) -> (r: Option<WireF128>)
        requires
            old(self).ok(),
        ensures
            final(self).ok(),
            match r {
                Some(v) => splits(old(self).rest(), enc_f128(v), final(self).rest()),
                None => old(self).rest().len() < 16,
            },
    {
        proof {
            reveal(enc_f128);
        }
        let ghost a = self.rest();
        let lo: u64 = self.integer()?;
        let ghost b = self.rest();
        proof {
            lemma_le_bytes_len(lo as nat, 8);
        }
        let hi: u64 = self.integer()?;
        proof {
            lemma_splits(a, le_bytes(lo as nat, 8), b, le_bytes(hi as nat, 8), self.rest());
        }
        Some(WireF128 { lo, hi })
    }

    fn extension(&mut self) -> (r: Option<WireF256>)
        requires
            old(self).ok(),
        ensures
            final(self).ok(),
            match r {
                Some(v) => splits(old(self).rest(), enc_f256(v), final(self).rest()),
                None => old(self).rest().len() < 32,
            },
    {
        let ghost a = self.rest();
        let lo = self.element()?;
        let ghost b = self.rest();
        proof {
            lemma_f128_len(lo);
        }
        let hi = self.element()?;
        proof {
            lemma_splits(a, enc_f128(lo), b, enc_f128(hi), self.rest());
        }
        Some(WireF256 { lo, hi })
    }

    fn digest(&mut self) -> (r: Option<[u8; 32]>)
        requires
            old(self).ok(),
        ensures
            final(self).ok(),
            match r {
                Some(v) => splits(old(self).rest(), v@, final(self).rest()),
                None => old(self).rest().len() < 32,
            },
    {
        let start: usize = self.take(HASH_BYTES)?;
        let mut out: [u8; 32] = [0u8;32];
        let mut i: usize = 0;
        let total: usize = self.bytes.len();
        while i < 32
            invariant
                i <= 32,
                total == self.bytes@.len(),
                start + 32 <= self.bytes@.len(),
                forall|j: int| 0 <= j < i ==> out@[j] == self.bytes@[start + j],
            decreases 32 - i,
        {
            out[i] = self.bytes[start + i];
            i += 1;
        }
        assert(out@ =~= self.bytes@.subrange(start as int, start + 32));
        Some(out)
    }
}

fn decode_f128_vec(reader: &mut Reader, count: usize) -> (r: Option<Vec<WireF128>>)
    requires
        old(reader).ok(),
    ensures
        final(reader).ok(),
        match r {
            Some(v) => v@.len() == count && splits(
                old(reader).rest(),
                enc_f128s(v@),
                final(reader).rest(),
            ),
            None => old(reader).rest().len() < count * 16,
        },
{
    let ghost a = reader.rest();
    let mut values: Vec<WireF128> = Vec::new();
    assert(reader.rest() =~= enc_f128s(values@) + reader.rest());
    while values.len() < count
        invariant
            reader.ok(),
            a == old(reader).rest(),
            values@.len() <= count,
            splits(a, enc_f128s(values@), reader.rest()),
        decreases count - values@.len(),
    {
        let ghost b = reader.rest();
        let ghost before = values@;
        proof {
            lemma_f128s_len(before);
        }
        let x = reader.element()?;
        values.push(x);
        proof {
            lemma_splits(a, enc_f128s(before), b, enc_f128(x), reader.rest());
            lemma_enc_all_push(before, x, |x: WireF128| enc_f128(x));
        }
    }
    Some(values)
}

fn decode_f256_vec(reader: &mut Reader, count: usize) -> (r: Option<Vec<WireF256>>)
    requires
        old(reader).ok(),
    ensures
        final(reader).ok(),
        match r {
            Some(v) => v@.len() == count && splits(
                old(reader).rest(),
                enc_f256s(v@),
                final(reader).rest(),
            ),
            None => old(reader).rest().len() < count * 32,
        },
{
    let ghost a = reader.rest();
    let mut values: Vec<WireF256> = Vec::new();
    assert(reader.rest() =~= enc_f256s(values@) + reader.rest());
    while values.len() < count
        invariant
            reader.ok(),
            a == old(reader).rest(),
            values@.len() <= count,
            splits(a, enc_f256s(values@), reader.rest()),
        decreases count - values@.len(),
    {
        let ghost b = reader.rest();
        let ghost before = values@;
        proof {
            lemma_f256s_len(before);
        }
        let x = reader.extension()?;
        values.push(x);
        proof {
            lemma_splits(a, enc_f256s(before), b, enc_f256(x), reader.rest());
            lemma_enc_all_push(before, x, |x: WireF256| enc_f256(x));
        }
    }
    Some(values)
}

fn decode_f256_pair_vec(reader: &mut Reader, count: usize) -> (r: Option<Vec<(WireF256, WireF256)>>)
    requires
        old(reader).ok(),
    ensures
        final(reader).ok(),
        match r {
            Some(v) => v@.len() == count && splits(
                old(reader).rest(),
                enc_pairs(v@),
                final(reader).rest(),
            ),
            None => old(reader).rest().len() < count * 64,
        },
{
    let ghost a = reader.rest();
    let mut values: Vec<(WireF256, WireF256)> = Vec::new();
    assert(reader.rest() =~= enc_pairs(values@) + reader.rest());
    while values.len() < count
        invariant
            reader.ok(),
            a == old(reader).rest(),
            values@.len() <= count,
            splits(a, enc_pairs(values@), reader.rest()),
        decreases count - values@.len(),
    {
        let ghost b = reader.rest();
        let ghost before = values@;
        proof {
            lemma_pairs_len(before);
        }
        let x = reader.extension()?;
        let ghost c = reader.rest();
        proof {
            lemma_f256_len(x);
        }
        let y = reader.extension()?;
        values.push((x, y));
        proof {
            lemma_splits(b, enc_f256(x), c, enc_f256(y), reader.rest());
            lemma_splits(a, enc_pairs(before), b, enc_pair((x, y)), reader.rest());
            lemma_enc_all_push(before, (x, y), |x: (WireF256, WireF256)| enc_pair(x));
        }
    }
    Some(values)
}

fn decode_messages(reader: &mut Reader, count: usize) -> (r: Option<Vec<C1RoundMessage>>)
    requires
        old(reader).ok(),
    ensures
        final(reader).ok(),
        match r {
            Some(v) => v@.len() == count && splits(
                old(reader).rest(),
                enc_messages(v@),
                final(reader).rest(),
            ),
            None => old(reader).rest().len() < count * 64,
        },
{
    let ghost a = reader.rest();
    let mut values: Vec<C1RoundMessage> = Vec::new();
    assert(reader.rest() =~= enc_messages(values@) + reader.rest());
    while values.len() < count
        invariant
            reader.ok(),
            a == old(reader).rest(),
            values@.len() <= count,
            splits(a, enc_messages(values@), reader.rest()),
        decreases count - values@.len(),
    {
        let ghost b = reader.rest();
        let ghost before = values@;
        proof {
            lemma_messages_len(before);
        }
        let u_0 = reader.extension()?;
        let ghost c = reader.rest();
        proof {
            lemma_f256_len(u_0);
        }
        let u_2 = reader.extension()?;
        let message = C1RoundMessage { u_0, u_2 };
        values.push(message);
        proof {
            lemma_splits(b, enc_f256(u_0), c, enc_f256(u_2), reader.rest());
            lemma_splits(a, enc_messages(before), b, enc_message(message), reader.rest());
            lemma_enc_all_push(before, message, |x: C1RoundMessage| enc_message(x));
        }
    }
    Some(values)
}

fn decode_hash_vec(reader: &mut Reader, count: usize) -> (r: Option<Vec<[u8; 32]>>)
    requires
        old(reader).ok(),
    ensures
        final(reader).ok(),
        match r {
            Some(v) => v@.len() == count && hashes_ok(hashes(v@)) && splits(
                old(reader).rest(),
                enc_hashes(hashes(v@)),
                final(reader).rest(),
            ),
            None => old(reader).rest().len() < count * 32,
        },
{
    let ghost a = reader.rest();
    let mut values: Vec<[u8; 32]> = Vec::new();
    assert(reader.rest() =~= enc_hashes(hashes(values@)) + reader.rest());
    while values.len() < count
        invariant
            reader.ok(),
            a == old(reader).rest(),
            values@.len() <= count,
            splits(a, enc_hashes(hashes(values@)), reader.rest()),
        decreases count - values@.len(),
    {
        let ghost b = reader.rest();
        let ghost before = values@;
        proof {
            lemma_hash_rows(before);
            lemma_hashes_len(hashes(before));
        }
        let x = reader.digest()?;
        values.push(x);
        proof {
            lemma_splits(a, enc_hashes(hashes(before)), b, x@, reader.rest());
            lemma_enc_all_push(hashes(before), x@, |x: Seq<u8>| x);
            assert(hashes(values@) =~= hashes(before).push(x@));
        }
    }
    proof {
        lemma_hash_rows(values@);
    }
    Some(values)
}

/// Reads a query of the shape.
#[verifier::rlimit(40)]
fn decode_query(reader: &mut Reader, shape: &BaseFoldWireShape) -> (r: Option<C1QueryOpening>)
    requires
        old(reader).ok(),
    ensures
        final(reader).ok(),
        match r {
            Some(v) => query_ok(v@, shape) && splits(
                old(reader).rest(),
                enc_query(v@),
                final(reader).rest(),
            ),
            None => old(reader).rest().len() < shape.query_len(),
        },
{
    let ghost a = reader.rest();
    proof {
        shape.lemma_epochs_grow(0, shape.epoch_shapes@.len());
    }
    let position: u64 = reader.integer()?;
    let ghost r1 = reader.rest();
    let ghost e1 = le_bytes(position as nat, 8);
    proof {
        lemma_le_bytes_len(position as nat, 8);
        lemma_u64_bound(position);
    }
    let initial_leaf = decode_f128_vec(reader, shape.initial_leaf)?;
    let ghost r2 = reader.rest();
    let ghost e2 = e1 + enc_f128s(initial_leaf@);
    proof {
        lemma_splits(a, e1, r1, enc_f128s(initial_leaf@), r2);
        lemma_f128s_len(initial_leaf@);
    }
    let initial_path = decode_hash_vec(reader, shape.initial_path)?;
    let ghost r3 = reader.rest();
    let ghost e3 = e2 + enc_hashes(hashes(initial_path@));
    proof {
        lemma_splits(a, e2, r2, enc_hashes(hashes(initial_path@)), r3);
        lemma_hashes_len(hashes(initial_path@));
    }
    let post_row_batch_leaf = decode_f256_vec(reader, shape.post_row_batch_leaf)?;
    let ghost r4 = reader.rest();
    let ghost e4 = e3 + enc_f256s(post_row_batch_leaf@);
    proof {
        lemma_splits(a, e3, r3, enc_f256s(post_row_batch_leaf@), r4);
        lemma_f256s_len(post_row_batch_leaf@);
    }
    let post_row_batch_path = decode_hash_vec(reader, shape.post_row_batch_path)?;
    let ghost r5 = reader.rest();
    let ghost e5 = e4 + enc_hashes(hashes(post_row_batch_path@));
    proof {
        lemma_splits(a, e4, r4, enc_hashes(hashes(post_row_batch_path@)), r5);
        lemma_hashes_len(hashes(post_row_batch_path@));
        assert(e5.len() == shape.query_head_len());
    }
    let mut query = C1QueryOpening {
        position,
        initial_leaf,
        initial_path,
        post_row_batch_leaf,
        post_row_batch_path,
        epoch_leaves: Vec::new(),
        epoch_paths: Vec::new(),
    };
    let mut i: usize = 0;
    let ghost opened = query@;
    assert(e5 + enc_epochs(query@, 0) =~= e5);
    while i < shape.epoch_shapes.len()
        invariant
            i <= shape.epoch_shapes@.len(),
            a == old(reader).rest(),
            reader.ok(),
            query@.position == opened.position,
            query@.initial_leaf == opened.initial_leaf,
            query@.initial_path == opened.initial_path,
            query@.post_leaf == opened.post_leaf,
            query@.post_path == opened.post_path,
            query.epoch_leaves@.len() == i,
            query.epoch_paths@.len() == i,
            e5.len() == shape.query_head_len(),
            splits(a, e5 + enc_epochs(query@, i as nat), reader.rest()),
            enc_epochs(query@, i as nat).len() == shape.epochs_len(i as nat),
            forall|j: int| 0 <= j < i ==> #[trigger] epoch_ok(query@, shape, j),
        decreases shape.epoch_shapes@.len() - i,
    {
        let ghost before = query@;
        let ghost s0 = reader.rest();
        let ghost d0 = e5 + enc_epochs(before, i as nat);
        proof {
            shape.lemma_epochs_grow((i + 1) as nat, shape.epoch_shapes@.len());
        }
        let leaves = decode_f256_vec(reader, shape.epoch_shapes[i].0)?;
        let ghost s1 = reader.rest();
        let ghost le = enc_f256s(leaves@);
        proof {
            lemma_splits(a, d0, s0, le, s1);
            lemma_f256s_len(leaves@);
        }
        let paths = decode_hash_vec(reader, shape.epoch_shapes[i].1)?;
        let ghost s2 = reader.rest();
        let ghost pe = enc_hashes(hashes(paths@));
        proof {
            lemma_splits(a, d0 + le, s1, pe, s2);
            lemma_hashes_len(hashes(paths@));
        }
        query.epoch_leaves.push(leaves);
        query.epoch_paths.push(paths);
        proof {
            let after = query@;
            assert forall|j: int| 0 <= j < i implies after.epoch_leaves[j]
                == before.epoch_leaves[j] && after.epoch_paths[j] == before.epoch_paths[j] by {}
            lemma_epochs_agree(before, after, i as nat);
            assert(after.epoch_leaves[i as int] == leaves@);
            assert(after.epoch_paths[i as int] == hashes(paths@));
            assert(enc_epochs(after, (i + 1) as nat) == enc_epochs(before, i as nat) + le + pe);
            assert(e5 + enc_epochs(after, (i + 1) as nat) =~= d0 + le + pe);
            assert forall|j: int| 0 <= j <= i implies #[trigger] epoch_ok(after, shape, j) by {
                if j < i {
                    assert(epoch_ok(before, shape, j));
                }
            }
        }
        i += 1;
    }
    assert(enc_query(query@) =~= e5 + enc_epochs(query@, i as nat));
    Some(query)
}

proof fn lemma_epochs_agree(p: QueryValue, q: QueryValue, n: nat)
    requires
        forall|j: int|
            0 <= j < n ==> #[trigger] q.epoch_leaves[j] == p.epoch_leaves[j] && q.epoch_paths[j]
                == p.epoch_paths[j],
    ensures
        enc_epochs(q, n) == enc_epochs(p, n),
    decreases n,
{
    if n > 0 {
        lemma_epochs_agree(p, q, (n - 1) as nat);
        assert(q.epoch_leaves[n - 1] == p.epoch_leaves[n - 1]);
    }
}

/// Reads queries of the shape.
fn decode_queries(reader: &mut Reader, shape: &BaseFoldWireShape) -> (r: Option<
    Vec<C1QueryOpening>,
>)
    requires
        old(reader).ok(),
    ensures
        final(reader).ok(),
        match r {
            Some(v) => v@.len() == shape.queries && splits(
                old(reader).rest(),
                enc_queries(query_views(v@)),
                final(reader).rest(),
            ) && forall|i: int| 0 <= i < v@.len() ==> query_ok(#[trigger] query_views(v@)[i], shape),
            None => old(reader).rest().len() < shape.queries * shape.query_len(),
        },
{
    let ghost a = reader.rest();
    let mut values: Vec<C1QueryOpening> = Vec::new();
    assert(query_views(values@) =~= Seq::empty());
    assert(reader.rest() =~= enc_queries(query_views(values@)) + reader.rest());
    while values.len() < shape.queries
        invariant
            reader.ok(),
            a == old(reader).rest(),
            values@.len() <= shape.queries,
            splits(a, enc_queries(query_views(values@)), reader.rest()),
            forall|i: int|
                0 <= i < values@.len() ==> query_ok(#[trigger] query_views(values@)[i], shape),
        decreases shape.queries - values@.len(),
    {
        let ghost b = reader.rest();
        let ghost before = query_views(values@);
        proof {
            lemma_queries_len(before, shape);
            let (n, q, k) = (shape.queries as int, before.len() as int, shape.query_len() as int);
            assert(q * k + k <= n * k) by (nonlinear_arith)
                requires
                    q + 1 <= n,
                    k >= 0,
            ;
        }
        let x = decode_query(reader, shape)?;
        let ghost v = x@;
        values.push(x);
        proof {
            lemma_splits(a, enc_queries(before), b, enc_query(v), reader.rest());
            lemma_enc_all_push(before, v, |x: QueryValue| enc_query(x));
            assert(query_views(values@) =~= before.push(v));
        }
    }
    Some(values)
}

/// Reads an opening proof of the shape.
#[verifier::rlimit(40)]
fn decode_basefold(reader: &mut Reader, shape: &BaseFoldWireShape) -> (r: Option<C1BaseFoldProof>)
    requires
        old(reader).ok(),
    ensures
        final(reader).ok(),
        match r {
            Some(v) => basefold_ok(v@, shape) && splits(
                old(reader).rest(),
                enc_basefold(v@),
                final(reader).rest(),
            ),
            None => old(reader).rest().len() < shape.total_len(),
        },
{
    let ghost a = reader.rest();
    proof {
        let (n, k) = (shape.queries as int, shape.query_len() as int);
        assert(n * k >= 0) by (nonlinear_arith)
            requires
                n >= 0,
                k >= 0,
        ;
    }
    let round_messages = decode_messages(reader, shape.round_messages)?;
    let ghost r1 = reader.rest();
    let ghost e1 = enc_messages(round_messages@);
    proof {
        lemma_messages_len(round_messages@);
    }
    let post_row_batch_commit = reader.digest()?;
    let ghost r2 = reader.rest();
    let ghost e2 = e1 + post_row_batch_commit@;
    proof {
        lemma_splits(a, e1, r1, post_row_batch_commit@, r2);
    }
    let round_commitments = decode_hash_vec(reader, shape.round_commitments)?;
    let ghost r3 = reader.rest();
    let ghost e3 = e2 + enc_hashes(hashes(round_commitments@));
    proof {
        lemma_splits(a, e2, r2, enc_hashes(hashes(round_commitments@)), r3);
        lemma_hashes_len(hashes(round_commitments@));
    }
    let final_a = reader.extension()?;
    let ghost r4 = reader.rest();
    let ghost e4 = e3 + enc_f256(final_a);
    proof {
        lemma_splits(a, e3, r3, enc_f256(final_a), r4);
        lemma_f256_len(final_a);
    }
    let final_b = reader.extension()?;
    let ghost r5 = reader.rest();
    let ghost e5 = e4 + enc_f256(final_b);
    proof {
        lemma_splits(a, e4, r4, enc_f256(final_b), r5);
        lemma_f256_len(final_b);
    }
    let final_codeword = decode_f256_vec(reader, shape.final_codeword)?;
    let ghost r6 = reader.rest();
    let ghost e6 = e5 + enc_f256s(final_codeword@);
    proof {
        lemma_splits(a, e5, r5, enc_f256s(final_codeword@), r6);
        lemma_f256s_len(final_codeword@);
    }
    let plaintext_tail = decode_f256_vec(reader, shape.plaintext_tail)?;
    let ghost r7 = reader.rest();
    let ghost e7 = e6 + enc_f256s(plaintext_tail@);
    proof {
        lemma_splits(a, e6, r6, enc_f256s(plaintext_tail@), r7);
        lemma_f256s_len(plaintext_tail@);
    }
    let pow_nonce: u64 = reader.integer()?;
    let ghost r8 = reader.rest();
    let ghost e8 = e7 + le_bytes(pow_nonce as nat, 8);
    proof {
        lemma_splits(a, e7, r7, le_bytes(pow_nonce as nat, 8), r8);
        lemma_le_bytes_len(pow_nonce as nat, 8);
        lemma_u64_bound(pow_nonce);
        assert(e8.len() == shape.head_len());
    }
    let queries = decode_queries(reader, shape)?;
    proof {
        lemma_splits(a, e8, r8, enc_queries(query_views(queries@)), reader.rest());
    }
    Some(
        C1BaseFoldProof {
            round_messages,
            post_row_batch_commit,
            round_commitments,
            final_a,
            final_b,
            final_codeword,
            plaintext_tail,
            pow_nonce,
            queries,
        },
    )
}

/// Reads a field proof of the shape.
#[verifier::rlimit(40)]
fn decode_field_proof(
    reader: &mut Reader,
    skip: usize,
    shape: FieldShape,
    opening: &BaseFoldWireShape,
) -> (r: Option<C1FieldR1csProof>)
    requires
        old(reader).ok(),
        field_shape_ok(shape),
        skip == pow2(shape.k_skip as nat),
    ensures
        final(reader).ok(),
        match r {
            Some(v) => field_proof_ok(v@, shape, opening) && splits(
                old(reader).rest(),
                enc_field_proof(v@),
                final(reader).rest(),
            ),
            None => old(reader).rest().len() < field_proof_bytes(shape, opening),
        },
{
    let ghost a = reader.rest();
    proof {
        let (n, k) = (opening.queries as int, opening.query_len() as int);
        assert(n * k >= 0) by (nonlinear_arith)
            requires
                n >= 0,
                k >= 0,
        ;
        let (x, y, z) = (skip as int, shape.m - shape.k_skip, shape.k_log - shape.k_skip);
        assert(((x * 2 + y * 2 + 3) + (z * 2 + x)) * 32 == x * 32 + x * 32 + y * 64 + 96 + z * 64
            + x * 32) by (nonlinear_arith);
    }
    let round1_ab = decode_f256_vec(reader, skip)?;
    let ghost r1 = reader.rest();
    let ghost e1 = enc_f256s(round1_ab@);
    proof {
        lemma_f256s_len(round1_ab@);
    }
    let round1_c = decode_f256_vec(reader, skip)?;
    let ghost r2 = reader.rest();
    let ghost e2 = e1 + enc_f256s(round1_c@);
    proof {
        lemma_splits(a, e1, r1, enc_f256s(round1_c@), r2);
        lemma_f256s_len(round1_c@);
    }
    let multilinear_rounds = decode_f256_pair_vec(reader, shape.m - shape.k_skip)?;
    let ghost r3 = reader.rest();
    let ghost e3 = e2 + enc_pairs(multilinear_rounds@);
    proof {
        lemma_splits(a, e2, r2, enc_pairs(multilinear_rounds@), r3);
        lemma_pairs_len(multilinear_rounds@);
    }
    let final_a_eval = reader.extension()?;
    let ghost r4 = reader.rest();
    let ghost e4 = e3 + enc_f256(final_a_eval);
    proof {
        lemma_splits(a, e3, r3, enc_f256(final_a_eval), r4);
        lemma_f256_len(final_a_eval);
    }
    let final_b_eval = reader.extension()?;
    let ghost r5 = reader.rest();
    let ghost e5 = e4 + enc_f256(final_b_eval);
    proof {
        lemma_splits(a, e4, r4, enc_f256(final_b_eval), r5);
        lemma_f256_len(final_b_eval);
    }
    let final_c_eval = reader.extension()?;
    let ghost r6 = reader.rest();
    let ghost e6 = e5 + enc_f256(final_c_eval);
    proof {
        lemma_splits(a, e5, r5, enc_f256(final_c_eval), r6);
        lemma_f256_len(final_c_eval);
    }
    let lincheck_rounds = decode_f256_pair_vec(reader, shape.k_log - shape.k_skip)?;
    let ghost r7 = reader.rest();
    let ghost e7 = e6 + enc_pairs(lincheck_rounds@);
    proof {
        lemma_splits(a, e6, r6, enc_pairs(lincheck_rounds@), r7);
        lemma_pairs_len(lincheck_rounds@);
    }
    let z_partial = decode_f256_vec(reader, skip)?;
    let ghost r8 = reader.rest();
    let ghost e8 = e7 + enc_f256s(z_partial@);
    proof {
        lemma_splits(a, e7, r7, enc_f256s(z_partial@), r8);
        lemma_f256s_len(z_partial@);
    }
    let pcs_open = decode_basefold(reader, opening)?;
    proof {
        lemma_splits(a, e8, r8, enc_basefold(pcs_open@), reader.rest());
    }
    Some(
        C1FieldR1csProof {
            round1_ab,
            round1_c,
            multilinear_rounds,
            final_a_eval,
            final_b_eval,
            final_c_eval,
            lincheck_rounds,
            z_partial,
            pcs_open,
        },
    )
}

// ---------------------------------------------------------------------------
// Injectivity
// ---------------------------------------------------------------------------

pub proof fn lemma_f128_injective(x: WireF128, y: WireF128)
    requires
        enc_f128(x) == enc_f128(y),
    ensures
        x == y,
{
    reveal(enc_f128);
    lemma_le_bytes_len(x.lo as nat, 8);
    lemma_le_bytes_len(y.lo as nat, 8);
    lemma_concat_injective(
        le_bytes(x.lo as nat, 8),
        le_bytes(x.hi as nat, 8),
        le_bytes(y.lo as nat, 8),
        le_bytes(y.hi as nat, 8),
    );
    lemma_u64_bound(x.lo);
    lemma_u64_bound(x.hi);
    lemma_u64_bound(y.lo);
    lemma_u64_bound(y.hi);
    lemma_le_value_bytes(x.lo as nat, 8);
    lemma_le_value_bytes(x.hi as nat, 8);
    lemma_le_value_bytes(y.lo as nat, 8);
    lemma_le_value_bytes(y.hi as nat, 8);
}

pub proof fn lemma_f256_injective(x: WireF256, y: WireF256)
    requires
        enc_f256(x) == enc_f256(y),
    ensures
        x == y,
{
    lemma_f128_len(x.lo);
    lemma_f128_len(y.lo);
    lemma_concat_injective(enc_f128(x.lo), enc_f128(x.hi), enc_f128(y.lo), enc_f128(y.hi));
    lemma_f128_injective(x.lo, y.lo);
    lemma_f128_injective(x.hi, y.hi);
}

proof fn lemma_pair_injective(a: WireF256, b: WireF256, c: WireF256, d: WireF256)
    requires
        enc_f256(a) + enc_f256(b) == enc_f256(c) + enc_f256(d),
    ensures
        a == c,
        b == d,
{
    lemma_f256_len(a);
    lemma_f256_len(c);
    lemma_concat_injective(enc_f256(a), enc_f256(b), enc_f256(c), enc_f256(d));
    lemma_f256_injective(a, c);
    lemma_f256_injective(b, d);
}

proof fn lemma_f128s_injective(s: Seq<WireF128>, t: Seq<WireF128>)
    requires
        s.len() == t.len(),
        enc_f128s(s) == enc_f128s(t),
    ensures
        s == t,
{
    let f = |x: WireF128| enc_f128(x);
    assert forall|i: int| 0 <= i < s.len() implies f(#[trigger] s[i]).len() == 16 by {
        lemma_f128_len(s[i]);
    }
    assert forall|i: int| 0 <= i < t.len() implies f(#[trigger] t[i]).len() == 16 by {
        lemma_f128_len(t[i]);
    }
    assert forall|i: int| 0 <= i < s.len() && f(#[trigger] s[i]) == f(t[i]) implies s[i]
        == t[i] by {
        lemma_f128_injective(s[i], t[i]);
    }
    lemma_enc_all_injective(s, t, f, 16);
}

proof fn lemma_f256s_injective(s: Seq<WireF256>, t: Seq<WireF256>)
    requires
        s.len() == t.len(),
        enc_f256s(s) == enc_f256s(t),
    ensures
        s == t,
{
    let f = |x: WireF256| enc_f256(x);
    assert forall|i: int| 0 <= i < s.len() implies f(#[trigger] s[i]).len() == 32 by {
        lemma_f256_len(s[i]);
    }
    assert forall|i: int| 0 <= i < t.len() implies f(#[trigger] t[i]).len() == 32 by {
        lemma_f256_len(t[i]);
    }
    assert forall|i: int| 0 <= i < s.len() && f(#[trigger] s[i]) == f(t[i]) implies s[i]
        == t[i] by {
        lemma_f256_injective(s[i], t[i]);
    }
    lemma_enc_all_injective(s, t, f, 32);
}

proof fn lemma_pairs_injective(s: Seq<(WireF256, WireF256)>, t: Seq<(WireF256, WireF256)>)
    requires
        s.len() == t.len(),
        enc_pairs(s) == enc_pairs(t),
    ensures
        s == t,
{
    let f = |x: (WireF256, WireF256)| enc_pair(x);
    assert forall|i: int| 0 <= i < s.len() implies f(#[trigger] s[i]).len() == 64 by {
        lemma_f256_len(s[i].0);
        lemma_f256_len(s[i].1);
    }
    assert forall|i: int| 0 <= i < t.len() implies f(#[trigger] t[i]).len() == 64 by {
        lemma_f256_len(t[i].0);
        lemma_f256_len(t[i].1);
    }
    assert forall|i: int| 0 <= i < s.len() && f(#[trigger] s[i]) == f(t[i]) implies s[i]
        == t[i] by {
        lemma_pair_injective(s[i].0, s[i].1, t[i].0, t[i].1);
    }
    lemma_enc_all_injective(s, t, f, 64);
}

proof fn lemma_messages_injective(s: Seq<C1RoundMessage>, t: Seq<C1RoundMessage>)
    requires
        s.len() == t.len(),
        enc_messages(s) == enc_messages(t),
    ensures
        s == t,
{
    let f = |x: C1RoundMessage| enc_message(x);
    assert forall|i: int| 0 <= i < s.len() implies f(#[trigger] s[i]).len() == 64 by {
        lemma_f256_len(s[i].u_0);
        lemma_f256_len(s[i].u_2);
    }
    assert forall|i: int| 0 <= i < t.len() implies f(#[trigger] t[i]).len() == 64 by {
        lemma_f256_len(t[i].u_0);
        lemma_f256_len(t[i].u_2);
    }
    assert forall|i: int| 0 <= i < s.len() && f(#[trigger] s[i]) == f(t[i]) implies s[i]
        == t[i] by {
        lemma_pair_injective(s[i].u_0, s[i].u_2, t[i].u_0, t[i].u_2);
    }
    lemma_enc_all_injective(s, t, f, 64);
}

proof fn lemma_hashes_injective(s: Seq<Seq<u8>>, t: Seq<Seq<u8>>)
    requires
        s.len() == t.len(),
        hashes_ok(s),
        hashes_ok(t),
        enc_hashes(s) == enc_hashes(t),
    ensures
        s == t,
{
    let f = |x: Seq<u8>| x;
    assert forall|i: int| 0 <= i < s.len() implies f(#[trigger] s[i]).len() == 32 by {}
    assert forall|i: int| 0 <= i < t.len() implies f(#[trigger] t[i]).len() == 32 by {}
    lemma_enc_all_injective(s, t, f, 32);
}

proof fn lemma_integer_injective(a: nat, b: nat)
    requires
        a < pow2(64),
        b < pow2(64),
        le_bytes(a, 8) == le_bytes(b, 8),
    ensures
        a == b,
{
    assert(8 * 8 == 64);
    lemma_le_value_bytes(a, 8);
    lemma_le_value_bytes(b, 8);
}

proof fn lemma_epochs_injective(p: QueryValue, q: QueryValue, s: &BaseFoldWireShape, n: nat)
    requires
        query_ok(p, s),
        query_ok(q, s),
        n <= s.epoch_shapes@.len(),
        enc_epochs(p, n) == enc_epochs(q, n),
    ensures
        forall|i: int|
            0 <= i < n ==> #[trigger] p.epoch_leaves[i] == q.epoch_leaves[i] && p.epoch_paths[i]
                == q.epoch_paths[i],
    decreases n,
{
    if n > 0 {
        let m = (n - 1) as nat;
        assert(epoch_ok(p, s, n - 1) && epoch_ok(q, s, n - 1));
        let (pl, ql) = (enc_f256s(p.epoch_leaves[n - 1]), enc_f256s(q.epoch_leaves[n - 1]));
        let (ph, qh) = (enc_hashes(p.epoch_paths[n - 1]), enc_hashes(q.epoch_paths[n - 1]));
        lemma_epochs_len(p, s, m);
        lemma_epochs_len(q, s, m);
        lemma_f256s_len(p.epoch_leaves[n - 1]);
        lemma_f256s_len(q.epoch_leaves[n - 1]);
        lemma_concat_injective(enc_epochs(p, m) + pl, ph, enc_epochs(q, m) + ql, qh);
        lemma_concat_injective(enc_epochs(p, m), pl, enc_epochs(q, m), ql);
        lemma_f256s_injective(p.epoch_leaves[n - 1], q.epoch_leaves[n - 1]);
        lemma_hashes_injective(p.epoch_paths[n - 1], q.epoch_paths[n - 1]);
        lemma_epochs_injective(p, q, s, m);
    }
}

proof fn lemma_query_injective(p: QueryValue, q: QueryValue, s: &BaseFoldWireShape)
    requires
        query_ok(p, s),
        query_ok(q, s),
        enc_query(p) == enc_query(q),
    ensures
        p == q,
{
    lemma_le_bytes_len(p.position, 8);
    lemma_le_bytes_len(q.position, 8);
    lemma_f128s_len(p.initial_leaf);
    lemma_f128s_len(q.initial_leaf);
    lemma_hashes_len(p.initial_path);
    lemma_hashes_len(q.initial_path);
    lemma_f256s_len(p.post_leaf);
    lemma_f256s_len(q.post_leaf);
    lemma_hashes_len(p.post_path);
    lemma_hashes_len(q.post_path);
    let n = s.epoch_shapes@.len();
    let (p1, q1) = (le_bytes(p.position, 8), le_bytes(q.position, 8));
    let (p2, q2) = (p1 + enc_f128s(p.initial_leaf), q1 + enc_f128s(q.initial_leaf));
    let (p3, q3) = (p2 + enc_hashes(p.initial_path), q2 + enc_hashes(q.initial_path));
    let (p4, q4) = (p3 + enc_f256s(p.post_leaf), q3 + enc_f256s(q.post_leaf));
    let (p5, q5) = (p4 + enc_hashes(p.post_path), q4 + enc_hashes(q.post_path));
    lemma_concat_injective(p5, enc_epochs(p, n), q5, enc_epochs(q, n));
    lemma_concat_injective(p4, enc_hashes(p.post_path), q4, enc_hashes(q.post_path));
    lemma_concat_injective(p3, enc_f256s(p.post_leaf), q3, enc_f256s(q.post_leaf));
    lemma_concat_injective(p2, enc_hashes(p.initial_path), q2, enc_hashes(q.initial_path));
    lemma_concat_injective(p1, enc_f128s(p.initial_leaf), q1, enc_f128s(q.initial_leaf));
    lemma_integer_injective(p.position, q.position);
    lemma_f128s_injective(p.initial_leaf, q.initial_leaf);
    lemma_hashes_injective(p.initial_path, q.initial_path);
    lemma_f256s_injective(p.post_leaf, q.post_leaf);
    lemma_hashes_injective(p.post_path, q.post_path);
    lemma_epochs_injective(p, q, s, n);
    assert forall|i: int| 0 <= i < n implies p.epoch_paths[i] == q.epoch_paths[i] by {
        assert(p.epoch_leaves[i] == q.epoch_leaves[i]);
    }
    assert(p.epoch_leaves =~= q.epoch_leaves);
    assert(p.epoch_paths =~= q.epoch_paths);
}

proof fn lemma_queries_injective(p: Seq<QueryValue>, q: Seq<QueryValue>, s: &BaseFoldWireShape)
    requires
        p.len() == q.len(),
        forall|i: int| 0 <= i < p.len() ==> query_ok(#[trigger] p[i], s),
        forall|i: int| 0 <= i < q.len() ==> query_ok(#[trigger] q[i], s),
        enc_queries(p) == enc_queries(q),
    ensures
        p == q,
{
    let f = |x: QueryValue| enc_query(x);
    assert forall|i: int| 0 <= i < p.len() implies f(#[trigger] p[i]).len() == s.query_len() by {
        lemma_query_len(p[i], s);
    }
    assert forall|i: int| 0 <= i < q.len() implies f(#[trigger] q[i]).len() == s.query_len() by {
        lemma_query_len(q[i], s);
    }
    assert forall|i: int| 0 <= i < p.len() && f(#[trigger] p[i]) == f(q[i]) implies p[i]
        == q[i] by {
        assert(query_ok(q[i], s));
        lemma_query_injective(p[i], q[i], s);
    }
    lemma_enc_all_injective(p, q, f, s.query_len());
}

proof fn lemma_basefold_injective(p: BaseFoldValue, q: BaseFoldValue, s: &BaseFoldWireShape)
    requires
        basefold_ok(p, s),
        basefold_ok(q, s),
        enc_basefold(p) == enc_basefold(q),
    ensures
        p == q,
{
    lemma_messages_len(p.messages);
    lemma_messages_len(q.messages);
    lemma_hashes_len(p.commitments);
    lemma_hashes_len(q.commitments);
    lemma_f256_len(p.final_a);
    lemma_f256_len(q.final_a);
    lemma_f256_len(p.final_b);
    lemma_f256_len(q.final_b);
    lemma_f256s_len(p.final_codeword);
    lemma_f256s_len(q.final_codeword);
    lemma_f256s_len(p.tail);
    lemma_f256s_len(q.tail);
    lemma_le_bytes_len(p.nonce, 8);
    lemma_le_bytes_len(q.nonce, 8);
    let (p1, q1) = (enc_messages(p.messages), enc_messages(q.messages));
    let (p2, q2) = (p1 + p.post_commit, q1 + q.post_commit);
    let (p3, q3) = (p2 + enc_hashes(p.commitments), q2 + enc_hashes(q.commitments));
    let (p4, q4) = (p3 + enc_f256(p.final_a), q3 + enc_f256(q.final_a));
    let (p5, q5) = (p4 + enc_f256(p.final_b), q4 + enc_f256(q.final_b));
    let (p6, q6) = (p5 + enc_f256s(p.final_codeword), q5 + enc_f256s(q.final_codeword));
    let (p7, q7) = (p6 + enc_f256s(p.tail), q6 + enc_f256s(q.tail));
    let (p8, q8) = (p7 + le_bytes(p.nonce, 8), q7 + le_bytes(q.nonce, 8));
    lemma_concat_injective(p8, enc_queries(p.queries), q8, enc_queries(q.queries));
    lemma_concat_injective(p7, le_bytes(p.nonce, 8), q7, le_bytes(q.nonce, 8));
    lemma_concat_injective(p6, enc_f256s(p.tail), q6, enc_f256s(q.tail));
    lemma_concat_injective(p5, enc_f256s(p.final_codeword), q5, enc_f256s(q.final_codeword));
    lemma_concat_injective(p4, enc_f256(p.final_b), q4, enc_f256(q.final_b));
    lemma_concat_injective(p3, enc_f256(p.final_a), q3, enc_f256(q.final_a));
    lemma_concat_injective(p2, enc_hashes(p.commitments), q2, enc_hashes(q.commitments));
    lemma_concat_injective(p1, p.post_commit, q1, q.post_commit);
    lemma_messages_injective(p.messages, q.messages);
    lemma_hashes_injective(p.commitments, q.commitments);
    lemma_f256_injective(p.final_a, q.final_a);
    lemma_f256_injective(p.final_b, q.final_b);
    lemma_f256s_injective(p.final_codeword, q.final_codeword);
    lemma_f256s_injective(p.tail, q.tail);
    lemma_integer_injective(p.nonce, q.nonce);
    lemma_queries_injective(p.queries, q.queries, s);
}

/// Field proofs of one shape with equal bytes are equal.
pub proof fn lemma_field_proof_injective(
    p: FieldProofValue,
    q: FieldProofValue,
    f: FieldShape,
    s: &BaseFoldWireShape,
)
    requires
        field_proof_ok(p, f, s),
        field_proof_ok(q, f, s),
        enc_field_proof(p) == enc_field_proof(q),
    ensures
        p == q,
{
    lemma_f256s_len(p.round1_ab);
    lemma_f256s_len(q.round1_ab);
    lemma_f256s_len(p.round1_c);
    lemma_f256s_len(q.round1_c);
    lemma_pairs_len(p.rounds);
    lemma_pairs_len(q.rounds);
    lemma_f256_len(p.final_a);
    lemma_f256_len(q.final_a);
    lemma_f256_len(p.final_b);
    lemma_f256_len(q.final_b);
    lemma_f256_len(p.final_c);
    lemma_f256_len(q.final_c);
    lemma_pairs_len(p.lincheck_rounds);
    lemma_pairs_len(q.lincheck_rounds);
    lemma_f256s_len(p.z_partial);
    lemma_f256s_len(q.z_partial);
    let (p1, q1) = (enc_f256s(p.round1_ab), enc_f256s(q.round1_ab));
    let (p2, q2) = (p1 + enc_f256s(p.round1_c), q1 + enc_f256s(q.round1_c));
    let (p3, q3) = (p2 + enc_pairs(p.rounds), q2 + enc_pairs(q.rounds));
    let (p4, q4) = (p3 + enc_f256(p.final_a), q3 + enc_f256(q.final_a));
    let (p5, q5) = (p4 + enc_f256(p.final_b), q4 + enc_f256(q.final_b));
    let (p6, q6) = (p5 + enc_f256(p.final_c), q5 + enc_f256(q.final_c));
    let (p7, q7) = (p6 + enc_pairs(p.lincheck_rounds), q6 + enc_pairs(q.lincheck_rounds));
    let (p8, q8) = (p7 + enc_f256s(p.z_partial), q7 + enc_f256s(q.z_partial));
    lemma_concat_injective(p8, enc_basefold(p.pcs_open), q8, enc_basefold(q.pcs_open));
    lemma_concat_injective(p7, enc_f256s(p.z_partial), q7, enc_f256s(q.z_partial));
    lemma_concat_injective(p6, enc_pairs(p.lincheck_rounds), q6, enc_pairs(q.lincheck_rounds));
    lemma_concat_injective(p5, enc_f256(p.final_c), q5, enc_f256(q.final_c));
    lemma_concat_injective(p4, enc_f256(p.final_b), q4, enc_f256(q.final_b));
    lemma_concat_injective(p3, enc_f256(p.final_a), q3, enc_f256(q.final_a));
    lemma_concat_injective(p2, enc_pairs(p.rounds), q2, enc_pairs(q.rounds));
    lemma_concat_injective(p1, enc_f256s(p.round1_c), q1, enc_f256s(q.round1_c));
    lemma_f256s_injective(p.round1_ab, q.round1_ab);
    lemma_f256s_injective(p.round1_c, q.round1_c);
    lemma_pairs_injective(p.rounds, q.rounds);
    lemma_f256_injective(p.final_a, q.final_a);
    lemma_f256_injective(p.final_b, q.final_b);
    lemma_f256_injective(p.final_c, q.final_c);
    lemma_pairs_injective(p.lincheck_rounds, q.lincheck_rounds);
    lemma_f256s_injective(p.z_partial, q.z_partial);
    lemma_basefold_injective(p.pcs_open, q.pcs_open, s);
}

// ---------------------------------------------------------------------------
// Terminals
// ---------------------------------------------------------------------------

/// Bytes of the first `n` committed rounds of a query.
pub open spec fn epoch_bytes(p: &PcsParams, n: nat) -> nat
    decreases n,
{
    if n == 0 {
        0
    } else {
        epoch_bytes(p, (n - 1) as nat) + epoch_of(p, n - 1).0 * 32 + epoch_of(p, n - 1).1 * 32
    }
}

/// Bytes of a query under class parameters.
pub open spec fn query_bytes(p: &PcsParams) -> nat {
    8 + pow2(p.log_batch_size as nat) * 16 + (p.k_code() * 32) as nat + (if p.arities@.len() == 0 {
        0
    } else {
        pow2(p.arities@[0] as nat) * 32 + (p.k_code() - p.arities@[0]) as nat * 32
    }) + epoch_bytes(p, p.round_commitments as nat)
}

/// Bytes of an opening proof under class parameters.
pub open spec fn opening_bytes(p: &PcsParams) -> nat {
    p.log_msg_len() as nat * 64 + 32 + p.round_commitments as nat * 32 + 64 + pow2(
        p.log_inv_rate as nat,
    ) * 32 + p.plaintext_tail as nat * 32 + 8 + p.queries as nat * query_bytes(p)
}

proof fn lemma_epoch_bytes(p: &PcsParams, s: &BaseFoldWireShape, n: nat)
    requires
        shape_of(p, s),
        n <= p.round_commitments,
    ensures
        s.epochs_len(n) == epoch_bytes(p, n),
    decreases n,
{
    if n > 0 {
        lemma_epoch_bytes(p, s, (n - 1) as nat);
        assert(s.epoch_shapes@[n - 1].0 == epoch_of(p, n - 1).0);
    }
}

proof fn lemma_opening_bytes(p: &PcsParams, s: &BaseFoldWireShape)
    requires
        p.derivable(),
        p.first_fold_fits(),
        shape_of(p, s),
    ensures
        s.query_len() == query_bytes(p),
        s.total_len() == opening_bytes(p),
{
    lemma_epoch_bytes(p, s, p.round_commitments as nat);
}

/// Bytes of a field proof of a class.
pub open spec fn class_proof_bytes(f: FieldShape, p: &PcsParams) -> nat {
    let skip = pow2(f.k_skip as nat);
    ((skip * 2 + (f.m - f.k_skip) * 2 + 3) + ((f.k_log - f.k_skip) * 2 + skip)) as nat * 32
        + opening_bytes(p)
}

/// Bytes of a terminal of a class.
pub open spec fn terminal_bytes(rt: &HistoryStepRuntime, class: int) -> nat {
    let c = rt.classes@[class];
    PREFIX_BYTES as nat + 32 + rt.io_len as nat * 16 + class_proof_bytes(c.shape, &c.pcs_params)
        + c.sidecar_len as nat
}

/// A class has a wire length.
pub open spec fn class_fits(rt: &HistoryStepRuntime, class: int) -> bool {
    let c = rt.classes@[class];
    &&& field_shape_ok(c.shape)
    &&& c.pcs_params.derivable()
    &&& query_bytes(&c.pcs_params) <= usize::MAX
    &&& terminal_bytes(rt, class) <= usize::MAX
}

/// A field proof has the shape of its class.
pub open spec fn proof_shaped(p: FieldProofValue, c: &HistoryStepClass) -> bool {
    exists|s: BaseFoldWireShape| #[trigger]
        shape_of(&c.pcs_params, &s) && field_proof_ok(p, c.shape, &s)
}

/// The fixed parts of a terminal have their lengths.
pub open spec fn terminal_fixed(t: TerminalValue) -> bool {
    &&& t.height < pow2(64)
    &&& t.semantic_id.len() == 32
    &&& t.commitment_root.len() == 32
}

/// A terminal has the shape of its class.
pub open spec fn terminal_ok(rt: &HistoryStepRuntime, t: TerminalValue) -> bool {
    &&& t.class_id < rt.classes@.len()
    &&& terminal_fixed(t)
    &&& t.io.len() == rt.io_len
    &&& proof_shaped(t.field_proof, &rt.classes@[t.class_id as int])
    &&& t.sidecar.len() == rt.classes@[t.class_id as int].sidecar_len
}

proof fn lemma_query_shape(
    q: QueryValue,
    p: &PcsParams,
    s: &BaseFoldWireShape,
    t: &BaseFoldWireShape,
)
    requires
        shape_of(p, s),
        shape_of(p, t),
        query_ok(q, s),
    ensures
        query_ok(q, t),
{
    assert forall|i: int| 0 <= i < t.epoch_shapes@.len() implies #[trigger] epoch_ok(q, t, i) by {
        assert(epoch_ok(q, s, i));
        assert(s.epoch_shapes@[i].0 == epoch_of(p, i).0);
        assert(t.epoch_shapes@[i].0 == epoch_of(p, i).0);
    }
}

proof fn lemma_proof_shape(
    v: FieldProofValue,
    f: FieldShape,
    p: &PcsParams,
    s: &BaseFoldWireShape,
    t: &BaseFoldWireShape,
)
    requires
        shape_of(p, s),
        shape_of(p, t),
        field_proof_ok(v, f, s),
    ensures
        field_proof_ok(v, f, t),
{
    let qs = v.pcs_open.queries;
    assert forall|i: int| 0 <= i < qs.len() implies query_ok(#[trigger] qs[i], t) by {
        lemma_query_shape(qs[i], p, s, t);
    }
}

/// What reading bytes as a terminal fails with.
pub open spec fn wire_error(rt: &HistoryStepRuntime, bytes: Seq<u8>) -> Option<HistoryStepError> {
    if bytes.len() < PREFIX_BYTES {
        Some(
            HistoryStepError::WireLength { expected: PREFIX_BYTES, actual: bytes.len() as usize },
        )
    } else if bytes[0] != HISTORY_STEP_WIRE_VERSION {
        Some(HistoryStepError::WireVersion)
    } else if bytes[41] >= rt.classes@.len() {
        Some(HistoryStepError::InvalidClass)
    } else if !class_fits(rt, bytes[41] as int) {
        Some(HistoryStepError::WireEncoding)
    } else if bytes.len() != terminal_bytes(rt, bytes[41] as int) {
        Some(
            HistoryStepError::WireLength {
                expected: terminal_bytes(rt, bytes[41] as int) as usize,
                actual: bytes.len() as usize,
            },
        )
    } else {
        None
    }
}

/// What writing a terminal fails with.
pub open spec fn frame_error(rt: &HistoryStepRuntime, t: TerminalValue) -> Option<
    HistoryStepError,
> {
    if t.class_id >= rt.classes@.len() {
        Some(HistoryStepError::InvalidClass)
    } else if !class_fits(rt, t.class_id as int) || t.io.len() != rt.io_len || !proof_shaped(
        t.field_proof,
        &rt.classes@[t.class_id as int],
    ) {
        Some(HistoryStepError::WireEncoding)
    } else if t.sidecar.len() != rt.classes@[t.class_id as int].sidecar_len {
        Some(
            HistoryStepError::WireLength {
                expected: terminal_bytes(rt, t.class_id as int) as usize,
                actual: enc_terminal(t).len() as usize,
            },
        )
    } else {
        None
    }
}

/// Bytes of a field proof.
pub fn field_proof_len(shape: FieldShape, params: &PcsParams) -> (r: Result<
    usize,
    HistoryStepError,
>)
    requires
        params.first_fold_fits(),
    ensures
        match r {
            Ok(v) => field_shape_ok(shape) && params.derivable() && query_bytes(params)
                <= usize::MAX && v == class_proof_bytes(shape, params),
            Err(e) => e == HistoryStepError::WireEncoding && !(field_shape_ok(shape)
                && params.derivable() && query_bytes(params) <= usize::MAX && class_proof_bytes(
                shape,
                params,
            ) <= usize::MAX),
        },
{
    let skip: usize = match power_of_two(shape.k_skip) {
        Ok(v) => v,
        Err(e) => {
            return Err(e);
        },
    };
    if shape.m < shape.k_skip || shape.k_log < shape.k_skip {
        return Err(HistoryStepError::WireEncoding);
    }
    let (a, c): (usize, usize) = (shape.m - shape.k_skip, shape.k_log - shape.k_skip);
    let opening: usize = match BaseFoldWireShape::derive(params) {
        Ok(s) => {
            proof {
                lemma_opening_bytes(params, &s);
            }
            match s.encoded_len() {
                Ok(v) => v,
                Err(e) => {
                    return Err(e);
                },
            }
        },
        Err(e) => {
            return Err(e);
        },
    };
    proof {
        let (x, y, z) = (skip as int, a as int, c as int);
        assert(((x * 2 + y * 2 + 3) + (z * 2 + x)) * 32 == 32 * (x * 2) + 32 * (y * 2) + 32 * 3
            + 32 * (z * 2) + 32 * x) by (nonlinear_arith);
    }
    let lanes: Result<usize, HistoryStepError> = lane_count(skip, a, c);
    match lanes {
        Ok(n) => match crate::wire_shape::mul(n, F256_BYTES) {
            Ok(v) => crate::wire_shape::add(v, opening),
            Err(e) => Err(e),
        },
        Err(e) => Err(e),
    }
}

/// Extension elements of a field proof before its opening.
fn lane_count(skip: usize, rounds: usize, linear_rounds: usize) -> (r: Result<
    usize,
    HistoryStepError,
>)
    ensures
        match r {
            Ok(v) => v == (skip * 2 + rounds * 2 + 3) + (linear_rounds * 2 + skip),
            Err(e) => (skip * 2 + rounds * 2 + 3) + (linear_rounds * 2 + skip) > usize::MAX && e
                == HistoryStepError::WireEncoding,
        },
{
    let a: usize = match crate::wire_shape::mul(skip, 2) {
        Ok(v) => v,
        Err(e) => {
            return Err(e);
        },
    };
    let b: usize = match crate::wire_shape::mul(rounds, 2) {
        Ok(v) => v,
        Err(e) => {
            return Err(e);
        },
    };
    let c: usize = match crate::wire_shape::mul(linear_rounds, 2) {
        Ok(v) => v,
        Err(e) => {
            return Err(e);
        },
    };
    let d: usize = match crate::wire_shape::add(a, b) {
        Ok(v) => v,
        Err(e) => {
            return Err(e);
        },
    };
    let zerocheck: usize = match crate::wire_shape::add(d, 3) {
        Ok(v) => v,
        Err(e) => {
            return Err(e);
        },
    };
    match crate::wire_shape::add(c, skip) {
        Ok(v) => crate::wire_shape::add(zerocheck, v),
        Err(e) => Err(e),
    }
}

/// Bytes of a terminal of a class.
pub fn terminal_len_for_class(runtime: &HistoryStepRuntime, class: usize) -> (r: Result<
    usize,
    HistoryStepError,
>)
    requires
        runtime.wf(),
        class < runtime.classes@.len(),
    ensures
        match r {
            Ok(v) => class_fits(runtime, class as int) && v == terminal_bytes(
                runtime,
                class as int,
            ),
            Err(e) => !class_fits(runtime, class as int) && e == HistoryStepError::WireEncoding,
        },
{
    let entry = &runtime.classes[class];
    let head: usize = PREFIX_BYTES + HASH_BYTES;
    let field: usize = match field_proof_len(entry.shape, &entry.pcs_params) {
        Ok(v) => v,
        Err(e) => {
            return Err(e);
        },
    };
    let io: usize = match crate::wire_shape::mul(runtime.io_len, F128_BYTES) {
        Ok(v) => v,
        Err(e) => {
            return Err(e);
        },
    };
    let a: usize = match crate::wire_shape::add(head, io) {
        Ok(v) => v,
        Err(e) => {
            return Err(e);
        },
    };
    match crate::wire_shape::add(a, field) {
        Ok(v) => crate::wire_shape::add(v, entry.sidecar_len),
        Err(e) => Err(e),
    }
}

/// The greatest of the first `n` class lengths.
pub open spec fn longest(rt: &HistoryStepRuntime, n: nat) -> nat
    decreases n,
{
    if n == 0 {
        0
    } else {
        let before = longest(rt, (n - 1) as nat);
        let here = terminal_bytes(rt, n - 1);
        if here > before {
            here
        } else {
            before
        }
    }
}

/// The length of the longest terminal over all classes.
pub fn history_step_terminal_max_wire_bytes(runtime: &HistoryStepRuntime) -> (r: Result<
    usize,
    HistoryStepError,
>)
    requires
        runtime.wf(),
    ensures
        match r {
            Ok(v) => v == longest(runtime, runtime.classes@.len()) && forall|c: int|
                0 <= c < runtime.classes@.len() ==> #[trigger] class_fits(runtime, c),
            Err(e) => e == HistoryStepError::WireEncoding && exists|c: int|
                0 <= c < runtime.classes@.len() && !#[trigger] class_fits(runtime, c),
        },
{
    let mut maximum: usize = 0;
    let mut i: usize = 0;
    while i < runtime.classes.len()
        invariant
            runtime.wf(),
            i <= runtime.classes@.len(),
            maximum == longest(runtime, i as nat),
            forall|c: int| 0 <= c < i ==> #[trigger] class_fits(runtime, c),
        decreases runtime.classes@.len() - i,
    {
        let len: usize = match terminal_len_for_class(runtime, i) {
            Ok(v) => v,
            Err(e) => {
                return Err(e);
            },
        };
        if len > maximum {
            maximum = len;
        }
        i += 1;
    }
    Ok(maximum)
}

/// No class is longer than the longest.
pub proof fn lemma_longest(rt: &HistoryStepRuntime, n: nat, c: int)
    requires
        0 <= c < n,
    ensures
        terminal_bytes(rt, c) <= longest(rt, n),
    decreases n,
{
    if c < n - 1 {
        lemma_longest(rt, (n - 1) as nat, c);
    }
}

/// Writes a terminal.
fn frame_terminal(runtime: &HistoryStepRuntime, terminal: &HistoryStepTerminal) -> (r: Result<
    Vec<u8>,
    HistoryStepError,
>)
    requires
        runtime.wf(),
    ensures
        match r {
            Ok(bytes) => frame_error(runtime, terminal@) is None && bytes@ == enc_terminal(
                terminal@,
            ),
            Err(e) => frame_error(runtime, terminal@) == Some(e),
        },
{
    let class: usize = terminal.class_id as usize;
    let ghost v = terminal@;
    if class >= runtime.classes.len() {
        return Err(HistoryStepError::InvalidClass);
    }
    let entry = &runtime.classes[class];
    let expected: usize = match terminal_len_for_class(runtime, class) {
        Ok(n) => n,
        Err(e) => {
            return Err(e);
        },
    };
    let opening = match BaseFoldWireShape::derive(&entry.pcs_params) {
        Ok(s) => s,
        Err(e) => {
            return Err(e);
        },
    };
    let skip: usize = match power_of_two(entry.shape.k_skip) {
        Ok(n) => n,
        Err(e) => {
            return Err(e);
        },
    };
    let mut out: Vec<u8> = Vec::new();
    out.push(HISTORY_STEP_WIRE_VERSION);
    put_le(&mut out, terminal.height as u128, 8);
    put_hash(&mut out, &terminal.semantic_id);
    out.push(terminal.class_id);
    assert(out@ =~= enc_prefix(v));
    put_hash(&mut out, &terminal.commitment_root);
    if !encode_f128_vec(&mut out, &terminal.io, runtime.io_len) {
        return Err(HistoryStepError::WireEncoding);
    }
    if !encode_field_proof(&mut out, &terminal.field_proof, skip, entry.shape, &opening) {
        proof {
            if proof_shaped(v.field_proof, entry) {
                let s = choose|s: BaseFoldWireShape| #[trigger]
                    shape_of(&entry.pcs_params, &s) && field_proof_ok(
                        v.field_proof,
                        entry.shape,
                        &s,
                    );
                lemma_proof_shape(v.field_proof, entry.shape, &entry.pcs_params, &s, &opening);
            }
        }
        return Err(HistoryStepError::WireEncoding);
    }
    put_bytes(&mut out, terminal.sidecar.as_slice());
    assert(out@ =~= enc_terminal(v));
    proof {
        lemma_le_bytes_len(v.height, 8);
        lemma_f128s_len(v.io);
        lemma_field_proof_len(v.field_proof, entry.shape, &opening);
        lemma_opening_bytes(&entry.pcs_params, &opening);
        assert(out@.len() == expected - entry.sidecar_len + terminal.sidecar@.len());
    }
    if out.len() != expected {
        return Err(HistoryStepError::WireLength { expected, actual: out.len() });
    }
    Ok(out)
}

/// Reads a terminal.
#[verifier::rlimit(40)]
fn parse_terminal(runtime: &HistoryStepRuntime, bytes: &[u8]) -> (r: Result<
    HistoryStepTerminal,
    HistoryStepError,
>)
    requires
        runtime.wf(),
    ensures
        match r {
            Ok(t) => wire_error(runtime, bytes@) is None && terminal_ok(runtime, t@) && bytes@
                == enc_terminal(t@),
            Err(e) => wire_error(runtime, bytes@) == Some(e),
        },
{
    if bytes.len() < PREFIX_BYTES {
        return Err(
            HistoryStepError::WireLength { expected: PREFIX_BYTES, actual: bytes.len() },
        );
    }
    let mut reader = Reader::new(bytes);
    let ghost r0 = reader.rest();
    let version: u8 = match reader.byte() {
        Some(v) => v,
        None => {
            return Err(HistoryStepError::WireEncoding);
        },
    };
    let ghost r1 = reader.rest();
    let ghost e1 = seq![version];
    if version != HISTORY_STEP_WIRE_VERSION {
        return Err(HistoryStepError::WireVersion);
    }
    let height: u64 = match reader.integer() {
        Some(v) => v,
        None => {
            return Err(HistoryStepError::WireEncoding);
        },
    };
    let ghost r2 = reader.rest();
    let ghost e2 = e1 + le_bytes(height as nat, 8);
    proof {
        lemma_le_bytes_len(height as nat, 8);
        lemma_u64_bound(height);
        lemma_splits(r0, e1, r1, le_bytes(height as nat, 8), r2);
    }
    let semantic_id = match reader.digest() {
        Some(v) => v,
        None => {
            return Err(HistoryStepError::WireEncoding);
        },
    };
    let ghost r3 = reader.rest();
    let ghost e3 = e2 + semantic_id@;
    proof {
        lemma_splits(r0, e2, r2, semantic_id@, r3);
    }
    let class_id: u8 = match reader.byte() {
        Some(v) => v,
        None => {
            return Err(HistoryStepError::WireEncoding);
        },
    };
    let ghost r4 = reader.rest();
    let ghost e4 = e3 + seq![class_id];
    proof {
        lemma_splits(r0, e3, r3, seq![class_id], r4);
        assert(e4[41] == class_id && e4.len() == 42);
        assert(bytes@ == e4 + r4);
        assert(bytes@[41] == class_id);
    }
    let class: usize = class_id as usize;
    if class >= runtime.classes.len() {
        return Err(HistoryStepError::InvalidClass);
    }
    let expected: usize = match terminal_len_for_class(runtime, class) {
        Ok(n) => n,
        Err(e) => {
            return Err(e);
        },
    };
    if bytes.len() != expected {
        return Err(HistoryStepError::WireLength { expected, actual: bytes.len() });
    }
    let entry = &runtime.classes[class];
    let opening = match BaseFoldWireShape::derive(&entry.pcs_params) {
        Ok(s) => s,
        Err(e) => {
            return Err(e);
        },
    };
    let skip: usize = match power_of_two(entry.shape.k_skip) {
        Ok(n) => n,
        Err(e) => {
            return Err(e);
        },
    };
    proof {
        lemma_opening_bytes(&entry.pcs_params, &opening);
        assert(class_proof_bytes(entry.shape, &entry.pcs_params) == field_proof_bytes(
            entry.shape,
            &opening,
        ));
    }
    let commitment_root = match reader.digest() {
        Some(v) => v,
        None => {
            return Err(HistoryStepError::WireEncoding);
        },
    };
    let ghost s1 = reader.rest();
    let io = match decode_f128_vec(&mut reader, runtime.io_len) {
        Some(v) => v,
        None => {
            return Err(HistoryStepError::WireEncoding);
        },
    };
    let ghost s2 = reader.rest();
    let ghost f2 = commitment_root@ + enc_f128s(io@);
    proof {
        lemma_f128s_len(io@);
        lemma_splits(r4, commitment_root@, s1, enc_f128s(io@), s2);
    }
    let field_proof = match decode_field_proof(&mut reader, skip, entry.shape, &opening) {
        Some(v) => v,
        None => {
            return Err(HistoryStepError::WireEncoding);
        },
    };
    let ghost s3 = reader.rest();
    let ghost f3 = f2 + enc_field_proof(field_proof@);
    proof {
        lemma_field_proof_len(field_proof@, entry.shape, &opening);
        lemma_splits(r4, f2, s2, enc_field_proof(field_proof@), s3);
        assert(s3.len() == entry.sidecar_len);
    }
    let start: usize = match reader.take(entry.sidecar_len) {
        Some(v) => v,
        None => {
            return Err(HistoryStepError::WireEncoding);
        },
    };
    let mut sidecar: Vec<u8> = Vec::new();
    let mut i: usize = 0;
    let total: usize = reader.bytes.len();
    while i < entry.sidecar_len
        invariant
            i <= entry.sidecar_len,
            start + entry.sidecar_len <= total,
            total == reader.bytes@.len(),
            sidecar@ == reader.bytes@.subrange(start as int, start + i),
        decreases entry.sidecar_len - i,
    {
        sidecar.push(reader.bytes[start + i]);
        i += 1;
        assert(sidecar@ =~= reader.bytes@.subrange(start as int, start + i));
    }
    proof {
        lemma_splits(r4, f3, s3, sidecar@, reader.rest());
        assert(reader.rest().len() == 0);
        lemma_splits(r0, e4, r4, f3 + sidecar@, reader.rest());
    }
    let terminal = HistoryStepTerminal {
        height,
        semantic_id,
        class_id,
        commitment_root,
        io,
        field_proof,
        sidecar,
    };
    proof {
        assert(bytes@ =~= enc_terminal(terminal@));
        assert(proof_shaped(field_proof@, entry));
    }
    Ok(terminal)
}

/// Writes a terminal that `metadata` accepts.
///
/// `metadata` checks the terminal against the runtime that it belongs to; its
/// error comes first.
#[verifier::rlimit(40)]
pub fn encode_history_step_terminal<F: Fn(&HistoryStepTerminal) -> Result<(), HistoryStepError>>(
    runtime: &HistoryStepRuntime,
    terminal: &HistoryStepTerminal,
    metadata: F,
) -> (r: Result<Vec<u8>, HistoryStepError>)
    requires
        runtime.wf(),
        metadata.requires((terminal,)),
    ensures
        match r {
            Ok(bytes) => metadata.ensures((terminal,), Ok(())) && frame_error(runtime, terminal@)
                is None && bytes@ == enc_terminal(terminal@),
            Err(e) => metadata.ensures((terminal,), Err(e)) || (metadata.ensures(
                (terminal,),
                Ok(()),
            ) && frame_error(runtime, terminal@) == Some(e)),
        },
{
    match metadata(terminal) {
        Ok(unit) => {
            assert(unit == ());
            frame_terminal(runtime, terminal)
        },
        Err(e) => Err(e),
    }
}

/// Reads a terminal that `metadata` accepts.
#[verifier::rlimit(40)]
pub fn decode_history_step_terminal<F: Fn(&HistoryStepTerminal) -> Result<(), HistoryStepError>>(
    runtime: &HistoryStepRuntime,
    bytes: &[u8],
    metadata: F,
) -> (r: Result<HistoryStepTerminal, HistoryStepError>)
    requires
        runtime.wf(),
        forall|t: HistoryStepTerminal| #[trigger] metadata.requires((&t,)),
    ensures
        match r {
            Ok(t) => wire_error(runtime, bytes@) is None && terminal_ok(runtime, t@) && bytes@
                == enc_terminal(t@) && metadata.ensures((&t,), Ok(())),
            Err(e) => match wire_error(runtime, bytes@) {
                Some(f) => e == f,
                None => exists|t: HistoryStepTerminal| #[trigger]
                    metadata.ensures((&t,), Err(e)) && terminal_ok(runtime, t@) && bytes@
                        == enc_terminal(t@),
            },
        },
{
    match parse_terminal(runtime, bytes) {
        Ok(terminal) => match metadata(&terminal) {
            Ok(unit) => {
                assert(unit == ());
                Ok(terminal)
            },
            Err(e) => Err(e),
        },
        Err(e) => Err(e),
    }
}

/// Reads a terminal that `metadata` accepts and hands it to `verify`.
#[verifier::rlimit(40)]
pub fn decode_verify_history_step_terminal<
    A,
    F: Fn(&HistoryStepTerminal) -> Result<(), HistoryStepError>,
    G: Fn(&HistoryStepTerminal) -> Result<A, HistoryStepError>,
>(runtime: &HistoryStepRuntime, bytes: &[u8], metadata: F, verify: G) -> (r: Result<
    A,
    HistoryStepError,
>)
    requires
        runtime.wf(),
        forall|t: HistoryStepTerminal| #[trigger] metadata.requires((&t,)),
        forall|t: HistoryStepTerminal| #[trigger] verify.requires((&t,)),
    ensures
        match wire_error(runtime, bytes@) {
            Some(f) => r is Err && r->Err_0 == f,
            None => exists|t: HistoryStepTerminal|
                {
                    &&& #[trigger] terminal_ok(runtime, t@)
                    &&& bytes@ == enc_terminal(t@)
                    &&& ((r is Err && metadata.ensures((&t,), Err(r->Err_0))) || (
                    metadata.ensures((&t,), Ok(())) && verify.ensures((&t,), r)))
                },
        },
{
    match decode_history_step_terminal(runtime, bytes, metadata) {
        Ok(terminal) => verify(&terminal),
        Err(e) => Err(e),
    }
}

/// A terminal of its class's shape has the length of its class.
pub proof fn lemma_terminal_len(rt: &HistoryStepRuntime, t: TerminalValue)
    requires
        rt.wf(),
        terminal_ok(rt, t),
        class_fits(rt, t.class_id as int),
    ensures
        enc_terminal(t).len() == terminal_bytes(rt, t.class_id as int),
{
    let c = rt.classes@[t.class_id as int];
    let s = choose|s: BaseFoldWireShape| #[trigger]
        shape_of(&c.pcs_params, &s) && field_proof_ok(t.field_proof, c.shape, &s);
    lemma_le_bytes_len(t.height, 8);
    lemma_f128s_len(t.io);
    lemma_field_proof_len(t.field_proof, c.shape, &s);
    lemma_opening_bytes(&c.pcs_params, &s);
}

/// The wire of a terminal of its class's shape is read without error.
pub proof fn lemma_wire_accepted(rt: &HistoryStepRuntime, t: TerminalValue)
    requires
        rt.wf(),
        frame_error(rt, t) is None,
        terminal_fixed(t),
    ensures
        terminal_ok(rt, t),
        wire_error(rt, enc_terminal(t)) is None,
        enc_terminal(t).len() == terminal_bytes(rt, t.class_id as int),
{
    lemma_terminal_len(rt, t);
    lemma_le_bytes_len(t.height, 8);
    let p = enc_prefix(t);
    assert(p.len() == 42);
    assert(p[0] == HISTORY_STEP_WIRE_VERSION);
    assert(p[41] == t.class_id);
    let bytes = enc_terminal(t);
    assert(bytes[0] == p[0] && bytes[41] == p[41]);
}

/// Terminals with equal wires are equal: what is read back from the wire of a
/// terminal is that terminal.
pub proof fn lemma_terminal_injective(rt: &HistoryStepRuntime, t: TerminalValue, u: TerminalValue)
    requires
        rt.wf(),
        terminal_ok(rt, t),
        terminal_ok(rt, u),
        class_fits(rt, t.class_id as int),
        enc_terminal(t) == enc_terminal(u),
    ensures
        t == u,
{
    lemma_le_bytes_len(t.height, 8);
    lemma_le_bytes_len(u.height, 8);
    let (t1, u1) = (seq![HISTORY_STEP_WIRE_VERSION], seq![HISTORY_STEP_WIRE_VERSION]);
    let (t2, u2) = (t1 + le_bytes(t.height, 8), u1 + le_bytes(u.height, 8));
    let (t3, u3) = (t2 + t.semantic_id, u2 + u.semantic_id);
    let tb = t.commitment_root + enc_f128s(t.io) + enc_field_proof(t.field_proof) + t.sidecar;
    let ub = u.commitment_root + enc_f128s(u.io) + enc_field_proof(u.field_proof) + u.sidecar;
    lemma_concat_injective(enc_prefix(t), tb, enc_prefix(u), ub);
    lemma_concat_injective(t3, seq![t.class_id], u3, seq![u.class_id]);
    assert(seq![t.class_id][0] == seq![u.class_id][0]);
    lemma_concat_injective(t2, t.semantic_id, u2, u.semantic_id);
    lemma_concat_injective(t1, le_bytes(t.height, 8), u1, le_bytes(u.height, 8));
    lemma_integer_injective(t.height, u.height);
    let c = rt.classes@[t.class_id as int];
    let s = choose|s: BaseFoldWireShape| #[trigger]
        shape_of(&c.pcs_params, &s) && field_proof_ok(t.field_proof, c.shape, &s);
    let q = choose|q: BaseFoldWireShape| #[trigger]
        shape_of(&c.pcs_params, &q) && field_proof_ok(u.field_proof, c.shape, &q);
    lemma_proof_shape(u.field_proof, c.shape, &c.pcs_params, &q, &s);
    lemma_f128s_len(t.io);
    lemma_f128s_len(u.io);
    lemma_field_proof_len(t.field_proof, c.shape, &s);
    lemma_field_proof_len(u.field_proof, c.shape, &s);
    let (t4, u4) = (t.commitment_root + enc_f128s(t.io), u.commitment_root + enc_f128s(u.io));
    let (t5, u5) = (t4 + enc_field_proof(t.field_proof), u4 + enc_field_proof(u.field_proof));
    lemma_concat_injective(t5, t.sidecar, u5, u.sidecar);
    lemma_concat_injective(t4, enc_field_proof(t.field_proof), u4, enc_field_proof(u.field_proof));
    lemma_concat_injective(t.commitment_root, enc_f128s(t.io), u.commitment_root, enc_f128s(u.io));
    lemma_f128s_injective(t.io, u.io);
    lemma_field_proof_injective(t.field_proof, u.field_proof, c.shape, &s);
}

} // verus!
