//! Where the parts of a wire stand.

use vstd::prelude::*;
use vstd::arithmetic::power2::{lemma_pow2_adds, pow2};
use crate::bytes::{enc_all, le_value, lemma_enc_all_len, lemma_le_bytes_len, lemma_le_value_bytes};
use crate::wire::{
    enc_basefold, enc_f128, enc_f128s, enc_f256, enc_f256s, enc_field_proof, enc_messages,
    enc_hashes, enc_pairs, enc_prefix, enc_queries, enc_terminal, hashes_ok, lemma_f128_len,
    lemma_f128s_len, lemma_f256_len, lemma_f256s_len, lemma_hashes_len, lemma_messages_len,
    lemma_pairs_len, terminal_fixed, BaseFoldValue, FieldProofValue, TerminalValue, WireF128,
    HISTORY_STEP_WIRE_VERSION,
};
use crate::wire_shape::{epoch_of, shape_of, BaseFoldWireShape, PcsParams};

verus! {

/// Items of one width stand one after another.
pub proof fn lemma_item_place<A>(items: Seq<A>, f: spec_fn(A) -> Seq<u8>, k: nat, i: int)
    requires
        forall|j: int| 0 <= j < items.len() ==> f(#[trigger] items[j]).len() == k,
        0 <= i < items.len(),
    ensures
        enc_all(items, f).len() == items.len() * k,
        0 <= i * k,
        i * k + k <= items.len() * k,
        enc_all(items, f).subrange(i * k, i * k + k) == f(items[i]),
    decreases items.len(),
{
    lemma_enc_all_len(items, f, k);
    let (n, w) = (items.len() as int, k as int);
    assert(0 <= i * w && i * w + w <= n * w) by (nonlinear_arith)
        requires
            0 <= i < n,
            0 <= w,
    ;
    let rest = items.drop_last();
    assert forall|j: int| 0 <= j < rest.len() implies f(#[trigger] rest[j]).len() == k by {
        assert(rest[j] == items[j]);
    }
    lemma_enc_all_len(rest, f, k);
    let (a, b) = (enc_all(rest, f), f(items.last()));
    assert((n - 1) * w + w == n * w) by (nonlinear_arith);
    assert(f(items[n - 1]).len() == k);
    if i < n - 1 {
        lemma_item_place(rest, f, k, i);
        assert(enc_all(items, f).subrange(i * k, i * k + k) =~= a.subrange(i * k, i * k + k));
    } else {
        assert(enc_all(items, f).subrange(i * k, i * k + k) =~= b);
    }
}

/// An element is sixteen bytes: the low half, then the high half, little-endian.
pub proof fn lemma_element_place(x: WireF128)
    ensures
        enc_f128(x).len() == 16,
        le_value(enc_f128(x).subrange(0, 8)) == x.lo,
        le_value(enc_f128(x).subrange(8, 16)) == x.hi,
{
    reveal(enc_f128);
    vstd::arithmetic::power2::lemma2_to64();
    let (a, b) = (crate::bytes::le_bytes(x.lo as nat, 8), crate::bytes::le_bytes(x.hi as nat, 8));
    lemma_le_bytes_len(x.lo as nat, 8);
    lemma_le_bytes_len(x.hi as nat, 8);
    assert(enc_f128(x).subrange(0, 8) =~= a);
    assert(enc_f128(x).subrange(8, 16) =~= b);
    lemma_le_value_bytes(x.lo as nat, 8);
    lemma_le_value_bytes(x.hi as nat, 8);
}

/// A terminal's wire: the version, the height in eight little-endian bytes, the
/// identifier, the class, the commitment root, the public elements in sixteen bytes
/// each, the proof, and the sidecar to the end.
pub proof fn lemma_terminal_place(t: TerminalValue)
    requires
        terminal_fixed(t),
    ensures
        ({
            let w = enc_terminal(t);
            let io = 16 * t.io.len() as int;
            let proof_len = enc_field_proof(t.field_proof).len() as int;
            &&& w.len() == 74 + io + proof_len + t.sidecar.len()
            &&& w[0] == HISTORY_STEP_WIRE_VERSION
            &&& le_value(w.subrange(1, 9)) == t.height
            &&& w.subrange(9, 41) == t.semantic_id
            &&& w[41] == t.class_id
            &&& w.subrange(42, 74) == t.commitment_root
            &&& forall|i: int|
                0 <= i < t.io.len() ==> w.subrange(74 + i * 16, 74 + i * 16 + 16) == enc_f128(
                    #[trigger] t.io[i],
                )
            &&& w.subrange(74 + io, 74 + io + proof_len) == enc_field_proof(t.field_proof)
            &&& w.subrange(74 + io + proof_len, w.len() as int) == t.sidecar
        }),
{
    let w = enc_terminal(t);
    let h = crate::bytes::le_bytes(t.height, 8);
    lemma_le_bytes_len(t.height, 8);
    lemma_le_value_bytes(t.height, 8);
    assert(w.subrange(1, 9) =~= h);
    assert(w.subrange(9, 41) =~= t.semantic_id);
    assert(enc_prefix(t).len() == 42);
    assert(w.subrange(42, 74) =~= t.commitment_root);
    lemma_f128s_len(t.io);
    let io = enc_f128s(t.io);
    let p = enc_field_proof(t.field_proof);
    assert(w.subrange(74, 74 + io.len() as int) =~= io);
    assert(w.subrange(74 + io.len() as int, 74 + io.len() as int + p.len()) =~= p);
    assert(w.subrange(74 + io.len() as int + p.len(), w.len() as int) =~= t.sidecar);
    let f = |x: WireF128| enc_f128(x);
    assert forall|j: int| 0 <= j < t.io.len() implies f(#[trigger] t.io[j]).len() == 16 by {
        lemma_f128_len(t.io[j]);
    }
    assert forall|i: int| 0 <= i < t.io.len() implies w.subrange(74 + i * 16, 74 + i * 16 + 16)
        == enc_f128(#[trigger] t.io[i]) by {
        lemma_item_place(t.io, f, 16, i);
        assert(w.subrange(74 + i * 16, 74 + i * 16 + 16) =~= io.subrange(i * 16, i * 16 + 16));
    }
}

/// A field proof: the first round's two tables, the later rounds, the three final
/// values, the rounds of the lincheck, the partial values, and the opening.
pub proof fn lemma_field_proof_place(p: FieldProofValue)
    ensures
        ({
            let w = enc_field_proof(p);
            let a = 32 * p.round1_ab.len() as int;
            let b = a + 32 * p.round1_c.len();
            let c = b + 64 * p.rounds.len();
            let d = c + 96;
            let e = d + 64 * p.lincheck_rounds.len();
            let f = e + 32 * p.z_partial.len();
            &&& w.len() == f + enc_basefold(p.pcs_open).len()
            &&& w.subrange(0, a) == enc_f256s(p.round1_ab)
            &&& w.subrange(a, b) == enc_f256s(p.round1_c)
            &&& w.subrange(b, c) == enc_pairs(p.rounds)
            &&& w.subrange(c, c + 32) == enc_f256(p.final_a)
            &&& w.subrange(c + 32, c + 64) == enc_f256(p.final_b)
            &&& w.subrange(c + 64, d) == enc_f256(p.final_c)
            &&& w.subrange(d, e) == enc_pairs(p.lincheck_rounds)
            &&& w.subrange(e, f) == enc_f256s(p.z_partial)
            &&& w.subrange(f, w.len() as int) == enc_basefold(p.pcs_open)
        }),
{
    lemma_f256s_len(p.round1_ab);
    lemma_f256s_len(p.round1_c);
    lemma_pairs_len(p.rounds);
    lemma_f256_len(p.final_a);
    lemma_f256_len(p.final_b);
    lemma_f256_len(p.final_c);
    lemma_pairs_len(p.lincheck_rounds);
    lemma_f256s_len(p.z_partial);
    let w = enc_field_proof(p);
    let a = 32 * p.round1_ab.len() as int;
    let b = a + 32 * p.round1_c.len();
    let c = b + 64 * p.rounds.len();
    let d = c + 96;
    let e = d + 64 * p.lincheck_rounds.len();
    let f = e + 32 * p.z_partial.len();
    assert(w.subrange(0, a) =~= enc_f256s(p.round1_ab));
    assert(w.subrange(a, b) =~= enc_f256s(p.round1_c));
    assert(w.subrange(b, c) =~= enc_pairs(p.rounds));
    assert(w.subrange(c, c + 32) =~= enc_f256(p.final_a));
    assert(w.subrange(c + 32, c + 64) =~= enc_f256(p.final_b));
    assert(w.subrange(c + 64, d) =~= enc_f256(p.final_c));
    assert(w.subrange(d, e) =~= enc_pairs(p.lincheck_rounds));
    assert(w.subrange(e, f) =~= enc_f256s(p.z_partial));
    assert(w.subrange(f, w.len() as int) =~= enc_basefold(p.pcs_open));
}

/// An opening: the round messages, the commitment behind the first fold, the later
/// ones, the two final values, the final codeword, the tail, the nonce in eight
/// little-endian bytes, and the queries to the end.
pub proof fn lemma_opening_place(p: BaseFoldValue)
    requires
        p.post_commit.len() == 32,
        hashes_ok(p.commitments),
        p.nonce < pow2(64),
    ensures
        ({
            let w = enc_basefold(p);
            let a = 64 * p.messages.len() as int;
            let b = a + 32;
            let c = b + 32 * p.commitments.len();
            let d = c + 64;
            let e = d + 32 * p.final_codeword.len();
            let f = e + 32 * p.tail.len();
            &&& w.len() == f + 8 + enc_queries(p.queries).len()
            &&& w.subrange(0, a) == enc_messages(p.messages)
            &&& w.subrange(a, b) == p.post_commit
            &&& w.subrange(b, c) == enc_hashes(p.commitments)
            &&& w.subrange(c, c + 32) == enc_f256(p.final_a)
            &&& w.subrange(c + 32, d) == enc_f256(p.final_b)
            &&& w.subrange(d, e) == enc_f256s(p.final_codeword)
            &&& w.subrange(e, f) == enc_f256s(p.tail)
            &&& le_value(w.subrange(f, f + 8)) == p.nonce
            &&& w.subrange(f + 8, w.len() as int) == enc_queries(p.queries)
        }),
{
    lemma_messages_len(p.messages);
    lemma_hashes_len(p.commitments);
    lemma_f256_len(p.final_a);
    lemma_f256_len(p.final_b);
    lemma_f256s_len(p.final_codeword);
    lemma_f256s_len(p.tail);
    lemma_le_bytes_len(p.nonce, 8);
    lemma_le_value_bytes(p.nonce, 8);
    let w = enc_basefold(p);
    let a = 64 * p.messages.len() as int;
    let b = a + 32;
    let c = b + 32 * p.commitments.len();
    let d = c + 64;
    let e = d + 32 * p.final_codeword.len();
    let f = e + 32 * p.tail.len();
    assert(w.subrange(0, a) =~= enc_messages(p.messages));
    assert(w.subrange(a, b) =~= p.post_commit);
    assert(w.subrange(b, c) =~= enc_hashes(p.commitments));
    assert(w.subrange(c, c + 32) =~= enc_f256(p.final_a));
    assert(w.subrange(c + 32, d) =~= enc_f256(p.final_b));
    assert(w.subrange(d, e) =~= enc_f256s(p.final_codeword));
    assert(w.subrange(e, f) =~= enc_f256s(p.tail));
    assert(w.subrange(f, f + 8) =~= crate::bytes::le_bytes(p.nonce, 8));
    assert(w.subrange(f + 8, w.len() as int) =~= enc_queries(p.queries));
}

proof fn lemma_consumed_grows(p: &PcsParams, m: nat, n: nat)
    requires
        m <= n,
    ensures
        p.consumed(m) <= p.consumed(n),
    decreases n,
{
    if m < n {
        lemma_consumed_grows(p, m, (n - 1) as nat);
    }
}

/// Every layer of an opening covers its codeword: the leaves of a layer, as many as its
/// paths tell apart, hold together what the paths of the layer before tell apart.
pub proof fn lemma_layers_cover(p: &PcsParams, s: &BaseFoldWireShape, i: int)
    requires
        p.derivable(),
        p.first_fold_fits(),
        shape_of(p, s),
        p.arities@.len() > 0,
        0 <= i < s.epoch_shapes@.len(),
    ensures
        s.post_row_batch_leaf as nat * pow2(s.post_row_batch_path as nat) == pow2(
            s.initial_path as nat,
        ),
        s.epoch_shapes@[i].0 as nat * pow2(s.epoch_shapes@[i].1 as nat) == pow2(
            if i == 0 {
                s.post_row_batch_path as nat
            } else {
                s.epoch_shapes@[i - 1].1 as nat
            },
        ),
{
    let k = p.k_code();
    let a = p.arities@[0] as nat;
    lemma_pow2_adds(a, (k - a) as nat);
    lemma_consumed_grows(p, (i + 2) as nat, (p.round_commitments + 1) as nat);
    lemma_consumed_grows(p, (i + 1) as nat, (i + 2) as nat);
    let (here, before) = (p.consumed((i + 2) as nat), p.consumed((i + 1) as nat));
    let b = p.arities@[i + 1] as nat;
    assert(here == before + b);
    lemma_pow2_adds(b, (k - here) as nat);
    assert(s.epoch_shapes@[i].0 == epoch_of(p, i).0);
    if i == 0 {
        reveal_with_fuel(PcsParams::consumed, 2);
        assert(p.consumed(1) == a);
    } else {
        assert(s.epoch_shapes@[i - 1].1 == epoch_of(p, i - 1).1);
    }
}

} // verus!
