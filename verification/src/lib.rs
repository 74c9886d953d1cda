//! Constraint systems that accept blocks, and what their satisfying assignments
//! mean.
//!
//! A gadget appends rows to a [`circuit::FieldR1csBuilder`] and allocates the
//! values of its wires. Its contract says which rows, that the builder's own
//! values satisfy them exactly where the gadget's condition holds, and, by a
//! soundness law beside it, what every satisfying assignment binds. The modules of
//! laws state what the parts mean together: which columns, claims and messages are
//! accepted, and what an accepted one says.

pub mod accepted_claim_batch;
pub mod accepted_claim_hash;
pub mod action_compaction;
pub mod action_surface;
pub mod batch_eval;
pub mod batch_laws;
pub mod bits;
pub mod block_spine;
pub mod body_laws;
pub mod bytes;
pub mod c1_claims;
pub mod c1_claims_laws;
pub mod c1_meaning;
pub mod c1_sums;
pub mod c1_terms;
pub mod channel;
pub mod circuit;
pub mod eval_gadgets;
pub mod exact_leaves;
pub mod extension;
pub mod family_laws;
pub mod field;
pub mod fold_c1_laws;
pub mod fold_laws;
pub mod freeze_laws;
pub mod freezer;
pub mod fri_pcs;
pub mod frontier_count;
pub mod frontier_laws;
pub mod gadget;
pub mod ledger_laws;
pub mod matrix_fold;
pub mod matrix_fold_c1;
pub mod merkle_killshot;
pub mod merkle_path;
pub mod merkle_slot;
pub mod mint_allocation;
pub mod multilinear;
pub mod paired_merkle_update;
pub mod paired_region;
pub mod paired_relations;
pub mod permutation_network;
pub mod poseidon;
pub mod public_arithmetic;
pub mod query_laws;
pub mod region_laws;
pub mod relations;
pub mod replay_laws;
pub mod round_poly;
pub mod segment_compaction;
pub mod shape;
pub mod shift_laws;
pub mod sorting;
pub mod spine_claims;
pub mod spine_columns;
pub mod spine_family;
pub mod spine_laws;
pub mod spine_proofs;
pub mod spine_replay;
pub mod spine_shift;
pub mod state_roots;
pub mod statement_laws;
pub mod structural_frontier;
pub mod structural_region;
pub mod sumcheck;
pub mod tower;
pub mod transcript_laws;
pub mod transform_laws;
pub mod tx_body_spine;
pub mod tx_epoch;
pub mod wire;
pub mod wire_laws;
pub mod wire_shape;

use vstd::prelude::*;

verus! {

} // verus!
