# noid_recursive

Verified constraint-system gadgets for accepting blocks recursively: what a
circuit computes, what a satisfying assignment of it means, and the codec and
shape rules around it.

- `field`, `tower`, `circuit`, `gadget`, `bits`: the field of 2^128 elements, the
  constraint-system builder, and what rows compute and enforce.
- `permutation_network`, `sorting`, `action_*`, `mint_allocation`,
  `segment_compaction`, `public_arithmetic`, `exact_leaves`, `frontier_count`,
  `state_roots`, `tx_epoch`, `accepted_claim_batch`: the block's own rules.
- `poseidon`, `spine_*`, `block_spine`, `merkle_*`, `tx_body_spine`,
  `accepted_claim_hash`, `batch_eval`, `round_poly`, `matrix_fold*`,
  `eval_gadgets`, `multilinear`, `channel`: sumcheck verifiers in the trace.
- `paired_*`, `structural_*`, `relations`, `extension`, `c1_*`: the exact-state
  regions and the extension-field relations over committed columns.
- `wire`, `wire_shape`, `bytes`, `shape`, `freezer`: the terminal codec, the shape
  classes, and the state machine that freezes a bank.

Round constants, matrices, tags, capacity values, transcript challenges and
anything that a prover yields come in as plain arguments.

`app/` drives the freezer with a provider, a store and a prover, and gives its
errors messages. `tests/` runs the library on concrete values.
