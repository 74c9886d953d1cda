use noid_recursive::circuit::{alloc_block, FieldR1csBuilder, LinExpr};
use noid_recursive::field::F128;
use noid_recursive::fri_pcs::{
    compact_queries_from_squeezes_with_bits, expr_tower_value,
    packed_capsule_queries_from_seeds_with_bits, packed_capsule_queries_from_seeds_with_bound_bits,
    CAPSULE_NUM_QUERIES, CAPSULE_QUERY_SEED_BITS,
};
use noid_recursive::multilinear::{forward_ntt_trace, mle_evaluate_small_trace};

const LOG_MAX_LEN: usize = 11;

struct Rng(u128);

impl Rng {
    fn next_u128(&mut self) -> u128 {
        self.0 = self.0.wrapping_mul(0x9E37_79B9_7F4A_7C15).wrapping_add(0xB5AD_4ECE_DA1C_E2A9);
        self.0
    }
}

fn alloc_blocks(b: &mut FieldR1csBuilder, values: &[u128]) -> Vec<LinExpr> {
    values.iter().map(|&value| alloc_block(b, F128::from_u128(value))).collect()
}

fn seed_count(log_max_len: usize) -> usize {
    (CAPSULE_NUM_QUERIES * log_max_len + CAPSULE_QUERY_SEED_BITS - 1) / CAPSULE_QUERY_SEED_BITS
}

/// The queries read consecutive digits of the seeds.
fn queries_from_seeds(seeds: &[u128], log_max_len: usize) -> Vec<usize> {
    (0..CAPSULE_NUM_QUERIES)
        .map(|query| {
            (0..log_max_len).fold(0usize, |index, bit| {
                let at = query * log_max_len + bit;
                let digit = (seeds[at / 128] >> (at % 128)) & 1;
                index | ((digit as usize) << bit)
            })
        })
        .collect()
}

#[test]
fn queries_from_squeezes_match_native_mask_rule() {
    let mut rng = Rng(0x9E37);
    let log_max_len = 14usize;
    let squeezed: Vec<u128> = (0..8).map(|_| rng.next_u128()).collect();
    let mut b = FieldR1csBuilder::new();
    let wires = alloc_blocks(&mut b, &squeezed);
    let (indices, bits) = compact_queries_from_squeezes_with_bits(&mut b, &wires, log_max_len);
    for (q, e) in squeezed.iter().enumerate() {
        let native = (e & ((1u128 << log_max_len) - 1)) as usize;
        assert_eq!(indices[q], native, "query {q} index");
        assert_eq!(expr_tower_value(&b, &wires[q]), *e);
        for (i, bit) in bits[q].iter().enumerate() {
            let expect = (native >> i) & 1 == 1;
            assert_eq!(bit.eval(b.values()) != F128::zero(), expect, "query {q} bit {i}");
        }
    }
    let (r1cs, z) = b.build();
    assert!(r1cs.satisfies(&z), "honest decomposition satisfies");
}

#[test]
fn packed_capsule_seed_bits_match_native_query_mapping() {
    let native: Vec<u128> = (0..seed_count(LOG_MAX_LEN))
        .map(|seed| {
            (0x9E37_79B9_7F4A_7C15u128.wrapping_mul(seed as u128 + 1))
                ^ ((seed as u128 + 0xA5) << 79)
        })
        .collect();
    let expected = queries_from_seeds(&native, LOG_MAX_LEN);
    let mut b = FieldR1csBuilder::new();
    let seeds = alloc_blocks(&mut b, &native);
    let before = b.num_wires();
    let (indices, bits) = packed_capsule_queries_from_seeds_with_bits(&mut b, &seeds, LOG_MAX_LEN);
    assert_eq!(indices, expected);
    assert_eq!(bits.len(), CAPSULE_NUM_QUERIES);
    assert!(bits.iter().all(|query| query.len() == LOG_MAX_LEN));
    assert_eq!(
        b.num_wires() - before,
        seed_count(LOG_MAX_LEN) * (CAPSULE_QUERY_SEED_BITS + 1),
        "one full decomposition and recomposition pin per seed"
    );
    let first_bit_wire = bits[0][0].terms[0].0;
    let (r1cs, witness) = b.build();
    assert!(r1cs.satisfies(&witness));
    let mut bad = witness.clone();
    bad[first_bit_wire] = bad[first_bit_wire].add(F128::one());
    assert!(!r1cs.satisfies(&bad), "query bit must remain bound to its seed wire");

    let alternate: Vec<u128> = native
        .iter()
        .enumerate()
        .map(|(i, seed)| seed ^ ((i as u128 + 1) << 37) ^ 1)
        .collect();
    let mut b2 = FieldR1csBuilder::new();
    let seeds2 = alloc_blocks(&mut b2, &alternate);
    let _ = packed_capsule_queries_from_seeds_with_bits(&mut b2, &seeds2, LOG_MAX_LEN);
    let (r1cs2, witness2) = b2.build();
    assert!(r1cs2.satisfies(&witness2));
    assert_eq!(r1cs.rows, r1cs2.rows, "packed query mapping must be content-invariant");
}

#[test]
fn packed_capsule_seed_bits_reuse_separately_boolean_carriers() {
    let native: Vec<u128> = (0..seed_count(LOG_MAX_LEN))
        .map(|seed| 0xD15C_A11Eu128.rotate_left(seed as u32 * 7))
        .collect();
    let expected = queries_from_seeds(&native, LOG_MAX_LEN);
    let mut b = FieldR1csBuilder::new();
    let seeds = alloc_blocks(&mut b, &native);
    let mut bound: Vec<Vec<Option<LinExpr>>> = (0..CAPSULE_NUM_QUERIES)
        .map(|_| (0..LOG_MAX_LEN).map(|_| None).collect())
        .collect();
    for bit in 0..LOG_MAX_LEN {
        let wire = b.alloc_bool((expected[0] >> bit) & 1 == 1);
        bound[0][bit] = Some(LinExpr::from_wire(wire));
    }
    let before = b.num_wires();
    let (indices, bits) = packed_capsule_queries_from_seeds_with_bound_bits(
        &mut b,
        &seeds,
        LOG_MAX_LEN,
        Some(&bound),
    );
    assert_eq!(indices, expected);
    let carried: Vec<LinExpr> = bound[0].iter().map(|bit| bit.as_ref().unwrap().dup()).collect();
    assert_eq!(bits[0], carried);
    assert_eq!(
        b.num_wires() - before,
        seed_count(LOG_MAX_LEN) * (CAPSULE_QUERY_SEED_BITS + 1) - LOG_MAX_LEN,
        "each carried bit removes one duplicate boolean wire"
    );
    let (r1cs, witness) = b.build();
    assert!(r1cs.satisfies(&witness));
}

/// The transform of values, level by level.
fn transformed(message: &[u128], basis: &[F128]) -> Vec<F128> {
    let mut evals: Vec<F128> = message.iter().map(|&v| F128::from_u128(v)).collect();
    let mut len = 1usize;
    for &w in basis {
        for start in (0..evals.len()).step_by(2 * len) {
            for i in start..start + len {
                let sum = evals[i].add(evals[i + len]);
                evals[i + len] = sum.mul(w).add(evals[i + len]);
                evals[i] = sum;
            }
        }
        len *= 2;
    }
    evals
}

#[test]
fn forward_ntt_trace_matches_native_window() {
    let log_n = 4usize;
    let mut rng = Rng(7);
    let message: Vec<u128> = (0..1usize << log_n).map(|_| rng.next_u128()).collect();
    for round in [0usize, 3, 17] {
        let basis: Vec<F128> =
            (round..round + log_n).map(|i| F128::from_u128(1u128 << i)).collect();
        let native = transformed(&message, &basis);
        let mut b = FieldR1csBuilder::new();
        let wires = alloc_blocks(&mut b, &message);
        let encoded = forward_ntt_trace(&wires, &basis);
        assert_eq!(encoded.len(), native.len());
        for (e, value) in encoded.iter().zip(native.iter()) {
            assert_eq!(e.eval(b.values()), *value, "window symbol");
        }
    }
}

#[test]
fn two_values_transform_to_their_sum_and_a_multiple() {
    let mut b = FieldR1csBuilder::new();
    let wires = alloc_blocks(&mut b, &[5, 9]);
    let encoded = forward_ntt_trace(&wires, &vec![F128::one()]);
    assert_eq!(encoded[0].eval(b.values()), F128::from_u128(5 ^ 9));
    assert_eq!(encoded[1].eval(b.values()), F128::from_u128(5));
}

#[test]
fn mle_evaluate_small_trace_matches_native() {
    let mut rng = Rng(31);
    for n in [0usize, 1, 3, 5] {
        let evals: Vec<u128> = (0..1usize << n).map(|_| rng.next_u128()).collect();
        let point: Vec<u128> = (0..n).map(|_| rng.next_u128()).collect();
        let mut buf: Vec<F128> = evals.iter().map(|&v| F128::from_u128(v)).collect();
        for &r in point.iter().rev() {
            let r = F128::from_u128(r);
            let half = buf.len() / 2;
            for i in 0..half {
                buf[i] = buf[i].add(r.mul(buf[i].add(buf[i + half])));
            }
            buf.truncate(half);
        }
        let mut b = FieldR1csBuilder::new();
        let evals_e = alloc_blocks(&mut b, &evals);
        let point_e = alloc_blocks(&mut b, &point);
        let got = mle_evaluate_small_trace(&mut b, &evals_e, &point_e);
        assert_eq!(got.eval(b.values()), buf[0]);
        let (r1cs, z) = b.build();
        assert!(r1cs.satisfies(&z));
    }
}
