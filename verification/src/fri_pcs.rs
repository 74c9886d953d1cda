//! Query positions from squeezed seeds.
//!
//! Every seed is decomposed into all its binary digits, which are bound to its
//! wire; the concatenated digits are split into query positions.

use vstd::prelude::*;
use vstd::arithmetic::power2::{lemma_pow2_pos, lemma_pow2_unfold, pow2};
use crate::bits::{
    all_bits, bits_nat, bits_value, bools, digit, lemma_lins_index, lemma_nat_bits_value,
    lemma_pow2_bound, lemma_range_sound, lemma_weighted_below, lemma_weighted_value, nat_bit,
    nat_bits, range_check_bits, range_rows, weighted, weighted_sum, wire_lins,
};
use crate::circuit::{
    all_below, bool_row, group_circuit, group_lin, lemma_pin_sound, lins, pin_eq, pin_rows, sat,
    Circuit, FieldR1csBuilder, Lin, LinExpr, Row,
};
use crate::field::{lemma_plus_is_zero, F128};

verus! {

broadcast use group_circuit;

/// Digits of a seed.
pub const CAPSULE_QUERY_SEED_BITS: usize = 128;

/// Queries of a capsule.
pub const CAPSULE_NUM_QUERIES: usize = 64;

/// The value of an expression.
pub fn expr_tower_value(b: &FieldR1csBuilder, e: &LinExpr) -> (r: u128)
    requires
        b@.wf(),
        e@.below(b@.rows.len()),
    ensures
        r == e@.eval(b@.values).bits,
{
    e.eval(&b.values).bits
}

// ---------------------------------------------------------------------------
// One position for every squeeze
// ---------------------------------------------------------------------------

/// The rows that decompose the first `n` squeezes, and their digits.
pub open spec fn squeezes_rows(c: Seq<Row>, squeezes: Seq<Lin>, n: nat) -> (
    Seq<Row>,
    Seq<Seq<Lin>>,
)
    decreases n,
{
    if n == 0 {
        (c, Seq::empty())
    } else {
        let (c1, digits) = squeezes_rows(c, squeezes, (n - 1) as nat);
        let (c2, bits) = range_rows(c1, squeezes[n - 1], 128);
        (c2, digits.push(bits))
    }
}

/// Soundness: a squeeze is the integer of its digits, so its low digits are its
/// position.
pub proof fn lemma_squeezes_sound(
    c: Seq<Row>,
    squeezes: Seq<Lin>,
    n: nat,
    i: int,
    width: nat,
    z: Seq<F128>,
)
    requires
        sat(squeezes_rows(c, squeezes, n).0, z),
        0 <= i < n,
        width <= 128,
    ensures
        sat(c, z),
        squeezes_rows(c, squeezes, n).1.len() == n,
        all_bits(squeezes_rows(c, squeezes, n).1[i], z),
        squeezes[i].eval(z).bits == bits_value(squeezes_rows(c, squeezes, n).1[i], z),
        bits_value(squeezes_rows(c, squeezes, n).1[i].take(width as int), z)
            == squeezes[i].eval(z).bits as nat % pow2(width),
    decreases n,
{
    let m = (n - 1) as nat;
    let (c1, digits) = squeezes_rows(c, squeezes, m);
    lemma_range_sound(c1, squeezes[n - 1], 128, z);
    lemma_squeezes_prefix(c, squeezes, m, z);
    if i < n - 1 {
        lemma_squeezes_sound(c, squeezes, m, i, width, z);
    } else {
        let bits = range_rows(c1, squeezes[n - 1], 128).1;
        crate::bits::lemma_value_split(bits, width, z);
        let (low, high) = (
            bits_value(bits.take(width as int), z) as int,
            crate::bits::high_value(bits, width, z) as int,
        );
        lemma_pow2_pos(width);
        vstd::arithmetic::mul::lemma_mul_is_commutative(pow2(width) as int, high);
        vstd::arithmetic::div_mod::lemma_fundamental_div_mod_converse(
            bits_value(bits, z) as int,
            pow2(width) as int,
            high,
            low,
        );
    }
}

proof fn lemma_squeezes_prefix(c: Seq<Row>, squeezes: Seq<Lin>, n: nat, z: Seq<F128>)
    requires
        sat(squeezes_rows(c, squeezes, n).0, z),
    ensures
        sat(c, z),
        squeezes_rows(c, squeezes, n).1.len() == n,
    decreases n,
{
    if n > 0 {
        let (c1, digits) = squeezes_rows(c, squeezes, (n - 1) as nat);
        lemma_range_sound(c1, squeezes[n - 1], 128, z);
        lemma_squeezes_prefix(c, squeezes, (n - 1) as nat, z);
    }
}

/// The expressions of rows of expressions.
pub open spec fn digit_rows(s: Seq<Vec<LinExpr>>) -> Seq<Seq<Lin>> {
    Seq::new(s.len(), |i: int| lins(s[i]@))
}

/// One position for every squeeze: its low digits.
pub fn compact_queries_from_squeezes_with_bits(
    b: &mut FieldR1csBuilder,
    squeezes: &Vec<LinExpr>,
    log_max_len: usize,
) -> (r: (Vec<usize>, Vec<Vec<LinExpr>>))
    requires
        old(b)@.wf(),
        all_below(lins(squeezes@), old(b)@.rows.len()),
        log_max_len < usize::BITS,
    ensures
        final(b)@.rows == squeezes_rows(
            old(b)@.rows,
            lins(squeezes@),
            squeezes@.len(),
        ).0,
        final(b)@.grows(old(b)@),
        final(b)@.honest() <==> old(b)@.honest(),
        r.0@.len() == squeezes@.len(),
        r.1@.len() == squeezes@.len(),
        forall|i: int|
            0 <= i < squeezes@.len() ==> #[trigger] r.0@[i] == squeezes@[i]@.eval(
                old(b)@.values,
            ).bits as nat % pow2(log_max_len as nat),
        forall|i: int|
            0 <= i < squeezes@.len() ==> lins((#[trigger] r.1@[i])@) == squeezes_rows(
                old(b)@.rows,
                lins(squeezes@),
                squeezes@.len(),
            ).1[i].take(log_max_len as int),
{
    let ghost b0 = b@;
    let ghost sq = lins(squeezes@);
    let mut indices: Vec<usize> = Vec::new();
    let mut all: Vec<Vec<LinExpr>> = Vec::new();
    let mut i: usize = 0;
    proof {
        vstd::arithmetic::power2::lemma2_to64();
        vstd::arithmetic::power2::lemma2_to64_rest();
        lemma_pow2_bound(log_max_len as nat, (usize::BITS - 1) as nat);
        lemma_pow2_pos(log_max_len as nat);
    }
    while i < squeezes.len()
        invariant
            i <= squeezes@.len(),
            sq == lins(squeezes@),
            b0.wf(),
            b@.wf(),
            b@.grows(b0),
            b@.honest() <==> b0.honest(),
            all_below(sq, b0.rows.len()),
            log_max_len < usize::BITS,
            0 < pow2(log_max_len as nat) <= usize::MAX,
            indices@.len() == i,
            all@.len() == i,
            b@.rows == squeezes_rows(b0.rows, sq, i as nat).0,
            squeezes_rows(b0.rows, sq, i as nat).1.len() == i,
            forall|j: int|
                0 <= j < i ==> #[trigger] indices@[j] == squeezes@[j]@.eval(b0.values).bits as nat
                    % pow2(log_max_len as nat),
            forall|j: int|
                0 <= j < i ==> lins((#[trigger] all@[j])@) == squeezes_rows(
                    b0.rows,
                    sq,
                    i as nat,
                ).1[j].take(log_max_len as int),
        decreases squeezes@.len() - i,
    {
        let ghost b1 = b@;
        proof {
            lemma_lins_index(squeezes@, i as int);
            assert(sq[i as int].below(b0.rows.len()));
            crate::bits::lemma_pow2_128();
        }
        let value: u128 = expr_tower_value(b, &squeezes[i]);
        let bits = range_check_bits(b, &squeezes[i], CAPSULE_QUERY_SEED_BITS);
        let index: usize = low_digits(value, log_max_len);
        let mut low: Vec<LinExpr> = Vec::new();
        let mut k: usize = 0;
        while k < log_max_len
            invariant
                k <= log_max_len,
                log_max_len < 128,
                bits@.len() == 128,
                low@.len() == k,
                forall|l: int| 0 <= l < k ==> (#[trigger] low@[l])@ == wire_lins(bits@)[l],
            decreases log_max_len - k,
        {
            low.push(LinExpr::from_wire(bits[k]));
            k += 1;
        }
        let ghost before = all@;
        let ghost prior = indices@;
        proof {
            assert(lins(low@) =~= wire_lins(bits@).take(log_max_len as int));
        }
        indices.push(index);
        all.push(low);
        proof {
            let d0 = squeezes_rows(b0.rows, sq, i as nat).1;
            let d1 = squeezes_rows(b0.rows, sq, (i + 1) as nat).1;
            assert(d1 == d0.push(wire_lins(bits@)));
            assert forall|j: int| 0 <= j <= i implies lins((#[trigger] all@[j])@)
                == d1[j].take(log_max_len as int) by {
                if j < i {
                    assert(all@[j] == before[j]);
                    assert(d1[j] == d0[j]);
                }
            }
            assert forall|j: int| 0 <= j <= i implies #[trigger] indices@[j] == squeezes@[j]@.eval(
                b0.values,
            ).bits as nat % pow2(log_max_len as nat) by {
                if j < i {
                    assert(indices@[j] == prior[j]);
                }
            }
        }
        i += 1;
    }
    (indices, all)
}

/// The integer of the low digits of a value.
fn low_digits(value: u128, width: usize) -> (r: usize)
    requires
        width <= 128,
        0 < pow2(width as nat) <= usize::MAX + 1,
    ensures
        r == value as nat % pow2(width as nat),
{
    let mut r: usize = 0;
    let mut k: usize = 0;
    let mut p: u128 = 1;
    proof {
        vstd::arithmetic::power2::lemma2_to64();
        assert(nat_bits(value as nat, 0) =~= Seq::empty());
    }
    while k < width
        invariant
            k <= width <= 128,
            pow2(width as nat) <= usize::MAX + 1,
            p == pow2(k as nat),
            r == bits_nat(nat_bits(value as nat, k as nat)),
        decreases width - k,
    {
        proof {
            lemma_pow2_unfold((k + 1) as nat);
            lemma_pow2_bound((k + 1) as nat, width as nat);
            let s = nat_bits(value as nat, k as nat);
            crate::bits::lemma_bits_nat_bound(s);
            assert(nat_bits(value as nat, (k + 1) as nat).drop_last() =~= s);
        }
        if digit(value, k) {
            r = r + p as usize;
        }
        p = p * 2;
        k += 1;
    }
    proof {
        lemma_nat_bits_value(value as nat, width as nat);
    }
    r
}

// ---------------------------------------------------------------------------
// Positions packed into seeds
// ---------------------------------------------------------------------------

/// The first `n` digits of a seed: those carried by given expressions, and
/// fresh boolean wires for the others.
pub open spec fn carried_rows(c: Seq<Row>, carriers: Seq<Option<Lin>>, n: nat) -> (
    Seq<Row>,
    Seq<Lin>,
)
    decreases n,
{
    if n == 0 {
        (c, Seq::empty())
    } else {
        let (c1, bits) = carried_rows(c, carriers, (n - 1) as nat);
        match carriers[n - 1] {
            Some(e) => (c1, bits.push(e)),
            None => (
                c1.push(bool_row(c1.len() as usize)),
                bits.push(Lin::wire(c1.len() as usize)),
            ),
        }
    }
}

/// The rows that decompose a seed, and its digits.
pub open spec fn seed_rows(c: Seq<Row>, e: Lin, carriers: Seq<Option<Lin>>) -> (
    Seq<Row>,
    Seq<Lin>,
) {
    let (c1, bits) = carried_rows(c, carriers, 128);
    (pin_rows(c1, e.plus(weighted(bits, 0))), bits)
}

/// Carriers of query digits, by query.
pub open spec fn carrier_rows(s: Seq<Vec<Option<LinExpr>>>) -> Seq<Seq<Option<Lin>>> {
    Seq::new(
        s.len(),
        |i: int|
            Seq::new(
                s[i]@.len(),
                |j: int|
                    match s[i]@[j] {
                        Some(e) => Some(e@),
                        None => None,
                    },
            ),
    )
}

/// The carriers of a seed: stream position `128 * seed + bit` is digit
/// `position % width` of query `position / width`.
pub open spec fn seed_carriers(
    bound: Option<Seq<Seq<Option<Lin>>>>,
    queries: int,
    width: int,
    seed: int,
) -> Seq<Option<Lin>> {
    Seq::new(
        128,
        |bit: int|
            {
                let at = 128 * seed + bit;
                if bound is Some && at / width < queries {
                    bound->Some_0[at / width][at % width]
                } else {
                    None
                }
            },
    )
}

/// The rows that decompose the first `n` seeds, and their digits.
pub open spec fn seeds_rows(
    c: Seq<Row>,
    seeds: Seq<Lin>,
    bound: Option<Seq<Seq<Option<Lin>>>>,
    queries: int,
    width: int,
    n: nat,
) -> (Seq<Row>, Seq<Seq<Lin>>)
    decreases n,
{
    if n == 0 {
        (c, Seq::empty())
    } else {
        let (c1, digits) = seeds_rows(c, seeds, bound, queries, width, (n - 1) as nat);
        let (c2, bits) = seed_rows(c1, seeds[n - 1], seed_carriers(bound, queries, width, n - 1));
        (c2, digits.push(bits))
    }
}

proof fn lemma_carried_sound(c: Seq<Row>, carriers: Seq<Option<Lin>>, n: nat, z: Seq<F128>)
    requires
        sat(carried_rows(c, carriers, n).0, z),
        n <= carriers.len(),
        forall|i: int|
            0 <= i < n && (#[trigger] carriers[i]) is Some ==> carriers[i]->Some_0.eval(
                z,
            ).is_bit(),
    ensures
        sat(c, z),
        carried_rows(c, carriers, n).1.len() == n,
        all_bits(carried_rows(c, carriers, n).1, z),
    decreases n,
{
    reveal(all_bits);
    if n > 0 {
        let m = (n - 1) as nat;
        let (c1, bits) = carried_rows(c, carriers, m);
        match carriers[n - 1] {
            Some(e) => {},
            None => {
                crate::circuit::lemma_bool_sound(c1, z);
            },
        }
        lemma_carried_sound(c, carriers, m, z);
        let now = carried_rows(c, carriers, n).1;
        assert forall|i: int| 0 <= i < now.len() implies (#[trigger] now[i]).eval(z).is_bit() by {
            if i < m {
                assert(now[i] == bits[i]);
            }
        }
    }
}

/// Soundness: where the carriers are bits, a seed is the integer of its
/// digits.
pub proof fn lemma_seed_sound(c: Seq<Row>, e: Lin, carriers: Seq<Option<Lin>>, z: Seq<F128>)
    requires
        carriers.len() == 128,
        sat(seed_rows(c, e, carriers).0, z),
        forall|i: int|
            0 <= i < 128 && (#[trigger] carriers[i]) is Some ==> carriers[i]->Some_0.eval(
                z,
            ).is_bit(),
    ensures
        sat(c, z),
        seed_rows(c, e, carriers).1.len() == 128,
        all_bits(seed_rows(c, e, carriers).1, z),
        e.eval(z).bits == bits_value(seed_rows(c, e, carriers).1, z),
{
    broadcast use {group_lin, lemma_plus_is_zero};

    let (c1, bits) = carried_rows(c, carriers, 128);
    lemma_pin_sound(c1, e.plus(weighted(bits, 0)), z);
    lemma_carried_sound(c, carriers, 128, z);
    lemma_weighted_value(bits, z);
}

/// Soundness: where the carriers are bits, every seed is the integer of its
/// digits.
pub proof fn lemma_seeds_sound(
    c: Seq<Row>,
    seeds: Seq<Lin>,
    bound: Option<Seq<Seq<Option<Lin>>>>,
    queries: int,
    width: int,
    n: nat,
    z: Seq<F128>,
)
    requires
        sat(seeds_rows(c, seeds, bound, queries, width, n).0, z),
        forall|s: int, i: int|
            0 <= s < n && 0 <= i < 128 && (#[trigger] seed_carriers(
                bound,
                queries,
                width,
                s,
            )[i]) is Some ==> seed_carriers(bound, queries, width, s)[i]->Some_0.eval(z).is_bit(),
    ensures
        sat(c, z),
        seeds_rows(c, seeds, bound, queries, width, n).1.len() == n,
        forall|s: int|
            0 <= s < n ==> all_bits(
                #[trigger] seeds_rows(c, seeds, bound, queries, width, n).1[s],
                z,
            ) && seeds[s].eval(z).bits == bits_value(
                seeds_rows(c, seeds, bound, queries, width, n).1[s],
                z,
            ),
    decreases n,
{
    if n > 0 {
        let m = (n - 1) as nat;
        let (c1, digits) = seeds_rows(c, seeds, bound, queries, width, m);
        let carriers = seed_carriers(bound, queries, width, n - 1);
        lemma_seed_sound(c1, seeds[n - 1], carriers, z);
        lemma_seeds_sound(c, seeds, bound, queries, width, m, z);
        let now = seeds_rows(c, seeds, bound, queries, width, n).1;
        assert forall|s: int| 0 <= s < n implies all_bits(#[trigger] now[s], z) && seeds[s].eval(
            z,
        ).bits == bits_value(now[s], z) by {
            if s < m {
                assert(now[s] == digits[s]);
            }
        }
    }
}

/// A seed's digits, its carried ones and fresh wires for the others, bound to
/// its wire. Nothing here holds the carriers to be bits.
fn decompose_squeeze_bits_with_carriers(
    b: &mut FieldR1csBuilder,
    e: &LinExpr,
    carriers: &Vec<Option<LinExpr>>,
    Ghost(wanted): Ghost<Seq<Option<Lin>>>,
) -> (bits: Vec<LinExpr>)
    requires
        old(b)@.wf(),
        e@.below(old(b)@.rows.len()),
        carriers@.len() == 128,
        wanted.len() == 128,
        forall|i: int|
            0 <= i < 128 ==> #[trigger] wanted[i] == match carriers@[i] {
                Some(x) => Some(x@),
                None => None,
            },
        forall|i: int|
            0 <= i < 128 && (#[trigger] wanted[i]) is Some ==> wanted[i]->Some_0.below(
                old(b)@.rows.len(),
            ),
    ensures
        (final(b)@.rows, lins(bits@)) == seed_rows(old(b)@.rows, e@, wanted),
        final(b)@.grows(old(b)@),
        bits@.len() == 128,
        all_below(lins(bits@), final(b)@.rows.len()),
        forall|i: int|
            0 <= i < 128 ==> (#[trigger] bits@[i])@.eval(final(b)@.values) == match wanted[i] {
                Some(x) => x.eval(old(b)@.values),
                None => F128::of_bool(nat_bit(e@.eval(old(b)@.values).bits as nat, i as nat)),
            },
        final(b)@.honest() <==> old(b)@.honest() && e@.eval(old(b)@.values) == weighted(
            lins(bits@),
            0,
        ).eval(final(b)@.values),
{
    broadcast use {group_lin, lemma_plus_is_zero};

    let ghost b0 = b@;
    let value: u128 = expr_tower_value(b, e);
    let mut bits: Vec<LinExpr> = Vec::new();
    while bits.len() < CAPSULE_QUERY_SEED_BITS
        invariant
            bits@.len() <= 128,
            b0.wf(),
            b@.wf(),
            b@.grows(b0),
            b@.honest() <==> b0.honest(),
            value == e@.eval(b0.values).bits,
            carriers@.len() == 128,
            wanted.len() == 128,
            forall|i: int|
                0 <= i < 128 ==> #[trigger] wanted[i] == match carriers@[i] {
                    Some(x) => Some(x@),
                    None => None,
                },
            forall|i: int|
                0 <= i < 128 && (#[trigger] wanted[i]) is Some ==> wanted[i]->Some_0.below(
                    b0.rows.len(),
                ),
            (b@.rows, lins(bits@)) == carried_rows(b0.rows, wanted, bits@.len()),
            forall|i: int| 0 <= i < bits@.len() ==> (#[trigger] bits@[i])@.below(b@.rows.len()),
            forall|i: int|
                0 <= i < bits@.len() ==> (#[trigger] bits@[i])@.eval(b@.values)
                    == match wanted[i] {
                    Some(x) => x.eval(b0.values),
                    None => F128::of_bool(nat_bit(value as nat, i as nat)),
                },
        decreases 128 - bits@.len(),
    {
        let i: usize = bits.len();
        let ghost b1 = b@;
        let ghost prior = bits@;
        assert(wanted[i as int] == match carriers@[i as int] {
            Some(x) => Some(x@),
            None => None,
        });
        let bit = match &carriers[i] {
            Some(x) => x.dup(),
            None => LinExpr::from_wire(b.alloc_bool(digit(value, i))),
        };
        bits.push(bit);
        proof {
            assert(lins(bits@) =~= lins(prior).push(bit@));
            assert forall|j: int| 0 <= j <= i implies (#[trigger] bits@[j])@.below(
                b@.rows.len(),
            ) by {
                if j < i {
                    assert(bits@[j] == prior[j]);
                }
            }
            assert forall|j: int| 0 <= j <= i implies (#[trigger] bits@[j])@.eval(b@.values)
                == match wanted[j] {
                Some(x) => x.eval(b0.values),
                None => F128::of_bool(nat_bit(value as nat, j as nat)),
            } by {
                if j < i {
                    assert(bits@[j] == prior[j]);
                    assert(prior[j]@.eval(b1.values) == prior[j]@.eval(b@.values));
                }
            }
        }
    }
    let ghost b1 = b@;
    proof {
        assert forall|i: int| 0 <= i < 128 implies (#[trigger] lins(bits@)[i]).below(
            b1.rows.len(),
        ) by {
            lemma_lins_index(bits@, i);
            assert(bits@[i]@.below(b1.rows.len()));
        }
        lemma_weighted_below(lins(bits@), 0, b@.rows.len());
    }
    let recomposed = weighted_sum(&bits, 0);
    pin_eq(b, e, &recomposed);
    proof {
        assert forall|i: int| 0 <= i < 128 implies (#[trigger] bits@[i])@.eval(b@.values)
            == match wanted[i] {
            Some(x) => x.eval(b0.values),
            None => F128::of_bool(nat_bit(value as nat, i as nat)),
        } by {
            assert(bits@[i]@.below(b1.rows.len()));
            assert(bits@[i]@.eval(b1.values) == bits@[i]@.eval(b@.values));
        }
        assert(all_below(lins(bits@), b@.rows.len()));
    }
    bits
}

/// Seeds for a number of queries of a width.
pub open spec fn seed_count(queries: nat, width: nat) -> nat {
    (queries * width + 127) / 128
}

pub open spec fn bound_view(bound: Option<&Vec<Vec<Option<LinExpr>>>>) -> Option<
    Seq<Seq<Option<Lin>>>,
> {
    match bound {
        Some(v) => Some(carrier_rows(v@)),
        None => None,
    }
}

/// Carriers have the shape of the queries, refer to allocated wires, and are
/// nonzero exactly where the seed digit they carry is set.
pub open spec fn carriers_ok(
    bound: Option<Seq<Seq<Option<Lin>>>>,
    seeds: Seq<Lin>,
    queries: int,
    width: int,
    b: Circuit,
) -> bool {
    bound is Some ==> {
        &&& bound->Some_0.len() == queries
        &&& forall|q: int| 0 <= q < queries ==> (#[trigger] bound->Some_0[q]).len() == width
        &&& forall|q: int, k: int|
            0 <= q < queries && 0 <= k < width && (#[trigger] bound->Some_0[q][k]) is Some
                ==> carrier_ok(bound->Some_0[q][k]->Some_0, seeds, q * width + k, b)
    }
}

pub open spec fn carrier_ok(e: Lin, seeds: Seq<Lin>, at: int, b: Circuit) -> bool {
    &&& e.below(b.rows.len())
    &&& (e.eval(b.values) != F128::zero()) == nat_bit(
        seeds[at / 128].eval(b.values).bits as nat,
        (at % 128) as nat,
    )
}

/// The digits of a query's position.
pub open spec fn query_digits(seeds: Seq<Lin>, z: Seq<F128>, q: int, width: int) -> Seq<bool> {
    Seq::new(
        width as nat,
        |k: int|
            nat_bit(
                seeds[(q * width + k) / 128].eval(z).bits as nat,
                ((q * width + k) % 128) as nat,
            ),
    )
}

/// Every seed is the recomposition of its digits.
pub open spec fn recomposed(seeds: Seq<Lin>, digits: Seq<Seq<Lin>>, z: Seq<F128>) -> bool {
    forall|s: int|
        0 <= s < digits.len() ==> seeds[s].eval(z) == weighted(#[trigger] digits[s], 0).eval(z)
}

proof fn lemma_positions(queries: int, width: int, q: int, k: int)
    requires
        0 <= q < queries,
        0 <= k < width,
    ensures
        0 <= q * width + k < queries * width,
        (q * width + k) / width == q,
        (q * width + k) % width == k,
        0 <= (q * width + k) / 128 < (queries * width + 127) / 128,
{
    assert(0 <= q * width + k < queries * width) by (nonlinear_arith)
        requires
            0 <= q < queries,
            0 <= k < width,
    ;
    vstd::arithmetic::div_mod::lemma_fundamental_div_mod_converse(q * width + k, width, q, k);
}

proof fn lemma_split(at: int, queries: int, width: int)
    requires
        0 <= at < queries * width,
        width > 0,
    ensures
        0 <= at / width < queries,
        0 <= at % width < width,
        (at / width) * width + at % width == at,
{
    vstd::arithmetic::div_mod::lemma_fundamental_div_mod(at, width);
    let (d, m) = (at / width, at % width);
    assert(d * width + m == at) by (nonlinear_arith)
        requires
            at == width * d + m,
    ;
    assert(0 <= d < queries) by (nonlinear_arith)
        requires
            d * width + m == at,
            0 <= m < width,
            0 <= at < queries * width,
    ;
}

/// The carriers of a seed.
fn carriers_for(
    bound: Option<&Vec<Vec<Option<LinExpr>>>>,
    queries: usize,
    width: usize,
    seed: usize,
) -> (r: Vec<Option<LinExpr>>)
    requires
        width > 0,
        queries * width <= usize::MAX,
        128 * seed < queries * width,
        bound is Some ==> bound->Some_0@.len() == queries && forall|q: int|
            0 <= q < queries ==> (#[trigger] bound->Some_0@[q])@.len() == width,
    ensures
        r@.len() == 128,
        forall|i: int|
            0 <= i < 128 ==> #[trigger] seed_carriers(
                bound_view(bound),
                queries as int,
                width as int,
                seed as int,
            )[i] == match r@[i] {
                Some(x) => Some(x@),
                None => None,
            },
{
    let mut r: Vec<Option<LinExpr>> = Vec::new();
    let total: usize = queries * width;
    let base: usize = 128 * seed;
    while r.len() < CAPSULE_QUERY_SEED_BITS
        invariant
            r@.len() <= 128,
            width > 0,
            total == queries * width,
            base == 128 * seed,
            base < total,
            bound is Some ==> bound->Some_0@.len() == queries && forall|q: int|
                0 <= q < queries ==> (#[trigger] bound->Some_0@[q])@.len() == width,
            forall|i: int|
                0 <= i < r@.len() ==> #[trigger] seed_carriers(
                    bound_view(bound),
                    queries as int,
                    width as int,
                    seed as int,
                )[i] == match r@[i] {
                    Some(x) => Some(x@),
                    None => None,
                },
        decreases 128 - r@.len(),
    {
        let bit: usize = r.len();
        let ghost prior = r@;
        let next: Option<LinExpr> = match bound {
            Some(v) => {
                if bit < total - base {
                    let at: usize = base + bit;
                    proof {
                        lemma_split(at as int, queries as int, width as int);
                        assert(bound->Some_0@[at as int / width as int]@.len() == width);
                    }
                    match &v[at / width][at % width] {
                        Some(e) => Some(e.dup()),
                        None => None,
                    }
                } else {
                    proof {
                        let at = base + bit;
                        vstd::arithmetic::div_mod::lemma_fundamental_div_mod(
                            at as int,
                            width as int,
                        );
                        let (d, w, q) = (at as int / width as int, width as int, queries as int);
                        let m = at as int % width as int;
                        vstd::arithmetic::div_mod::lemma_mod_bound(at as int, w);
                        assert(d >= q) by (nonlinear_arith)
                            requires
                                at == w * d + m,
                                0 <= m < w,
                                at >= q * w,
                        ;
                    }
                    None
                }
            },
            None => None,
        };
        r.push(next);
        proof {
            let view = seed_carriers(bound_view(bound), queries as int, width as int, seed as int);
            assert forall|i: int| 0 <= i <= bit implies #[trigger] view[i] == match r@[i] {
                Some(x) => Some(x@),
                None => None,
            } by {
                if i < bit {
                    assert(r@[i] == prior[i]);
                    assert(view[i] == match prior[i] {
                        Some(x) => Some(x@),
                        None => None,
                    });
                } else {
                    assert(r@[i] == next);
                }
            }
        }
    }
    r
}

/// The position of a query.
fn query_index(natives: &Vec<u128>, query: usize, width: usize, Ghost(values): Ghost<Seq<bool>>) -> (r:
    usize)
    requires
        0 < width <= 128,
        pow2(width as nat) <= usize::MAX + 1,
        (query + 1) * width <= usize::MAX,
        (query + 1) * width <= 128 * natives@.len(),
        values == Seq::new(
            width as nat,
            |k: int|
                nat_bit(
                    natives@[(query * width + k) / 128] as nat,
                    ((query * width + k) % 128) as nat,
                ),
        ),
    ensures
        r == bits_nat(values),
{
    let mut r: usize = 0;
    let mut k: usize = 0;
    let mut p: u128 = 1;
    proof {
        vstd::arithmetic::power2::lemma2_to64();
        assert(values.take(0) =~= Seq::empty());
        assert((query + 1) * width == query * width + width) by (nonlinear_arith);
    }
    let base: usize = query * width;
    while k < width
        invariant
            k <= width <= 128,
            base == query * width,
            base + width <= usize::MAX,
            base + width <= 128 * natives@.len(),
            pow2(width as nat) <= usize::MAX + 1,
            p == pow2(k as nat),
            values == Seq::new(
                width as nat,
                |k: int|
                    nat_bit(
                        natives@[(query * width + k) / 128] as nat,
                        ((query * width + k) % 128) as nat,
                    ),
            ),
            r == bits_nat(values.take(k as int)),
        decreases width - k,
    {
        proof {
            lemma_pow2_unfold((k + 1) as nat);
            lemma_pow2_bound((k + 1) as nat, width as nat);
            crate::bits::lemma_bits_nat_bound(values.take(k as int));
            assert(values.take(k + 1).drop_last() =~= values.take(k as int));
            assert(values.take(k + 1).last() == values[k as int]);
        }
        let at: usize = base + k;
        if digit(natives[at / 128], at % 128) {
            r = r + p as usize;
        }
        p = p * 2;
        k += 1;
    }
    assert(values.take(k as int) =~= values);
    r
}

/// Every carrier is a bit.
pub open spec fn carriers_bits(
    bound: Option<Seq<Seq<Option<Lin>>>>,
    queries: int,
    width: int,
    z: Seq<F128>,
) -> bool {
    bound is Some ==> forall|q: int, k: int|
        0 <= q < queries && 0 <= k < width && (#[trigger] bound->Some_0[q][k]) is Some
            ==> bound->Some_0[q][k]->Some_0.eval(z).is_bit()
}

/// What packing gives: the rows that bind the seeds to their digits, the digits
/// of every query among them, and the positions. The values satisfy the new
/// rows where every seed is the recomposition of its digits, which holds where
/// the carriers are bits.
pub open spec fn queries_packed(
    before: Circuit,
    after: Circuit,
    seeds: Seq<Lin>,
    queries: int,
    width: int,
    bound: Option<Seq<Seq<Option<Lin>>>>,
    indices: Seq<usize>,
    bits: Seq<Seq<Lin>>,
) -> bool {
    let (rows, digits) = seeds_rows(before.rows, seeds, bound, queries, width, seeds.len());
    &&& after.rows == rows
    &&& after.grows(before)
    &&& after.honest() <==> before.honest() && recomposed(seeds, digits, after.values)
    &&& carriers_bits(bound, queries, width, before.values) ==> recomposed(
        seeds,
        digits,
        after.values,
    )
    &&& indices.len() == queries
    &&& bits.len() == queries
    &&& forall|q: int| 0 <= q < queries ==> (#[trigger] bits[q]).len() == width
    &&& forall|q: int, k: int|
        0 <= q < queries && 0 <= k < width ==> #[trigger] bits[q][k] == digits[(q * width + k)
            / 128][(q * width + k) % 128]
    &&& forall|q: int, k: int|
        0 <= q < queries && 0 <= k < width ==> ((#[trigger] bits[q][k]).eval(after.values)
            != F128::zero()) == query_digits(seeds, before.values, q, width)[k]
    &&& forall|q: int|
        0 <= q < queries ==> #[trigger] indices[q] == bits_nat(
            query_digits(seeds, before.values, q, width),
        )
}

/// Positions packed into the digits of seeds, `query_count` of them. Digits of
/// queries may be carried by given expressions, which must be bits by other
/// means; the others get fresh boolean wires.
#[verifier::rlimit(40)]
pub fn packed_queries_from_seeds_with_bound_bits_for_count(
    b: &mut FieldR1csBuilder,
    seeds: &Vec<LinExpr>,
    query_count: usize,
    log_max_len: usize,
    bound_query_bits: Option<&Vec<Vec<Option<LinExpr>>>>,
) -> (r: (Vec<usize>, Vec<Vec<LinExpr>>))
    requires
        old(b)@.wf(),
        all_below(lins(seeds@), old(b)@.rows.len()),
        0 < log_max_len <= usize::BITS,
        query_count > 0,
        query_count * log_max_len <= usize::MAX,
        seeds@.len() == seed_count(query_count as nat, log_max_len as nat),
        carriers_ok(
            bound_view(bound_query_bits),
            lins(seeds@),
            query_count as int,
            log_max_len as int,
            old(b)@,
        ),
    ensures
        queries_packed(
            old(b)@,
            final(b)@,
            lins(seeds@),
            query_count as int,
            log_max_len as int,
            bound_view(bound_query_bits),
            r.0@,
            digit_rows(r.1@),
        ),
{
    let ghost b0 = b@;
    let ghost sd = lins(seeds@);
    let ghost bound = bound_view(bound_query_bits);
    let ghost (qc, w) = (query_count as int, log_max_len as int);
    let width: usize = log_max_len;
    let count: usize = seeds.len();
    proof {
        vstd::arithmetic::power2::lemma2_to64();
        vstd::arithmetic::power2::lemma2_to64_rest();
        lemma_pow2_bound(width as nat, usize::BITS as nat);
        assert(qc * w >= 1) by (nonlinear_arith)
            requires
                qc > 0,
                w > 0,
        ;
        assert(count == (qc * w + 127) / 128);
        if bound_query_bits is Some {
            let v = bound_query_bits->Some_0@;
            assert(bound->Some_0.len() == v.len());
            assert forall|q: int| 0 <= q < qc implies (#[trigger] v[q])@.len() == w by {
                assert(bound->Some_0[q].len() == w);
            }
        }
    }
    let mut natives: Vec<u128> = Vec::new();
    while natives.len() < count
        invariant
            natives@.len() <= count,
            count == seeds@.len(),
            b@ == b0,
            b0.wf(),
            sd == lins(seeds@),
            all_below(sd, b0.rows.len()),
            forall|s: int|
                0 <= s < natives@.len() ==> #[trigger] natives@[s] == sd[s].eval(b0.values).bits,
        decreases count - natives@.len(),
    {
        let s: usize = natives.len();
        proof {
            lemma_lins_index(seeds@, s as int);
            assert(sd[s as int].below(b0.rows.len()));
        }
        natives.push(expr_tower_value(b, &seeds[s]));
    }
    let mut indices: Vec<usize> = Vec::new();
    while indices.len() < query_count
        invariant
            indices@.len() <= query_count,
            width == w,
            query_count == qc,
            0 < w <= 128,
            pow2(width as nat) <= usize::MAX + 1,
            qc * w <= usize::MAX,
            count == (qc * w + 127) / 128,
            natives@.len() == count,
            count == sd.len(),
            forall|s: int|
                0 <= s < count ==> #[trigger] natives@[s] == sd[s].eval(b0.values).bits,
            forall|q: int|
                0 <= q < indices@.len() ==> #[trigger] indices@[q] == bits_nat(
                    query_digits(sd, b0.values, q, w),
                ),
        decreases query_count - indices@.len(),
    {
        let q: usize = indices.len();
        let ghost digits = query_digits(sd, b0.values, q as int, w);
        proof {
            assert((q + 1) * w <= qc * w) by (nonlinear_arith)
                requires
                    q + 1 <= qc,
                    w > 0,
            ;
            assert(digits =~= Seq::new(
                width as nat,
                |k: int|
                    nat_bit(
                        natives@[(q * width + k) / 128] as nat,
                        ((q * width + k) % 128) as nat,
                    ),
            )) by {
                assert forall|k: int| 0 <= k < w implies digits[k] == nat_bit(
                    natives@[(q * width + k) / 128] as nat,
                    ((q * width + k) % 128) as nat,
                ) by {
                    lemma_positions(qc, w, q as int, k);
                    assert(natives@[(q * w + k) / 128] == sd[(q * w + k) / 128].eval(
                        b0.values,
                    ).bits);
                }
            }
        }
        let index: usize = query_index(&natives, q, width, Ghost(digits));
        indices.push(index);
    }
    let mut seed_bits: Vec<Vec<LinExpr>> = Vec::new();
    proof {
        assert(digit_rows(seed_bits@) =~= Seq::empty());
    }
    while seed_bits.len() < count
        invariant
            seed_bits@.len() <= count,
            count == seeds@.len(),
            count == (qc * w + 127) / 128,
            width == w,
            w > 0,
            query_count == qc,
            qc * w <= usize::MAX,
            b0.wf(),
            b@.wf(),
            b@.grows(b0),
            sd == lins(seeds@),
            all_below(sd, b0.rows.len()),
            bound == bound_view(bound_query_bits),
            carriers_ok(bound, sd, qc, w, b0),
            bound_query_bits is Some ==> bound_query_bits->Some_0@.len() == qc && forall|q: int|
                0 <= q < qc ==> (#[trigger] bound_query_bits->Some_0@[q])@.len() == w,
            (b@.rows, digit_rows(seed_bits@)) == seeds_rows(
                b0.rows,
                sd,
                bound,
                qc,
                w,
                seed_bits@.len(),
            ),
            b@.honest() <==> b0.honest() && recomposed(sd, digit_rows(seed_bits@), b@.values),
            carriers_bits(bound, qc, w, b0.values) ==> recomposed(
                sd,
                digit_rows(seed_bits@),
                b@.values,
            ),
            forall|s: int| 0 <= s < seed_bits@.len() ==> digits_of(
                #[trigger] seed_bits@[s]@,
                sd[s].eval(b0.values).bits as nat,
                seed_carriers(bound, qc, w, s),
                b0.values,
                b@,
            ),
        decreases count - seed_bits@.len(),
    {
        let s: usize = seed_bits.len();
        let ghost b1 = b@;
        let ghost prior = seed_bits@;
        let ghost wanted = seed_carriers(bound, qc, w, s as int);
        assert(128 * s < qc * w);
        let carriers = carriers_for(bound_query_bits, query_count, width, s);
        proof {
            lemma_lins_index(seeds@, s as int);
            assert(sd[s as int].below(b0.rows.len()));
            assert forall|i: int| 0 <= i < 128 && (#[trigger] wanted[i]) is Some implies
                wanted[i]->Some_0.below(b1.rows.len()) by {
                let at = 128 * s + i;
                lemma_in_range(at, qc, w);
                assert(bound->Some_0[at / w][at % w] is Some);
                assert(carrier_ok(
                    bound->Some_0[at / w][at % w]->Some_0,
                    sd,
                    (at / w) * w + at % w,
                    b0,
                ));
            }
        }
        let bits = decompose_squeeze_bits_with_carriers(b, &seeds[s], &carriers, Ghost(wanted));
        seed_bits.push(bits);
        proof {
            let now = seed_bits@;
            assert(digit_rows(now) =~= digit_rows(prior).push(lins(bits@)));
            assert forall|t: int| 0 <= t < now.len() implies digits_of(
                #[trigger] now[t]@,
                sd[t].eval(b0.values).bits as nat,
                seed_carriers(bound, qc, w, t),
                b0.values,
                b@,
            ) by {
                if t < s {
                    assert(now[t] == prior[t]);
                    lemma_digits_stable(
                        prior[t]@,
                        sd[t].eval(b0.values).bits as nat,
                        seed_carriers(bound, qc, w, t),
                        b0.values,
                        b1,
                        b@,
                    );
                } else {
                    lemma_digits_new(
                        bits@,
                        sd[t].eval(b0.values).bits as nat,
                        wanted,
                        b0,
                        b1,
                        b@,
                    );
                }
            }
            lemma_recomposed(sd, digit_rows(prior), lins(bits@), b0, b1, b@);
            if carriers_bits(bound, qc, w, b0.values) {
                let v = sd[s as int].eval(b0.values).bits as nat;
                assert forall|i: int| 0 <= i < 128 implies (#[trigger] bits@[i])@.eval(b@.values)
                    == F128::of_bool(nat_bit(v, i as nat)) by {
                    if wanted[i] is Some {
                        let at = 128 * s + i;
                        lemma_in_range(at, qc, w);
                        let e = bound->Some_0[at / w][at % w];
                        assert(e is Some);
                        assert(carrier_ok(e->Some_0, sd, (at / w) * w + at % w, b0));
                        assert(e->Some_0.eval(b0.values).is_bit());
                        assert(at / 128 == s && at % 128 == i);
                        assert(e->Some_0.eval(b1.values) == e->Some_0.eval(b0.values));
                    }
                }
                lemma_digits_value(bits@, v, b@);
            }
        }
    }
    let ghost done = digit_rows(seed_bits@);
    let mut all: Vec<Vec<LinExpr>> = Vec::new();
    while all.len() < query_count
        invariant
            all@.len() <= query_count,
            width == w,
            query_count == qc,
            0 < w,
            qc * w <= usize::MAX,
            count == (qc * w + 127) / 128,
            seed_bits@.len() == count,
            done == digit_rows(seed_bits@),
            forall|s: int| 0 <= s < count ==> (#[trigger] seed_bits@[s])@.len() == 128,
            forall|q: int| 0 <= q < all@.len() ==> (#[trigger] all@[q])@.len() == w,
            forall|q: int, k: int|
                0 <= q < all@.len() && 0 <= k < w ==> (#[trigger] all@[q]@[k])@ == done[(q * w + k)
                    / 128][(q * w + k) % 128],
        decreases query_count - all@.len(),
    {
        let q: usize = all.len();
        let mut bits: Vec<LinExpr> = Vec::new();
        proof {
            assert((q + 1) * w <= qc * w) by (nonlinear_arith)
                requires
                    q + 1 <= qc,
                    w > 0,
            ;
            assert((q + 1) * w == q * w + w) by (nonlinear_arith);
        }
        let base: usize = q * width;
        while bits.len() < width
            invariant
                bits@.len() <= width,
                width == w,
                q < qc,
                base == q * w,
                base + w <= usize::MAX,
                count == (qc * w + 127) / 128,
                seed_bits@.len() == count,
                done == digit_rows(seed_bits@),
                forall|s: int| 0 <= s < count ==> (#[trigger] seed_bits@[s])@.len() == 128,
                forall|k: int|
                    0 <= k < bits@.len() ==> (#[trigger] bits@[k])@ == done[(q * w + k) / 128][(q
                        * w + k) % 128],
            decreases width - bits@.len(),
        {
            let k: usize = bits.len();
            let at: usize = base + k;
            proof {
                lemma_positions(qc, w, q as int, k as int);
                assert(seed_bits@[at as int / 128]@.len() == 128);
                lemma_lins_index(seed_bits@[at as int / 128]@, at as int % 128);
            }
            bits.push(seed_bits[at / 128][at % 128].dup());
        }
        all.push(bits);
    }
    proof {
        assert forall|q: int, k: int| 0 <= q < qc && 0 <= k < w implies ((
        #[trigger] all@[q]@[k])@.eval(b@.values) != F128::zero()) == query_digits(
            sd,
            b0.values,
            q,
            w,
        )[k] by {
            let at = q * w + k;
            lemma_positions(qc, w, q, k);
            let s = at / 128;
            let i = at % 128;
            assert(digits_of(
                seed_bits@[s]@,
                sd[s].eval(b0.values).bits as nat,
                seed_carriers(bound, qc, w, s),
                b0.values,
                b@,
            ));
            lemma_lins_index(seed_bits@[s]@, i);
            assert(all@[q]@[k]@ == seed_bits@[s]@[i]@);
            assert(128 * s + i == at);
            let c = seed_carriers(bound, qc, w, s)[i];
            if c is Some {
                assert(bound->Some_0[q][k] is Some);
                assert(carrier_ok(bound->Some_0[q][k]->Some_0, sd, q * w + k, b0));
            }
        }
    }
    proof {
        let rows = digit_rows(all@);
        assert forall|q: int| 0 <= q < qc implies (#[trigger] rows[q]).len() == w by {
            assert(all@[q]@.len() == w);
        }
        assert forall|q: int, k: int| 0 <= q < qc && 0 <= k < w implies #[trigger] rows[q][k]
            == all@[q]@[k]@ by {
            assert(all@[q]@.len() == w);
            lemma_lins_index(all@[q]@, k);
        }
    }
    (indices, all)
}

/// Positions packed into the digits of seeds, as many as a capsule has, with
/// digits carried by given expressions.
pub fn packed_capsule_queries_from_seeds_with_bound_bits(
    b: &mut FieldR1csBuilder,
    seeds: &Vec<LinExpr>,
    log_max_len: usize,
    bound_query_bits: Option<&Vec<Vec<Option<LinExpr>>>>,
) -> (r: (Vec<usize>, Vec<Vec<LinExpr>>))
    requires
        old(b)@.wf(),
        all_below(lins(seeds@), old(b)@.rows.len()),
        0 < log_max_len <= usize::BITS,
        seeds@.len() == seed_count(CAPSULE_NUM_QUERIES as nat, log_max_len as nat),
        carriers_ok(
            bound_view(bound_query_bits),
            lins(seeds@),
            CAPSULE_NUM_QUERIES as int,
            log_max_len as int,
            old(b)@,
        ),
    ensures
        queries_packed(
            old(b)@,
            final(b)@,
            lins(seeds@),
            CAPSULE_NUM_QUERIES as int,
            log_max_len as int,
            bound_view(bound_query_bits),
            r.0@,
            digit_rows(r.1@),
        ),
{
    packed_queries_from_seeds_with_bound_bits_for_count(
        b,
        seeds,
        CAPSULE_NUM_QUERIES,
        log_max_len,
        bound_query_bits,
    )
}

/// Positions packed into the digits of seeds, as many as a capsule has. Every
/// digit is a fresh boolean wire, so the values always satisfy the new rows.
pub fn packed_capsule_queries_from_seeds_with_bits(
    b: &mut FieldR1csBuilder,
    seeds: &Vec<LinExpr>,
    log_max_len: usize,
) -> (r: (Vec<usize>, Vec<Vec<LinExpr>>))
    requires
        old(b)@.wf(),
        all_below(lins(seeds@), old(b)@.rows.len()),
        0 < log_max_len <= usize::BITS,
        seeds@.len() == seed_count(CAPSULE_NUM_QUERIES as nat, log_max_len as nat),
    ensures
        queries_packed(
            old(b)@,
            final(b)@,
            lins(seeds@),
            CAPSULE_NUM_QUERIES as int,
            log_max_len as int,
            None,
            r.0@,
            digit_rows(r.1@),
        ),
{
    packed_capsule_queries_from_seeds_with_bound_bits(b, seeds, log_max_len, None)
}

/// Digits of a seed: the carried ones, and the digits of its value.
spec fn digits_of(
    bits: Seq<LinExpr>,
    value: nat,
    carriers: Seq<Option<Lin>>,
    z: Seq<F128>,
    b: Circuit,
) -> bool {
    &&& bits.len() == 128
    &&& forall|i: int| 0 <= i < 128 ==> (#[trigger] bits[i])@.below(b.rows.len())
    &&& forall|i: int|
        0 <= i < 128 ==> (#[trigger] bits[i])@.eval(b.values) == match carriers[i] {
            Some(x) => x.eval(z),
            None => F128::of_bool(nat_bit(value, i as nat)),
        }
}

proof fn lemma_digits_stable(
    bits: Seq<LinExpr>,
    value: nat,
    carriers: Seq<Option<Lin>>,
    z: Seq<F128>,
    b: Circuit,
    c: Circuit,
)
    requires
        digits_of(bits, value, carriers, z, b),
        c.grows(b),
    ensures
        digits_of(bits, value, carriers, z, c),
{
    assert forall|i: int| 0 <= i < 128 implies (#[trigger] bits[i])@.below(c.rows.len()) && bits[i]@.eval(
        c.values,
    ) == bits[i]@.eval(b.values) by {}
}

proof fn lemma_digits_new(
    bits: Seq<LinExpr>,
    value: nat,
    carriers: Seq<Option<Lin>>,
    b0: Circuit,
    b1: Circuit,
    b: Circuit,
)
    requires
        bits.len() == 128,
        carriers.len() == 128,
        b1.grows(b0),
        all_below(lins(bits), b.rows.len()),
        forall|i: int|
            0 <= i < 128 && (#[trigger] carriers[i]) is Some ==> carriers[i]->Some_0.below(
                b0.rows.len(),
            ),
        forall|i: int|
            0 <= i < 128 ==> (#[trigger] bits[i])@.eval(b.values) == match carriers[i] {
                Some(x) => x.eval(b1.values),
                None => F128::of_bool(nat_bit(value, i as nat)),
            },
    ensures
        digits_of(bits, value, carriers, b0.values, b),
{
    assert forall|i: int| 0 <= i < 128 implies (#[trigger] bits[i])@.below(b.rows.len()) by {
        lemma_lins_index(bits, i);
        assert(lins(bits)[i].below(b.rows.len()));
    }
    assert forall|i: int| 0 <= i < 128 implies (#[trigger] bits[i])@.eval(b.values)
        == match carriers[i] {
        Some(x) => x.eval(b0.values),
        None => F128::of_bool(nat_bit(value, i as nat)),
    } by {
        if carriers[i] is Some {
            let x = carriers[i]->Some_0;
            assert(x.eval(b1.values) == x.eval(b0.values));
        }
    }
}

/// Digits of a value recompose to it.
proof fn lemma_digits_value(bits: Seq<LinExpr>, value: nat, b: Circuit)
    requires
        bits.len() == 128,
        value <= u128::MAX,
        forall|i: int|
            0 <= i < 128 ==> (#[trigger] bits[i])@.eval(b.values) == F128::of_bool(
                nat_bit(value, i as nat),
            ),
    ensures
        weighted(lins(bits), 0).eval(b.values) == F128::of_nat(value),
{
    let s = lins(bits);
    assert(all_bits(s, b.values)) by {
        reveal(all_bits);
        assert forall|i: int| 0 <= i < s.len() implies (#[trigger] s[i]).eval(
            b.values,
        ).is_bit() by {
            lemma_lins_index(bits, i);
            assert(bits[i]@.eval(b.values).is_bit());
        }
    }
    assert(bools(s, b.values) =~= nat_bits(value, 128)) by {
        assert forall|i: int| 0 <= i < 128 implies bools(s, b.values)[i] == nat_bits(
            value,
            128,
        )[i] by {
            lemma_lins_index(bits, i);
            assert(bits[i]@.eval(b.values) == F128::of_bool(nat_bit(value, i as nat)));
        }
    }
    lemma_weighted_value(s, b.values);
    lemma_nat_bits_value(value, 128);
    crate::bits::lemma_pow2_128();
    vstd::arithmetic::div_mod::lemma_small_mod(value, pow2(128));
}

proof fn lemma_in_range(at: int, queries: int, width: int)
    requires
        at >= 0,
        width > 0,
        at / width < queries,
    ensures
        0 <= at / width,
        0 <= at % width < width,
        (at / width) * width + at % width == at,
{
    vstd::arithmetic::div_mod::lemma_fundamental_div_mod(at, width);
    vstd::arithmetic::div_mod::lemma_div_pos_is_pos(at, width);
    assert((at / width) * width == width * (at / width)) by (nonlinear_arith);
}

proof fn lemma_recomposed(
    seeds: Seq<Lin>,
    digits: Seq<Seq<Lin>>,
    bits: Seq<Lin>,
    b0: Circuit,
    b1: Circuit,
    b: Circuit,
)
    requires
        b1.grows(b0),
        b.grows(b1),
        all_below(seeds, b0.rows.len()),
        digits.len() < seeds.len(),
        bits.len() == 128,
        all_below(bits, b.rows.len()),
        forall|s: int|
            0 <= s < digits.len() ==> (#[trigger] digits[s]).len() == 128 && all_below(
                digits[s],
                b1.rows.len(),
            ),
        b1.honest() <==> b0.honest() && recomposed(seeds, digits, b1.values),
        b.honest() <==> b1.honest() && seeds[digits.len() as int].eval(b1.values) == weighted(
            bits,
            0,
        ).eval(b.values),
    ensures
        recomposed(seeds, digits.push(bits), b.values) <==> recomposed(seeds, digits, b1.values)
            && seeds[digits.len() as int].eval(b1.values) == weighted(bits, 0).eval(b.values),
        b.honest() <==> b0.honest() && recomposed(seeds, digits.push(bits), b.values),
{
    let now = digits.push(bits);
    assert forall|s: int| 0 <= s < digits.len() implies weighted(#[trigger] digits[s], 0).eval(
        b.values,
    ) == weighted(digits[s], 0).eval(b1.values) && seeds[s].eval(b.values) == seeds[s].eval(
        b1.values,
    ) by {
        lemma_weighted_below(digits[s], 0, b1.rows.len());
        assert(seeds[s].below(b0.rows.len()));
    }
    assert(seeds[digits.len() as int].below(b0.rows.len()));
    assert(seeds[digits.len() as int].eval(b.values) == seeds[digits.len() as int].eval(
        b1.values,
    ));
    if recomposed(seeds, now, b.values) {
        assert(seeds[digits.len() as int].eval(b.values) == weighted(
            now[digits.len() as int],
            0,
        ).eval(b.values));
        assert forall|s: int| 0 <= s < digits.len() implies seeds[s].eval(b1.values) == weighted(
            #[trigger] digits[s],
            0,
        ).eval(b1.values) by {
            assert(now[s] == digits[s]);
        }
    }
    if recomposed(seeds, digits, b1.values) && seeds[digits.len() as int].eval(b1.values)
        == weighted(bits, 0).eval(b.values) {
        assert forall|s: int| 0 <= s < now.len() implies seeds[s].eval(b.values) == weighted(
            #[trigger] now[s],
            0,
        ).eval(b.values) by {
            if s < digits.len() {
                assert(now[s] == digits[s]);
            }
        }
    }
}

} // verus!
