//! Where queries take their digits: the seeds make one stream, and every query takes
//! the next digits of it.

use vstd::prelude::*;
use crate::bits::{bits_nat, lemma_bits_nat_injective, nat_bits};
use crate::circuit::Lin;
use crate::field::F128;
use crate::fri_pcs::query_digits;

verus! {

/// The digits of the first `n` seeds, one seed after another, the lowest digit first.
pub open spec fn stream(seeds: Seq<Lin>, z: Seq<F128>, n: nat) -> Seq<bool>
    decreases n,
{
    if n == 0 {
        Seq::empty()
    } else {
        stream(seeds, z, (n - 1) as nat) + nat_bits(seeds[n - 1].eval(z).bits as nat, 128)
    }
}

proof fn lemma_stream(seeds: Seq<Lin>, z: Seq<F128>, n: nat, i: int)
    requires
        0 <= i < 128 * n,
    ensures
        stream(seeds, z, n).len() == 128 * n,
        stream(seeds, z, n)[i] == nat_bits(seeds[i / 128].eval(z).bits as nat, 128)[i % 128],
    decreases n,
{
    let m = (n - 1) as nat;
    lemma_stream_len(seeds, z, m);
    lemma_stream_len(seeds, z, n);
    if i < 128 * m {
        lemma_stream(seeds, z, m, i);
    } else {
        assert(i / 128 == m && i % 128 == i - 128 * m);
    }
}

proof fn lemma_stream_len(seeds: Seq<Lin>, z: Seq<F128>, n: nat)
    ensures
        stream(seeds, z, n).len() == 128 * n,
    decreases n,
{
    if n > 0 {
        lemma_stream_len(seeds, z, (n - 1) as nat);
    }
}

/// A query's digits are its slice of the stream: queries take consecutive digits, none
/// twice and none left out between them.
pub proof fn lemma_query_slice(seeds: Seq<Lin>, z: Seq<F128>, q: int, width: int)
    requires
        0 <= q,
        0 < width,
        q * width + width <= 128 * seeds.len(),
    ensures
        query_digits(seeds, z, q, width) == stream(seeds, z, seeds.len()).subrange(
            q * width,
            q * width + width,
        ),
{
    let all = stream(seeds, z, seeds.len());
    assert(0 <= q * width) by (nonlinear_arith)
        requires
            0 <= q,
            0 < width,
    ;
    lemma_stream_len(seeds, z, seeds.len());
    assert forall|k: int| 0 <= k < width implies query_digits(seeds, z, q, width)[k]
        == #[trigger] all.subrange(q * width, q * width + width)[k] by {
        lemma_stream(seeds, z, seeds.len(), q * width + k);
    }
    assert(query_digits(seeds, z, q, width) =~= all.subrange(q * width, q * width + width));
}

/// Equal positions come from equal slices.
pub proof fn lemma_query_exact(
    seeds: Seq<Lin>,
    other: Seq<Lin>,
    z: Seq<F128>,
    q: int,
    width: int,
)
    requires
        0 <= q,
        0 < width,
        q * width + width <= 128 * seeds.len(),
        q * width + width <= 128 * other.len(),
        bits_nat(query_digits(seeds, z, q, width)) == bits_nat(query_digits(other, z, q, width)),
    ensures
        stream(seeds, z, seeds.len()).subrange(q * width, q * width + width) == stream(
            other,
            z,
            other.len(),
        ).subrange(q * width, q * width + width),
{
    lemma_query_slice(seeds, z, q, width);
    lemma_query_slice(other, z, q, width);
    lemma_bits_nat_injective(
        query_digits(seeds, z, q, width),
        query_digits(other, z, q, width),
    );
}

} // verus!
