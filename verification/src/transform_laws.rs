//! What the additive transform computes: every output is a sum of the coefficients
//! under a product of one factor for each digit.

use vstd::prelude::*;
use vstd::arithmetic::power2::{lemma_pow2_pos, lemma_pow2_unfold, pow2};
use crate::eval_gadgets::inner;
use crate::field::{
    group_field_units, lemma_plus_assoc, lemma_times_assoc, lemma_times_comm, lemma_times_plus,
    F128,
};
use crate::multilinear::transformed;
use crate::sumcheck::{lemma_inner_on, lemma_plus_times};

verus! {

/// The factor of one digit: one where the output's digit is unset; where it is set,
/// the basis element for an unset digit of the coefficient, and one more than it for a
/// set one.
pub open spec fn digit_factor(w: F128, out: bool, coeff: bool) -> F128 {
    if !out {
        F128::one()
    } else if !coeff {
        w
    } else {
        w.plus(F128::one())
    }
}

/// The weight of coefficient `j` in output `i`: the factors of their digits, the last
/// basis element for the highest.
pub open spec fn kernel(basis: Seq<F128>, i: int, j: int) -> F128
    decreases basis.len(),
{
    if basis.len() == 0 {
        F128::one()
    } else {
        let half = pow2((basis.len() - 1) as nat) as int;
        digit_factor(basis.last(), i >= half, j >= half).times(
            kernel(
                basis.drop_last(),
                if i >= half {
                    i - half
                } else {
                    i
                },
                if j >= half {
                    j - half
                } else {
                    j
                },
            ),
        )
    }
}

/// The weights of all coefficients in an output.
pub open spec fn kernel_row(basis: Seq<F128>, i: int) -> Seq<F128> {
    Seq::new(pow2(basis.len()), |j: int| kernel(basis, i, j))
}

proof fn lemma_inner_scaled(
    c: Seq<F128>,
    a: Seq<F128>,
    d: Seq<F128>,
    b: Seq<F128>,
    k: F128,
    n: nat,
)
    requires
        forall|j: int| 0 <= j < n ==> #[trigger] c[j] == d[j],
        forall|j: int| 0 <= j < n ==> #[trigger] a[j] == k.times(b[j]),
    ensures
        inner(c, a, n) == k.times(inner(d, b, n)),
    decreases n,
{
    broadcast use group_field_units;

    if n > 0 {
        let m = (n - 1) as nat;
        lemma_inner_scaled(c, a, d, b, k, m);
        let (x, y) = (c[n - 1], b[n - 1]);
        assert(a[n - 1] == k.times(y) && d[n - 1] == x);
        lemma_times_assoc(x, k, y);
        lemma_times_comm(x, k);
        lemma_times_assoc(k, x, y);
        lemma_times_plus(k, inner(d, b, m), x.times(y));
    }
}

/// An output of the transform is the sum of the coefficients under its weights.
pub proof fn lemma_transform_kernel(coeffs: Seq<F128>, basis: Seq<F128>, i: int)
    requires
        coeffs.len() == pow2(basis.len()),
        0 <= i < coeffs.len(),
    ensures
        transformed(coeffs, basis).len() == coeffs.len(),
        transformed(coeffs, basis)[i] == inner(coeffs, kernel_row(basis, i), coeffs.len()),
    decreases basis.len(),
{
    broadcast use group_field_units;

    vstd::arithmetic::power2::lemma2_to64();
    let n = basis.len();
    let row = kernel_row(basis, i);
    if n == 0 {
        reveal_with_fuel(inner, 2);
        assert(row[0] == F128::one());
    } else {
        let m = (n - 1) as nat;
        lemma_pow2_unfold(n);
        lemma_pow2_pos(m);
        let half = pow2(m);
        let (w, rest) = (basis.last(), basis.drop_last());
        let (low, high) = (coeffs.take(half as int), coeffs.skip(half as int));
        let k = if i >= half {
            i - half
        } else {
            i
        };
        lemma_transform_kernel(low, rest, k);
        lemma_transform_kernel(high, rest, k);
        let part = kernel_row(rest, k);
        let (a, b) = (digit_factor(w, i >= half, false), digit_factor(w, i >= half, true));
        assert forall|j: int| 0 <= j < half implies #[trigger] row[j] == a.times(part[j]) by {}
        lemma_inner_scaled(coeffs, row, low, part, a, half);
        let upper = row.skip(half as int);
        assert forall|j: int| 0 <= j < half implies #[trigger] upper[j] == b.times(part[j]) by {
            assert(upper[j] == row[j + half]);
        }
        lemma_inner_scaled(high, upper, high, part, b, half);
        lemma_inner_on(coeffs, row, half, half);
        let (x, y) = (inner(low, part, half), inner(high, part, half));
        assert(inner(coeffs, row, coeffs.len()) == a.times(x).plus(b.times(y)));
        if i >= half {
            lemma_plus_times(x, y, w);
            lemma_plus_times(w, F128::one(), y);
            lemma_times_comm(x, w);
            lemma_times_comm(y, w);
            lemma_plus_assoc(w.times(x), w.times(y), y);
        }
    }
}

} // verus!
