//! What a frontier count counts: the siblings that a tree with some of its leaves
//! touched needs besides them.

use vstd::prelude::*;
use vstd::arithmetic::power2::{lemma_pow2_strictly_increases, lemma_pow2_unfold, pow2};
use crate::bits::{all_bits, bits_value, lemma_top_digit};
use crate::circuit::Lin;
use crate::field::F128;
use crate::frontier_count::{count_holds, digits_hold, live_total, msb_total, top_diff};

verus! {

/// How many of the first leaves of a sorted list lie in the lower half.
pub open spec fn lower(s: Seq<nat>, half: nat, n: nat) -> nat
    decreases n,
{
    if n == 0 {
        0
    } else {
        lower(s, half, (n - 1) as nat) + if s[n - 1] < half {
            1nat
        } else {
            0
        }
    }
}

/// The touched leaves in the lower and in the upper half of a tree of depth `d`, as
/// leaves of those halves.
pub open spec fn lower_leaves(s: Seq<nat>, d: nat) -> Seq<nat> {
    s.take(lower(s, pow2((d - 1) as nat), s.len()) as int)
}

pub open spec fn upper_leaves(s: Seq<nat>, d: nat) -> Seq<nat> {
    let m = lower(s, pow2((d - 1) as nat), s.len());
    Seq::new((s.len() - m) as nat, |i: int| (s[m + i] - pow2((d - 1) as nat)) as nat)
}

/// The siblings that a tree of depth `d` needs when the sorted leaves `s` are touched:
/// a half without a touched leaf is one sibling, and a half with one needs its own.
pub open spec fn siblings(s: Seq<nat>, d: nat) -> nat
    decreases d,
{
    if d == 0 || s.len() == 0 {
        0
    } else {
        let (a, b) = (lower_leaves(s, d), upper_leaves(s, d));
        (if a.len() == 0 {
            1nat
        } else {
            siblings(a, (d - 1) as nat)
        }) + (if b.len() == 0 {
            1nat
        } else {
            siblings(b, (d - 1) as nat)
        })
    }
}

/// Leaves of a tree of depth `d`, in strictly ascending order.
pub open spec fn touched(s: Seq<nat>, d: nat) -> bool {
    &&& forall|i: int| 0 <= i < s.len() ==> #[trigger] s[i] < pow2(d)
    &&& forall|i: int, j: int| 0 <= i < j < s.len() ==> #[trigger] s[i] < #[trigger] s[j]
}

/// The highest digit below `n` in which two numbers differ.
pub open spec fn top(a: nat, b: nat, n: nat) -> nat
    decreases n,
{
    if n == 0 {
        0
    } else {
        let half = pow2((n - 1) as nat);
        if (a < half) != (b < half) {
            (n - 1) as nat
        } else {
            top(a % half, b % half, (n - 1) as nat)
        }
    }
}

/// The sum of the highest differences of the first `n` adjacent pairs.
pub open spec fn tops(s: Seq<nat>, d: nat, n: nat) -> nat
    decreases n,
{
    if n == 0 {
        0
    } else {
        tops(s, d, (n - 1) as nat) + top(s[n - 1], s[n as int], d)
    }
}

/// The lower leaves come first.
proof fn lemma_lower(s: Seq<nat>, d: nat, half: nat, n: nat)
    requires
        touched(s, d),
        n <= s.len(),
    ensures
        lower(s, half, n) <= n,
        forall|i: int| 0 <= i < n ==> (#[trigger] s[i] < half <==> i < lower(s, half, n)),
    decreases n,
{
    if n > 0 {
        let m = (n - 1) as nat;
        lemma_lower(s, d, half, m);
        assert forall|i: int| 0 <= i < n implies (#[trigger] s[i] < half <==> i < lower(
            s,
            half,
            n,
        )) by {
            if i < m {
                if s[m as int] < half {
                    assert(s[i] < s[m as int]);
                    assert(i < lower(s, half, m));
                }
            } else {
                if s[m as int] < half && m > 0 {
                    assert(s[m - 1] < s[m as int]);
                    assert(s[m - 1] < half);
                }
                assert(lower(s, half, m) <= m);
            }
        }
    }
}

/// Differences within the lower half.
proof fn lemma_tops_lower(s: Seq<nat>, a: Seq<nat>, d: nat, n: nat)
    requires
        d > 0,
        n == 0 || n + 1 <= a.len() <= s.len(),
        forall|i: int|
            0 <= i < a.len() ==> #[trigger] a[i] == s[i] && s[i] < pow2((d - 1) as nat),
    ensures
        tops(s, d, n) == tops(a, (d - 1) as nat, n),
    decreases n,
{
    if n > 0 {
        lemma_tops_lower(s, a, d, (n - 1) as nat);
        let half = pow2((d - 1) as nat);
        assert(a[n - 1] == s[n - 1] && a[n as int] == s[n as int]);
        vstd::arithmetic::div_mod::lemma_small_mod(s[n - 1], half);
        vstd::arithmetic::div_mod::lemma_small_mod(s[n as int], half);
    }
}

/// Differences within the upper half, behind the first `m` leaves.
proof fn lemma_tops_upper(s: Seq<nat>, b: Seq<nat>, d: nat, m: nat, n: nat)
    requires
        d > 0,
        n == 0 || n + 1 <= b.len(),
        m + b.len() <= s.len(),
        forall|i: int|
            0 <= i < b.len() ==> #[trigger] b[i] == s[m + i] - pow2((d - 1) as nat) && s[m + i]
                >= pow2((d - 1) as nat) && s[m + i] < pow2(d),
    ensures
        tops(s, d, m + n) == tops(s, d, m) + tops(b, (d - 1) as nat, n),
    decreases n,
{
    if n > 0 {
        lemma_tops_upper(s, b, d, m, (n - 1) as nat);
        let half = pow2((d - 1) as nat);
        lemma_pow2_unfold(d);
        assert(b[n - 1] == s[m + n - 1] - half && b[n as int] == s[m + n as int] - half);
        let (x, y) = (s[m + n - 1], s[m + n as int]);
        assert(x < 2 * half && y < 2 * half);
        vstd::arithmetic::div_mod::lemma_fundamental_div_mod_converse(
            x as int,
            half as int,
            1,
            x - half,
        );
        vstd::arithmetic::div_mod::lemma_fundamental_div_mod_converse(
            y as int,
            half as int,
            1,
            y - half,
        );
    }
}

/// The multiproof equation: the siblings of touched leaves, with the leaves, are the
/// depth plus one and the highest differences of adjacent leaves.
pub proof fn lemma_siblings(s: Seq<nat>, d: nat)
    requires
        touched(s, d),
        s.len() >= 1,
    ensures
        siblings(s, d) + s.len() == d + 1 + tops(s, d, (s.len() - 1) as nat),
    decreases d,
{
    vstd::arithmetic::power2::lemma2_to64();
    let k = s.len();
    if d == 0 {
        if k > 1 {
            assert(s[0] < s[1]);
        }
    } else {
        let e = (d - 1) as nat;
        let half = pow2(e);
        lemma_pow2_unfold(d);
        lemma_lower(s, d, half, k);
        let m = lower(s, half, k);
        let (a, b) = (lower_leaves(s, d), upper_leaves(s, d));
        assert(touched(a, e));
        assert forall|i: int| 0 <= i < b.len() implies #[trigger] b[i] == s[m + i] - half && s[m
            + i] >= half && s[m + i] < pow2(d) by {
            assert(s[m + i] >= half);
        }
        assert(touched(b, e)) by {
            assert forall|i: int, j: int| 0 <= i < j < b.len() implies #[trigger] b[i]
                < #[trigger] b[j] by {
                assert(s[m + i] < s[m + j]);
            }
        }
        if m == k {
            lemma_siblings(a, e);
            lemma_tops_lower(s, a, d, (k - 1) as nat);
            assert(a =~= s);
        } else if m == 0 {
            lemma_siblings(b, e);
            lemma_tops_upper(s, b, d, 0, (k - 1) as nat);
        } else {
            lemma_siblings(a, e);
            lemma_siblings(b, e);
            lemma_tops_lower(s, a, d, (m - 1) as nat);
            lemma_tops_upper(s, b, d, m, (k - m - 1) as nat);
            assert(s[m - 1] < half && s[m as int] >= half);
            assert(top(s[m - 1], s[m as int], d) == e);
        }
    }
}

/// Digits above both numbers do not matter.
proof fn lemma_top_wider(a: nat, b: nat, d: nat, n: nat)
    requires
        a < pow2(d),
        b < pow2(d),
        d <= n,
    ensures
        top(a, b, n) == top(a, b, d),
    decreases n,
{
    if d < n {
        let m = (n - 1) as nat;
        if d < m {
            lemma_pow2_strictly_increases(d, m);
        }
        vstd::arithmetic::div_mod::lemma_small_mod(a, pow2(m));
        vstd::arithmetic::div_mod::lemma_small_mod(b, pow2(m));
        lemma_top_wider(a, b, d, m);
    }
}

proof fn lemma_bits_take(l: Seq<Lin>, n: nat, z: Seq<F128>)
    requires
        n <= l.len(),
        all_bits(l, z),
    ensures
        all_bits(l.take(n as int), z),
{
    reveal(all_bits);
    let x = l.take(n as int);
    assert forall|i: int| 0 <= i < x.len() implies (#[trigger] x[i]).eval(z).is_bit() by {
        let e = l[i];
        assert(e.eval(z).is_bit());
        assert(x[i] == e);
    }
}

/// The highest difference of digits is that of the numbers.
proof fn lemma_top_digits(l: Seq<Lin>, r: Seq<Lin>, n: nat, z: Seq<F128>)
    requires
        n <= l.len(),
        n <= r.len(),
        all_bits(l, z),
        all_bits(r, z),
    ensures
        top_diff(l, r, n, z) == top(
            bits_value(l.take(n as int), z),
            bits_value(r.take(n as int), z),
            n,
        ),
    decreases n,
{
    if n > 0 {
        let m = (n - 1) as nat;
        lemma_top_digits(l, r, m, z);
        let (x, y) = (l.take(n as int), r.take(n as int));
        lemma_bits_take(l, n, z);
        lemma_bits_take(r, n, z);
        lemma_top_digit(x, m, z);
        lemma_top_digit(y, m, z);
        assert(x.take(m as int) =~= l.take(m as int));
        assert(y.take(m as int) =~= r.take(m as int));
        assert(x[m as int] == l[m as int] && y[m as int] == r[m as int]);
    }
}

/// The slots of the first `k` actions.
pub open spec fn slots_of(bits: Seq<Seq<Lin>>, k: nat, z: Seq<F128>) -> Seq<nat> {
    Seq::new(k, |i: int| bits_value(bits[i], z))
}

/// The live actions are the first `k`.
pub open spec fn live_prefix(acts: Seq<Seq<Lin>>, k: nat, z: Seq<F128>) -> bool {
    k <= acts.len() && forall|i: int|
        0 <= i < acts.len() ==> ((#[trigger] acts[i])[0].eval(z) == F128::one() <==> i < k)
}

proof fn lemma_totals(
    acts: Seq<Seq<Lin>>,
    bits: Seq<Seq<Lin>>,
    k: nat,
    d: nat,
    n: nat,
    z: Seq<F128>,
)
    requires
        live_prefix(acts, k, z),
        digits_hold(bits, z),
        bits.len() == acts.len(),
        d <= 32,
        touched(slots_of(bits, k, z), d),
        n < acts.len(),
    ensures
        msb_total(acts, bits, n, z) == tops(
            slots_of(bits, k, z),
            d,
            if n + 1 <= k {
                n
            } else if k >= 1 {
                (k - 1) as nat
            } else {
                0
            },
        ),
    decreases n,
{
    if n > 0 {
        let m = (n - 1) as nat;
        lemma_totals(acts, bits, k, d, m, z);
        let s = slots_of(bits, k, z);
        assert(acts[n as int][0].eval(z) == F128::one() <==> n < k);
        if n < k {
            let (x, y) = (bits[n - 1], bits[n as int]);
            assert(x.len() == 32 && y.len() == 32);
            lemma_top_digits(x, y, 32, z);
            assert(x.take(32) =~= x && y.take(32) =~= y);
            assert(s[n - 1] < pow2(d) && s[n as int] < pow2(d));
            lemma_top_wider(s[n - 1], s[n as int], d, 32);
        }
    }
}

proof fn lemma_live_total(acts: Seq<Seq<Lin>>, k: nat, n: nat, z: Seq<F128>)
    requires
        live_prefix(acts, k, z),
        n <= acts.len(),
    ensures
        live_total(acts, n, z) == if n < k {
            n
        } else {
            k
        },
    decreases n,
{
    if n > 0 {
        lemma_live_total(acts, k, (n - 1) as nat, z);
        assert(acts[n - 1][0].eval(z) == F128::one() <==> n - 1 < k);
    }
}

/// A bound count is the number of siblings: with the live actions first and their slots
/// ascending in a tree of depth `d`, the claimed count is how many siblings the tree
/// needs besides the slots.
pub proof fn lemma_count_is_frontier(
    acts: Seq<Seq<Lin>>,
    bits: Seq<Seq<Lin>>,
    d: nat,
    claimed: Lin,
    k: nat,
    z: Seq<F128>,
)
    requires
        count_holds(acts, bits, d + 1, claimed, z),
        1 <= k,
        live_prefix(acts, k, z),
        digits_hold(bits, z),
        bits.len() == acts.len(),
        d <= 32,
        touched(slots_of(bits, k, z), d),
    ensures
        claimed.eval(z).bits == siblings(slots_of(bits, k, z), d),
{
    let n = acts.len();
    lemma_live_total(acts, k, n, z);
    lemma_totals(acts, bits, k, d, (n - 1) as nat, z);
    lemma_siblings(slots_of(bits, k, z), d);
}

} // verus!
