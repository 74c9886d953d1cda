//! Sorting live items first, and counting them.

use vstd::prelude::*;
use vstd::multiset::Multiset;
use vstd::arithmetic::power2::{lemma_pow2_pos, lemma_pow2_unfold, pow2};
use crate::permutation_network::{is_permutation, is_power_of_two};
use crate::field::F128;

verus! {

/// Live items first, then by key, then by position.
pub open spec fn precedes(live: Seq<bool>, key: Seq<u128>, i: int, j: int) -> bool {
    if live[i] != live[j] {
        live[i]
    } else if live[i] && key[i] != key[j] {
        key[i] < key[j]
    } else {
        i < j
    }
}

/// `order` lists the items so that each precedes the next.
pub open spec fn is_sorted(live: Seq<bool>, key: Seq<u128>, order: Seq<usize>) -> bool {
    forall|o: int|
        0 <= o < order.len() - 1 ==> #[trigger] precedes(
            live,
            key,
            order[o] as int,
            order[o + 1] as int,
        )
}

fn comes_before(live: &Vec<bool>, key: &Vec<u128>, i: usize, j: usize) -> (r: bool)
    requires
        live@.len() == key@.len(),
        j < i < live@.len(),
    ensures
        r == precedes(live@, key@, i as int, j as int),
{
    if live[i] != live[j] {
        live[i]
    } else {
        live[i] && key[i] < key[j]
    }
}

/// The positions of live items by key, then those of dead ones.
pub fn sort_live_first(live: &Vec<bool>, key: &Vec<u128>) -> (order: Vec<usize>)
    requires
        live@.len() == key@.len(),
    ensures
        order@.len() == live@.len(),
        is_permutation(order@),
        is_sorted(live@, key@, order@),
{
    let n: usize = live.len();
    let mut order: Vec<usize> = Vec::with_capacity(n);
    let mut item: usize = 0;
    while item < n
        invariant
            item <= n,
            n == live@.len(),
            n == key@.len(),
            order@.len() == item,
            is_permutation(order@),
            is_sorted(live@, key@, order@),
        decreases n - item,
    {
        let ghost prior = order@;
        let mut at: usize = item;
        while at > 0 && comes_before(live, key, item, order[at - 1])
            invariant
                at <= item < n,
                n == live@.len(),
                n == key@.len(),
                order@ == prior,
                order@.len() == item,
                is_permutation(order@),
                forall|o: int|
                    at <= o < item ==> #[trigger] precedes(
                        live@,
                        key@,
                        item as int,
                        order@[o] as int,
                    ),
            decreases at,
        {
            at -= 1;
        }
        order.insert(at, item);
        proof {
            let s = order@;
            assert forall|i: int| 0 <= i < s.len() implies #[trigger] s[i] < s.len() by {
                if i < at {
                    assert(prior[i] < item);
                } else if i > at {
                    assert(prior[i - 1] < item);
                }
            }
            assert forall|i: int, j: int| 0 <= i < j < s.len() implies #[trigger] s[i]
                != #[trigger] s[j] by {
                if i != at {
                    assert(prior[if i < at {
                        i
                    } else {
                        i - 1
                    }] < item);
                }
                if j != at {
                    assert(prior[if j < at {
                        j
                    } else {
                        j - 1
                    }] < item);
                }
            }
            assert forall|o: int| 0 <= o < s.len() - 1 implies #[trigger] precedes(
                live@,
                key@,
                s[o] as int,
                s[o + 1] as int,
            ) by {
                if o + 1 < at {
                    assert(precedes(live@, key@, prior[o] as int, prior[o + 1] as int));
                } else if o + 1 == at {
                    assert(prior[o] < item);
                } else if o == at {
                    assert(precedes(live@, key@, item as int, prior[o] as int));
                } else {
                    assert(precedes(live@, key@, prior[o - 1] as int, prior[o - 1 + 1] as int));
                }
            }
        }
        item += 1;
    }
    order
}

/// Sorted order is transitive.
pub proof fn lemma_sorted_pair(
    live: Seq<bool>,
    key: Seq<u128>,
    order: Seq<usize>,
    i: int,
    j: int,
)
    requires
        is_sorted(live, key, order),
        0 <= i < j < order.len(),
    ensures
        precedes(live, key, order[i] as int, order[j] as int),
    decreases j - i,
{
    assert(precedes(live, key, order[j - 1] as int, order[j - 1 + 1] as int));
    if i < j - 1 {
        lemma_sorted_pair(live, key, order, i, j - 1);
    }
}

/// The first of `p, 2p, 4p, ...` that is not below `n`.
pub open spec fn pow2_at_least(n: nat, p: nat) -> nat
    decreases 2 * n - p,
{
    if p == 0 || p >= n {
        p
    } else {
        pow2_at_least(n, 2 * p)
    }
}

/// The least power of two that is not below `n`.
pub open spec fn next_pow2(n: nat) -> nat {
    pow2_at_least(n, 1)
}

proof fn lemma_pow2_at_least(n: nat, k: nat)
    requires
        pow2(k) < 2 * n,
    ensures
        is_power_of_two(pow2_at_least(n, pow2(k))),
        n <= pow2_at_least(n, pow2(k)) < 2 * n,
    decreases 2 * n - pow2(k),
{
    lemma_pow2_pos(k);
    if pow2(k) < n {
        lemma_pow2_unfold(k + 1);
        lemma_pow2_at_least(n, k + 1);
    }
}

pub proof fn lemma_next_pow2(n: nat)
    requires
        n >= 1,
    ensures
        is_power_of_two(next_pow2(n)),
        n <= next_pow2(n) < 2 * n,
{
    vstd::arithmetic::power2::lemma2_to64();
    lemma_pow2_at_least(n, 0);
}

/// The least power of two that is not below `n`.
pub fn next_power_of_two(n: usize) -> (p: usize)
    requires
        1 <= n <= usize::MAX / 2 + 1,
    ensures
        p == next_pow2(n as nat),
        is_power_of_two(p as nat),
        n <= p,
        p < 2 * n,
{
    let mut p: usize = 1;
    let ghost mut k: nat = 0;
    proof {
        vstd::arithmetic::power2::lemma2_to64();
    }
    while p < n
        invariant
            1 <= n <= usize::MAX / 2 + 1,
            p == pow2(k),
            p < 2 * n,
            pow2_at_least(n as nat, p as nat) == next_pow2(n as nat),
        decreases 2 * n - p,
    {
        proof {
            lemma_pow2_pos(k);
            lemma_pow2_unfold(k + 1);
            k = k + 1;
        }
        p = p * 2;
    }
    p
}

// ---------------------------------------------------------------------------
// Counting
// ---------------------------------------------------------------------------

/// The number of rows that `p` picks.
pub open spec fn count_where(rows: Seq<Seq<F128>>, p: spec_fn(Seq<F128>) -> bool) -> nat
    decreases rows.len(),
{
    if rows.len() == 0 {
        0
    } else {
        count_where(rows.drop_last(), p) + if p(rows.last()) {
            1nat
        } else {
            0
        }
    }
}

/// The number of rows whose first lane is one.
pub open spec fn count_live(rows: Seq<Seq<F128>>) -> nat {
    count_where(rows, |r: Seq<F128>| r[0] == F128::one())
}

proof fn lemma_count_multiset(rows: Seq<Seq<F128>>, p: spec_fn(Seq<F128>) -> bool)
    ensures
        count_where(rows, p) == rows.to_multiset().filter(p).len(),
    decreases rows.len(),
{
    rows.to_multiset_ensures();
    if rows.len() == 0 {
        assert(rows.to_multiset().len() == 0);
        assert(rows.to_multiset() =~= Multiset::empty());
        assert(rows.to_multiset().filter(p) =~= Multiset::empty());
    } else {
        let shorter = rows.drop_last();
        let m = shorter.to_multiset();
        lemma_count_multiset(shorter, p);
        shorter.to_multiset_ensures();
        assert(rows =~= shorter.push(rows.last()));
        assert(rows.to_multiset() == m.insert(rows.last()));
        if p(rows.last()) {
            assert(m.insert(rows.last()).filter(p) =~= m.filter(p).insert(rows.last()));
        } else {
            assert(m.insert(rows.last()).filter(p) =~= m.filter(p));
        }
    }
}

/// Reordering rows does not change how many of them are picked.
pub proof fn lemma_count_same(
    a: Seq<Seq<F128>>,
    b: Seq<Seq<F128>>,
    p: spec_fn(Seq<F128>) -> bool,
)
    requires
        a.to_multiset() == b.to_multiset(),
    ensures
        count_where(a, p) == count_where(b, p),
{
    lemma_count_multiset(a, p);
    lemma_count_multiset(b, p);
}

/// Counting after a change of rows counts by the changed rows.
pub proof fn lemma_count_mapped(
    rows: Seq<Seq<F128>>,
    f: spec_fn(Seq<F128>) -> Seq<F128>,
    p: spec_fn(Seq<F128>) -> bool,
)
    ensures
        count_where(rows.map_values(f), p) == count_where(rows, |r: Seq<F128>| p(f(r))),
    decreases rows.len(),
{
    if rows.len() > 0 {
        assert(rows.map_values(f).drop_last() =~= rows.drop_last().map_values(f));
        lemma_count_mapped(rows.drop_last(), f, p);
    }
}

/// Rows that are all live from the start are counted.
pub proof fn lemma_count_prefix(rows: Seq<Seq<F128>>, n: nat)
    requires
        n <= rows.len(),
        forall|i: int| 0 <= i < n ==> (#[trigger] rows[i])[0] == F128::one(),
    ensures
        count_live(rows) >= n,
    decreases rows.len(),
{
    if rows.len() > 0 {
        let shorter = rows.drop_last();
        let m: nat = if n < rows.len() {
            n
        } else {
            (n - 1) as nat
        };
        assert forall|i: int| 0 <= i < m implies (#[trigger] shorter[i])[0] == F128::one() by {
            assert(shorter[i] == rows[i]);
        }
        lemma_count_prefix(shorter, m);
        if n == rows.len() {
            assert(rows[n - 1][0] == F128::one());
        }
    }
}

/// Rows that are live only below `n` are at most `n`.
pub proof fn lemma_count_bound(rows: Seq<Seq<F128>>, n: nat)
    requires
        forall|i: int| n <= i < rows.len() ==> (#[trigger] rows[i])[0] != F128::one(),
    ensures
        count_live(rows) <= n,
    decreases rows.len(),
{
    if rows.len() > 0 {
        let shorter = rows.drop_last();
        if rows.len() > n {
            assert(rows[rows.len() - 1][0] != F128::one());
            assert forall|i: int| n <= i < shorter.len() implies (#[trigger] shorter[i])[0]
                != F128::one() by {
                assert(shorter[i] == rows[i]);
            }
            lemma_count_bound(shorter, n);
        } else {
            lemma_count_bound(shorter, (n - 1) as nat);
        }
    }
}

} // verus!
