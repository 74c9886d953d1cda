//! Little-endian integers and concatenated encodings.

use vstd::prelude::*;
use vstd::arithmetic::power2::{lemma_pow2_adds, pow2};

verus! {

/// The little-endian integer of bytes.
pub open spec fn le_value(bytes: Seq<u8>) -> nat
    decreases bytes.len(),
{
    if bytes.len() == 0 {
        0
    } else {
        bytes[0] as nat + 256 * le_value(bytes.skip(1))
    }
}

/// The low `n` bytes of an integer, little-endian.
pub open spec fn le_bytes(v: nat, n: nat) -> Seq<u8>
    decreases n,
{
    if n == 0 {
        Seq::empty()
    } else {
        seq![(v % 256) as u8] + le_bytes(v / 256, (n - 1) as nat)
    }
}

pub proof fn lemma_le_value_bound(bytes: Seq<u8>)
    ensures
        le_value(bytes) < pow2(8 * bytes.len()),
    decreases bytes.len(),
{
    vstd::arithmetic::power2::lemma2_to64();
    if bytes.len() > 0 {
        lemma_le_value_bound(bytes.skip(1));
        lemma_pow2_adds(8, 8 * (bytes.len() - 1) as nat);
        assert(8 + 8 * (bytes.len() - 1) == 8 * bytes.len());
    } else {
        assert(8 * bytes.len() == 0);
    }
}

pub proof fn lemma_le_bytes_len(v: nat, n: nat)
    ensures
        le_bytes(v, n).len() == n,
    decreases n,
{
    if n > 0 {
        lemma_le_bytes_len(v / 256, (n - 1) as nat);
    }
}

/// Bytes are the encoding of their integer.
pub proof fn lemma_le_bytes_value(bytes: Seq<u8>)
    ensures
        le_bytes(le_value(bytes), bytes.len()) == bytes,
    decreases bytes.len(),
{
    if bytes.len() == 0 {
        assert(le_bytes(le_value(bytes), 0) =~= bytes);
    } else {
        let rest = bytes.skip(1);
        lemma_le_bytes_value(rest);
        let v = le_value(bytes);
        assert(v % 256 == bytes[0] && v / 256 == le_value(rest)) by (nonlinear_arith)
            requires
                v == bytes[0] as nat + 256 * le_value(rest),
                0 <= bytes[0] as nat <= 255,
        ;
        assert(le_bytes(v, bytes.len()) =~= bytes);
    }
}

/// An integer of `n` bytes is the integer of its encoding.
pub proof fn lemma_le_value_bytes(v: nat, n: nat)
    requires
        v < pow2(8 * n),
    ensures
        le_value(le_bytes(v, n)) == v,
    decreases n,
{
    vstd::arithmetic::power2::lemma2_to64();
    if n == 0 {
        assert(8 * n == 0);
    } else {
        let m = (n - 1) as nat;
        lemma_pow2_adds(8, 8 * m);
        assert(8 + 8 * m == 8 * n);
        let p = pow2(8 * m);
        assert(v / 256 < p) by (nonlinear_arith)
            requires
                v < 256 * p,
        ;
        lemma_le_value_bytes(v / 256, m);
        let b = le_bytes(v, n);
        assert(b.skip(1) =~= le_bytes(v / 256, m));
        assert(b[0] == (v % 256) as u8);
    }
}

/// The concatenated encodings of items.
pub open spec fn enc_all<A>(items: Seq<A>, f: spec_fn(A) -> Seq<u8>) -> Seq<u8>
    decreases items.len(),
{
    if items.len() == 0 {
        Seq::empty()
    } else {
        enc_all(items.drop_last(), f) + f(items.last())
    }
}

pub proof fn lemma_enc_all_len<A>(items: Seq<A>, f: spec_fn(A) -> Seq<u8>, k: nat)
    requires
        forall|i: int| 0 <= i < items.len() ==> f(#[trigger] items[i]).len() == k,
    ensures
        enc_all(items, f).len() == items.len() * k,
    decreases items.len(),
{
    if items.len() > 0 {
        let rest = items.drop_last();
        assert forall|i: int| 0 <= i < rest.len() implies f(#[trigger] rest[i]).len() == k by {
            assert(rest[i] == items[i]);
        }
        lemma_enc_all_len(rest, f, k);
        assert(f(items[items.len() - 1]).len() == k);
        assert((items.len() - 1) * k + k == items.len() * k) by (nonlinear_arith);
    } else {
        assert(0 * k == 0) by (nonlinear_arith);
    }
}

pub proof fn lemma_enc_all_push<A>(items: Seq<A>, x: A, f: spec_fn(A) -> Seq<u8>)
    ensures
        enc_all(items.push(x), f) == enc_all(items, f) + f(x),
{
    assert(items.push(x).drop_last() =~= items);
}

/// Equal concatenations of encodings of one length have equal items, where
/// equal encodings do.
pub proof fn lemma_enc_all_injective<A>(
    s: Seq<A>,
    t: Seq<A>,
    f: spec_fn(A) -> Seq<u8>,
    k: nat,
)
    requires
        s.len() == t.len(),
        enc_all(s, f) == enc_all(t, f),
        forall|i: int| 0 <= i < s.len() ==> f(#[trigger] s[i]).len() == k,
        forall|i: int| 0 <= i < t.len() ==> f(#[trigger] t[i]).len() == k,
        forall|i: int|
            0 <= i < s.len() && f(#[trigger] s[i]) == f(t[i]) ==> s[i] == t[i],
    ensures
        s =~= t,
    decreases s.len(),
{
    if s.len() > 0 {
        let (a, b) = (s.drop_last(), t.drop_last());
        let n = s.len() - 1;
        assert(f(s[n]).len() == k && f(t[n]).len() == k);
        assert forall|i: int| 0 <= i < a.len() implies f(#[trigger] a[i]).len() == k by {
            assert(a[i] == s[i]);
        }
        assert forall|i: int| 0 <= i < b.len() implies f(#[trigger] b[i]).len() == k by {
            assert(b[i] == t[i]);
        }
        lemma_enc_all_len(a, f, k);
        lemma_enc_all_len(b, f, k);
        lemma_concat_injective(enc_all(a, f), f(s[n]), enc_all(b, f), f(t[n]));
        assert forall|i: int| 0 <= i < a.len() && f(#[trigger] a[i]) == f(b[i]) implies a[i]
            == b[i] by {
            assert(a[i] == s[i] && b[i] == t[i]);
        }
        lemma_enc_all_injective(a, b, f, k);
        assert(s =~= a.push(s[n]));
        assert(t =~= b.push(t[n]));
    }
}

/// Equal concatenations with heads of one length have equal heads and tails.
pub proof fn lemma_concat_injective(a: Seq<u8>, b: Seq<u8>, c: Seq<u8>, d: Seq<u8>)
    requires
        a + b == c + d,
        a.len() == c.len(),
    ensures
        a == c,
        b == d,
{
    let s = a + b;
    let t = c + d;
    assert(a =~= s.take(a.len() as int));
    assert(c =~= t.take(a.len() as int));
    assert(b =~= s.skip(a.len() as int));
    assert(d =~= t.skip(a.len() as int));
}

/// Appends bytes.
pub fn put_bytes(out: &mut Vec<u8>, bytes: &[u8])
    ensures
        final(out)@ == old(out)@ + bytes@,
{
    let mut i: usize = 0;
    assert(out@ =~= old(out)@ + bytes@.take(0));
    while i < bytes.len()
        invariant
            i <= bytes@.len(),
            out@ == old(out)@ + bytes@.take(i as int),
        decreases bytes@.len() - i,
    {
        out.push(bytes[i]);
        assert(out@ =~= old(out)@ + bytes@.take(i + 1));
        i += 1;
    }
    assert(bytes@.take(i as int) =~= bytes@);
}

/// Appends the low `n` bytes of an integer, little-endian.
pub fn put_le(out: &mut Vec<u8>, value: u128, n: usize)
    requires
        n <= 16,
    ensures
        final(out)@ == old(out)@ + le_bytes(value as nat, n as nat),
{
    let mut rest: u128 = value;
    let mut i: usize = 0;
    assert(old(out)@ + le_bytes(value as nat, n as nat) =~= out@ + le_bytes(rest as nat, n as nat));
    while i < n
        invariant
            i <= n,
            old(out)@ + le_bytes(value as nat, n as nat) == out@ + le_bytes(
                rest as nat,
                (n - i) as nat,
            ),
        decreases n - i,
    {
        let ghost before = out@;
        out.push((rest % 256) as u8);
        proof {
            let tail = le_bytes(rest as nat / 256, (n - i - 1) as nat);
            assert(before + le_bytes(rest as nat, (n - i) as nat) =~= out@ + tail);
        }
        rest = rest / 256;
        i += 1;
    }
    assert(out@ + le_bytes(rest as nat, 0) =~= out@);
}

/// The little-endian integer of `n` bytes from `start`.
pub fn get_le(bytes: &[u8], start: usize, n: usize) -> (r: u128)
    requires
        n <= 16,
        start + n <= bytes@.len(),
    ensures
        r == le_value(bytes@.subrange(start as int, start + n)),
        le_bytes(r as nat, n as nat) == bytes@.subrange(start as int, start + n),
{
    let mut value: u128 = 0;
    let mut i: usize = n;
    let total: usize = bytes.len();
    assert(bytes@.subrange(start + n, start + n) =~= Seq::empty());
    while i > 0
        invariant
            i <= n <= 16,
            total == bytes@.len(),
            start + n <= total,
            value == le_value(bytes@.subrange(start + i, start + n)),
        decreases i,
    {
        i -= 1;
        proof {
            let rest = bytes@.subrange(start + i + 1, start + n);
            let here = bytes@.subrange(start + i as int, start + n);
            assert(here.skip(1) =~= rest);
            lemma_le_value_bound(here);
            crate::bits::lemma_pow2_bound(8 * here.len(), 128);
            crate::bits::lemma_pow2_128();
        }
        value = (bytes[start + i] as u128) + 256 * value;
    }
    proof {
        let s = bytes@.subrange(start as int, start + n);
        assert(bytes@.subrange(start + 0, start + n) =~= s);
        lemma_le_bytes_value(s);
    }
    value
}

} // verus!
