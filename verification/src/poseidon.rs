//! The width-four permutation, natively and in the trace.
//!
//! Its round constants and matrices are parameters. A permutation multiplies
//! by the full matrix, then runs its rounds: full rounds raise every lane to
//! the seventh power, partial rounds the first lane alone.

use vstd::prelude::*;
use crate::circuit::{
    all_below, group_circuit, lemma_grows_eval, lemma_mul_sound, lemma_prefix_trans, mul_rows,
    prefix, sat, FieldR1csBuilder, Lin, LinExpr, Row,
};
use crate::field::F128;
use crate::gadget::{
    computed, holds_past, lemma_computed_trans, lemma_mul_past, lemma_past_split, times,
};
use crate::permutation_network::row_eval;

verus! {

broadcast use {group_circuit, lemma_computed_trans};

/// Lanes of a state.
pub const STATE_SIZE: usize = 4;

/// Round constants and matrices, as sequences.
pub struct Permutation {
    pub rc: Seq<Seq<F128>>,
    pub full: Seq<Seq<F128>>,
    pub partial: Seq<Seq<F128>>,
    pub half_full: nat,
    pub partials: nat,
}

impl Permutation {
    pub open spec fn rounds(self) -> nat {
        self.rc.len()
    }

    pub open spec fn is_partial(self, round: int) -> bool {
        self.half_full <= round < self.half_full + self.partials
    }
}

/// Round constants and matrices.
pub struct PoseidonTables {
    /// The constants of every round, one for each lane.
    pub rc: Vec<[F128; 4]>,
    pub mds_full: [[F128; 4]; 4],
    pub mds_partial: [[F128; 4]; 4],
    /// Full rounds before the partial ones.
    pub half_full: usize,
    /// Partial rounds.
    pub partials: usize,
}

pub open spec fn matrix(m: [[F128; 4]; 4]) -> Seq<Seq<F128>> {
    Seq::new(4, |i: int| m@[i]@)
}

impl View for PoseidonTables {
    type V = Permutation;

    open spec fn view(&self) -> Permutation {
        Permutation {
            rc: Seq::new(self.rc@.len(), |r: int| self.rc@[r]@),
            full: matrix(self.mds_full),
            partial: matrix(self.mds_partial),
            half_full: self.half_full as nat,
            partials: self.partials as nat,
        }
    }
}

// ---------------------------------------------------------------------------
// Natively
// ---------------------------------------------------------------------------

/// The first `n` terms of a row times a state.
pub open spec fn dot(row: Seq<F128>, s: Seq<F128>, n: nat) -> F128
    decreases n,
{
    if n == 0 {
        F128::zero()
    } else {
        dot(row, s, (n - 1) as nat).plus(s[n - 1].times(row[n - 1]))
    }
}

/// A matrix times a state.
pub open spec fn mds(m: Seq<Seq<F128>>, s: Seq<F128>) -> Seq<F128> {
    Seq::new(4, |i: int| dot(m[i], s, 4))
}

/// The seventh power.
pub open spec fn pow7(x: F128) -> F128 {
    let cube = x.times(x).times(x);
    cube.times(cube).times(x)
}

/// The state after the S-boxes of a round.
pub open spec fn sboxes(p: Permutation, round: int, s: Seq<F128>) -> Seq<F128> {
    if p.is_partial(round) {
        seq![pow7(s[0].plus(p.rc[round][0])), s[1], s[2], s[3]]
    } else {
        seq![
            pow7(s[0].plus(p.rc[round][0])),
            pow7(s[1].plus(p.rc[round][1])),
            pow7(s[2].plus(p.rc[round][2])),
            pow7(s[3].plus(p.rc[round][3])),
        ]
    }
}

/// One round.
pub open spec fn round_of(p: Permutation, round: int, s: Seq<F128>) -> Seq<F128> {
    mds(
        if p.is_partial(round) {
            p.partial
        } else {
            p.full
        },
        sboxes(p, round, s),
    )
}

/// The initial matrix and the first `n` rounds.
pub open spec fn rounds_of(p: Permutation, s: Seq<F128>, n: nat) -> Seq<F128>
    decreases n,
{
    if n == 0 {
        mds(p.full, s)
    } else {
        round_of(p, n - 1, rounds_of(p, s, (n - 1) as nat))
    }
}

/// The permutation.
pub open spec fn permuted(p: Permutation, s: Seq<F128>) -> Seq<F128> {
    rounds_of(p, s, p.rounds())
}

/// A permuted state has four lanes.
pub proof fn lemma_permuted_len(p: Permutation, s: Seq<F128>)
    ensures
        permuted(p, s).len() == 4,
{
}

fn dot_native(row: &[F128; 4], s: &[F128; 4]) -> (r: F128)
    ensures
        r == dot(row@, s@, 4),
{
    reveal_with_fuel(dot, 5);
    F128::zero().add(s[0].mul(row[0])).add(s[1].mul(row[1])).add(s[2].mul(row[2])).add(
        s[3].mul(row[3]),
    )
}

fn mds_native(m: &[[F128; 4]; 4], s: &[F128; 4]) -> (r: [F128; 4])
    ensures
        r@ == mds(matrix(*m), s@),
{
    let r = [
        dot_native(&m[0], s),
        dot_native(&m[1], s),
        dot_native(&m[2], s),
        dot_native(&m[3], s),
    ];
    assert(r@ =~= mds(matrix(*m), s@));
    r
}

fn pow7_native(x: F128) -> (r: F128)
    ensures
        r == pow7(x),
{
    let cube = x.mul(x).mul(x);
    cube.mul(cube).mul(x)
}

impl PoseidonTables {
    /// A round counts as partial.
    pub fn is_partial(&self, round: usize) -> (r: bool)
        ensures
            r == self@.is_partial(round as int),
    {
        self.half_full <= round && round - self.half_full < self.partials
    }

    /// The initial matrix times a state.
    pub fn initial_mds(&self, raw: &[F128; 4]) -> (r: [F128; 4])
        ensures
            r@ == mds(self@.full, raw@),
    {
        mds_native(&self.mds_full, raw)
    }

    /// One round.
    pub fn apply_round(&self, round: usize, s: &[F128; 4]) -> (r: [F128; 4])
        requires
            round < self@.rounds(),
        ensures
            r@ == round_of(self@, round as int, s@),
    {
        let rc = &self.rc[round];
        assert(rc@ == self@.rc[round as int]);
        if self.is_partial(round) {
            let out = [pow7_native(s[0].add(rc[0])), s[1], s[2], s[3]];
            assert(out@ =~= sboxes(self@, round as int, s@));
            mds_native(&self.mds_partial, &out)
        } else {
            let out = [
                pow7_native(s[0].add(rc[0])),
                pow7_native(s[1].add(rc[1])),
                pow7_native(s[2].add(rc[2])),
                pow7_native(s[3].add(rc[3])),
            ];
            assert(out@ =~= sboxes(self@, round as int, s@));
            mds_native(&self.mds_full, &out)
        }
    }

    /// The permutation.
    pub fn permute(&self, s: &[F128; 4]) -> (r: [F128; 4])
        ensures
            r@ == permuted(self@, s@),
    {
        let mut state = self.initial_mds(s);
        let mut round: usize = 0;
        while round < self.rc.len()
            invariant
                round <= self.rc@.len(),
                state@ == rounds_of(self@, s@, round as nat),
            decreases self.rc@.len() - round,
        {
            state = self.apply_round(round, &state);
            round += 1;
        }
        state
    }

    /// The two-permutation compression of two digests under a capacity value.
    pub fn compress(&self, iv: &[F128; 2], a: &[F128; 2], b: &[F128; 2]) -> (r: [F128; 2])
        ensures
            r@ == compressed(self@, iv@, a@, b@),
    {
        let first = [a[0], a[1], iv[0], iv[1]];
        assert(first@ =~= seq![a@[0], a@[1], iv@[0], iv@[1]]);
        let state = self.permute(&first);
        let second = [state[0].add(b[0]), state[1].add(b[1]), state[2], state[3]];
        assert(second@ =~= seq![
            state@[0].plus(b@[0]),
            state@[1].plus(b@[1]),
            state@[2],
            state@[3],
        ]);
        let out = self.permute(&second);
        let r = [out[0], out[1]];
        assert(r@ =~= seq![out@[0], out@[1]]);
        r
    }
}

/// The two-permutation compression of two digests under a capacity value: the
/// first digest over the capacity, then the second added to the rate.
pub open spec fn compressed(p: Permutation, iv: Seq<F128>, a: Seq<F128>, b: Seq<F128>) -> Seq<F128> {
    let s = permuted(p, seq![a[0], a[1], iv[0], iv[1]]);
    let t = permuted(p, seq![s[0].plus(b[0]), s[1].plus(b[1]), s[2], s[3]]);
    seq![t[0], t[1]]
}

// ---------------------------------------------------------------------------
// In the trace
// ---------------------------------------------------------------------------

/// The first `n` terms of a row times a state of expressions.
pub open spec fn lin_dot(row: Seq<F128>, s: Seq<Lin>, n: nat) -> Lin
    decreases n,
{
    if n == 0 {
        Lin::zero()
    } else {
        lin_dot(row, s, (n - 1) as nat).plus(s[n - 1].scale(row[n - 1]))
    }
}

/// A matrix times a state of expressions.
pub open spec fn lin_mds(m: Seq<Seq<F128>>, s: Seq<Lin>) -> Seq<Lin> {
    Seq::new(4, |i: int| lin_dot(m[i], s, 4))
}

/// The rows of a seventh power, and its expression.
pub open spec fn pow7_rows(c: Seq<Row>, x: Lin) -> (Seq<Row>, Lin) {
    let (c1, square) = mul_rows(c, x, x);
    let (c2, cube) = mul_rows(c1, square, x);
    let (c3, sixth) = mul_rows(c2, cube, cube);
    mul_rows(c3, sixth, x)
}

/// The rows of the S-boxes of a round, and the state after them.
pub open spec fn sbox_rows(c: Seq<Row>, p: Permutation, round: int, s: Seq<Lin>) -> (
    Seq<Row>,
    Seq<Lin>,
) {
    let (c1, s0) = pow7_rows(c, s[0].plus_const(p.rc[round][0]));
    if p.is_partial(round) {
        (c1, seq![s0, s[1], s[2], s[3]])
    } else {
        let (c2, s1) = pow7_rows(c1, s[1].plus_const(p.rc[round][1]));
        let (c3, s2) = pow7_rows(c2, s[2].plus_const(p.rc[round][2]));
        let (c4, s3) = pow7_rows(c3, s[3].plus_const(p.rc[round][3]));
        (c4, seq![s0, s1, s2, s3])
    }
}

/// The rows of one round, and the state after it.
pub open spec fn round_rows(c: Seq<Row>, p: Permutation, round: int, s: Seq<Lin>) -> (
    Seq<Row>,
    Seq<Lin>,
) {
    let (c1, t) = sbox_rows(c, p, round, s);
    (c1, lin_mds(
        if p.is_partial(round) {
            p.partial
        } else {
            p.full
        },
        t,
    ))
}

/// The rows of the initial matrix and the first `n` rounds.
pub open spec fn rounds_rows(c: Seq<Row>, p: Permutation, s: Seq<Lin>, n: nat) -> (
    Seq<Row>,
    Seq<Lin>,
)
    decreases n,
{
    if n == 0 {
        (c, lin_mds(p.full, s))
    } else {
        let (c1, t) = rounds_rows(c, p, s, (n - 1) as nat);
        round_rows(c1, p, n - 1, t)
    }
}

/// The rows of a permutation, and its output.
pub open spec fn permute_rows(c: Seq<Row>, p: Permutation, s: Seq<Lin>) -> (Seq<Row>, Seq<Lin>) {
    rounds_rows(c, p, s, p.rounds())
}

/// The rows of a compression, and its output.
pub open spec fn compress_rows(
    c: Seq<Row>,
    p: Permutation,
    iv: Seq<F128>,
    a: Seq<Lin>,
    b: Seq<Lin>,
) -> (Seq<Row>, Seq<Lin>) {
    let (c1, s) = permute_rows(
        c,
        p,
        seq![a[0], a[1], Lin::constant(iv[0]), Lin::constant(iv[1])],
    );
    let (c2, t) = permute_rows(c1, p, seq![s[0].plus(b[0]), s[1].plus(b[1]), s[2], s[3]]);
    (c2, seq![t[0], t[1]])
}

proof fn lemma_dot(row: Seq<F128>, s: Seq<Lin>, n: nat, z: Seq<F128>)
    requires
        n <= s.len(),
    ensures
        lin_dot(row, s, n).eval(z) == dot(row, row_eval(s, z), n),
    decreases n,
{
    if n > 0 {
        lemma_dot(row, s, (n - 1) as nat, z);
    }
}

pub proof fn lemma_lin_mds(m: Seq<Seq<F128>>, s: Seq<Lin>, z: Seq<F128>)
    requires
        s.len() == 4,
    ensures
        row_eval(lin_mds(m, s), z) == mds(m, row_eval(s, z)),
{
    assert forall|i: int| 0 <= i < 4 implies row_eval(lin_mds(m, s), z)[i] == mds(
        m,
        row_eval(s, z),
    )[i] by {
        lemma_dot(m[i], s, 4, z);
    }
    assert(row_eval(lin_mds(m, s), z) =~= mds(m, row_eval(s, z)));
}

pub proof fn lemma_pow7_sound(c: Seq<Row>, x: Lin, z: Seq<F128>)
    requires
        sat(pow7_rows(c, x).0, z),
    ensures
        sat(c, z),
        pow7_rows(c, x).1.eval(z) == pow7(x.eval(z)),
{
    let (c1, square) = mul_rows(c, x, x);
    let (c2, cube) = mul_rows(c1, square, x);
    let (c3, sixth) = mul_rows(c2, cube, cube);
    lemma_mul_sound(c3, sixth, x, z);
    lemma_mul_sound(c2, cube, cube, z);
    lemma_mul_sound(c1, square, x, z);
    lemma_mul_sound(c, x, x, z);
}

proof fn lemma_sbox_sound(c: Seq<Row>, p: Permutation, round: int, s: Seq<Lin>, z: Seq<F128>)
    requires
        s.len() == 4,
        sat(sbox_rows(c, p, round, s).0, z),
    ensures
        sat(c, z),
        sbox_rows(c, p, round, s).1.len() == 4,
        row_eval(sbox_rows(c, p, round, s).1, z) == sboxes(p, round, row_eval(s, z)),
{
    let (c1, s0) = pow7_rows(c, s[0].plus_const(p.rc[round][0]));
    if !p.is_partial(round) {
        let (c2, s1) = pow7_rows(c1, s[1].plus_const(p.rc[round][1]));
        let (c3, s2) = pow7_rows(c2, s[2].plus_const(p.rc[round][2]));
        lemma_pow7_sound(c3, s[3].plus_const(p.rc[round][3]), z);
        lemma_pow7_sound(c2, s[2].plus_const(p.rc[round][2]), z);
        lemma_pow7_sound(c1, s[1].plus_const(p.rc[round][1]), z);
    }
    lemma_pow7_sound(c, s[0].plus_const(p.rc[round][0]), z);
    assert(row_eval(sbox_rows(c, p, round, s).1, z) =~= sboxes(p, round, row_eval(s, z)));
}

proof fn lemma_rounds_sound(c: Seq<Row>, p: Permutation, s: Seq<Lin>, n: nat, z: Seq<F128>)
    requires
        s.len() == 4,
        sat(rounds_rows(c, p, s, n).0, z),
    ensures
        sat(c, z),
        rounds_rows(c, p, s, n).1.len() == 4,
        row_eval(rounds_rows(c, p, s, n).1, z) == rounds_of(p, row_eval(s, z), n),
    decreases n,
{
    if n == 0 {
        lemma_lin_mds(p.full, s, z);
    } else {
        let (c1, t) = rounds_rows(c, p, s, (n - 1) as nat);
        let (c2, u) = sbox_rows(c1, p, n - 1, t);
        lemma_rounds_len(c, p, s, (n - 1) as nat);
        lemma_sbox_sound(c1, p, n - 1, t, z);
        lemma_rounds_sound(c, p, s, (n - 1) as nat, z);
        lemma_lin_mds(
            if p.is_partial(n - 1) {
                p.partial
            } else {
                p.full
            },
            u,
            z,
        );
    }
}

proof fn lemma_rounds_len(c: Seq<Row>, p: Permutation, s: Seq<Lin>, n: nat)
    ensures
        rounds_rows(c, p, s, n).1.len() == 4,
{
}

/// A traced permutation evaluates to the permutation.
pub proof fn lemma_permute_sound(c: Seq<Row>, p: Permutation, s: Seq<Lin>, z: Seq<F128>)
    requires
        s.len() == 4,
        sat(permute_rows(c, p, s).0, z),
    ensures
        sat(c, z),
        permute_rows(c, p, s).1.len() == 4,
        row_eval(permute_rows(c, p, s).1, z) == permuted(p, row_eval(s, z)),
{
    lemma_rounds_sound(c, p, s, p.rounds(), z);
}

/// A traced compression evaluates to the compression.
pub proof fn lemma_compress_sound(
    c: Seq<Row>,
    p: Permutation,
    iv: Seq<F128>,
    a: Seq<Lin>,
    b: Seq<Lin>,
    z: Seq<F128>,
)
    requires
        a.len() == 2,
        b.len() == 2,
        sat(compress_rows(c, p, iv, a, b).0, z),
    ensures
        sat(c, z),
        row_eval(compress_rows(c, p, iv, a, b).1, z) == compressed(
            p,
            iv,
            row_eval(a, z),
            row_eval(b, z),
        ),
{
    let first = seq![a[0], a[1], Lin::constant(iv[0]), Lin::constant(iv[1])];
    let (c1, s) = permute_rows(c, p, first);
    lemma_rounds_len(c, p, first, p.rounds());
    let second = seq![s[0].plus(b[0]), s[1].plus(b[1]), s[2], s[3]];
    let (c2, t) = permute_rows(c1, p, second);
    lemma_permute_sound(c1, p, second, z);
    lemma_permute_sound(c, p, first, z);
    let (ea, eb) = (row_eval(a, z), row_eval(b, z));
    assert(row_eval(first, z) =~= seq![ea[0], ea[1], iv[0], iv[1]]);
    let es = row_eval(s, z);
    assert(row_eval(second, z) =~= seq![
        es[0].plus(eb[0]),
        es[1].plus(eb[1]),
        es[2],
        es[3],
    ]);
    assert(row_eval(seq![t[0], t[1]], z) =~= seq![row_eval(t, z)[0], row_eval(t, z)[1]]);
}

/// Four expressions as a state.
pub open spec fn state_lins(s: [LinExpr; 4]) -> Seq<Lin> {
    seq![s@[0]@, s@[1]@, s@[2]@, s@[3]@]
}

fn lin_dot_expr(row: &[F128; 4], s: &[LinExpr; 4]) -> (r: LinExpr)
    ensures
        r@ == lin_dot(row@, state_lins(*s), 4),
{
    reveal_with_fuel(lin_dot, 5);
    let mut r = LinExpr::zero();
    r.add_assign(&s[0].scale(row[0]));
    r.add_assign(&s[1].scale(row[1]));
    r.add_assign(&s[2].scale(row[2]));
    r.add_assign(&s[3].scale(row[3]));
    r
}

pub fn mds_exprs(m: &[[F128; 4]; 4], s: &[LinExpr; 4]) -> (r: [LinExpr; 4])
    ensures
        state_lins(r) == lin_mds(matrix(*m), state_lins(*s)),
{
    let r = [
        lin_dot_expr(&m[0], s),
        lin_dot_expr(&m[1], s),
        lin_dot_expr(&m[2], s),
        lin_dot_expr(&m[3], s),
    ];
    assert(state_lins(r) =~= lin_mds(matrix(*m), state_lins(*s)));
    r
}

proof fn lemma_lin_dot_below(row: Seq<F128>, s: Seq<Lin>, n: nat, m: nat)
    requires
        n <= s.len(),
        all_below(s, m),
    ensures
        lin_dot(row, s, n).below(m),
    decreases n,
{
    if n > 0 {
        lemma_lin_dot_below(row, s, (n - 1) as nat, m);
        assert(s[n - 1].below(m));
    }
}

pub proof fn lemma_lin_mds_below(m: Seq<Seq<F128>>, s: Seq<Lin>, n: nat)
    requires
        s.len() == 4,
        all_below(s, n),
    ensures
        all_below(lin_mds(m, s), n),
{
    let r = lin_mds(m, s);
    assert forall|i: int| 0 <= i < r.len() implies (#[trigger] r[i]).below(n) by {
        lemma_lin_dot_below(m[i], s, 4, n);
    }
}

/// The seventh power of an expression.
pub fn pow7_expr(b: &mut FieldR1csBuilder, x: &LinExpr) -> (r: LinExpr)
    requires
        old(b)@.wf(),
        x@.below(old(b)@.rows.len()),
    ensures
        (final(b)@.rows, r@) == pow7_rows(old(b)@.rows, x@),
        final(b)@.grows(old(b)@),
        final(b)@.honest() <==> old(b)@.honest(),
        computed(old(b)@, final(b)@),
        r@.below(final(b)@.rows.len()),
        r@.eval(final(b)@.values) == pow7(x@.eval(old(b)@.values)),
{
    let square = times(b, x, x);
    let cube = times(b, &square, x);
    let sixth = times(b, &cube, &cube);
    let r = times(b, &sixth, x);
    proof {
        lemma_pow7_past(old(b)@.rows, x@, b@.values);
        lemma_grows_eval(old(b)@, b@, x@);
    }
    r
}

/// A seventh power computes.
pub proof fn lemma_pow7_past(c: Seq<Row>, x: Lin, z: Seq<F128>)
    ensures
        prefix(c, pow7_rows(c, x).0),
        holds_past(pow7_rows(c, x).0, c.len(), z) ==> pow7_rows(c, x).1.eval(z) == pow7(
            x.eval(z),
        ),
{
    broadcast use lemma_prefix_trans;

    let (c1, square) = mul_rows(c, x, x);
    let (c2, cube) = mul_rows(c1, square, x);
    let (c3, sixth) = mul_rows(c2, cube, cube);
    let (c4, r) = mul_rows(c3, sixth, x);
    lemma_mul_past(c, x, x, z);
    lemma_mul_past(c1, square, x, z);
    lemma_mul_past(c2, cube, cube, z);
    lemma_mul_past(c3, sixth, x, z);
    if holds_past(c4, c.len(), z) {
        lemma_past_split(c4, c1, c.len(), z);
        lemma_past_split(c4, c2, c1.len(), z);
        lemma_past_split(c4, c3, c2.len(), z);
    }
}

/// The S-boxes of a round compute.
pub proof fn lemma_sbox_past(c: Seq<Row>, p: Permutation, round: int, s: Seq<Lin>, z: Seq<F128>)
    requires
        s.len() == 4,
    ensures
        prefix(c, sbox_rows(c, p, round, s).0),
        sbox_rows(c, p, round, s).1.len() == 4,
        holds_past(sbox_rows(c, p, round, s).0, c.len(), z) ==> row_eval(
            sbox_rows(c, p, round, s).1,
            z,
        ) == sboxes(p, round, row_eval(s, z)),
{
    broadcast use {lemma_prefix_trans, crate::circuit::group_lin};

    let x0 = s[0].plus_const(p.rc[round][0]);
    let (c1, s0) = pow7_rows(c, x0);
    lemma_pow7_past(c, x0, z);
    let (rows, out) = sbox_rows(c, p, round, s);
    if p.is_partial(round) {
        if holds_past(rows, c.len(), z) {
            assert(row_eval(out, z) =~= sboxes(p, round, row_eval(s, z)));
        }
    } else {
        let x1 = s[1].plus_const(p.rc[round][1]);
        let x2 = s[2].plus_const(p.rc[round][2]);
        let x3 = s[3].plus_const(p.rc[round][3]);
        let (c2, s1) = pow7_rows(c1, x1);
        let (c3, s2) = pow7_rows(c2, x2);
        let (c4, s3) = pow7_rows(c3, x3);
        lemma_pow7_past(c1, x1, z);
        lemma_pow7_past(c2, x2, z);
        lemma_pow7_past(c3, x3, z);
        if holds_past(rows, c.len(), z) {
            lemma_past_split(c4, c1, c.len(), z);
            lemma_past_split(c4, c2, c1.len(), z);
            lemma_past_split(c4, c3, c2.len(), z);
            assert(row_eval(out, z) =~= sboxes(p, round, row_eval(s, z)));
        }
    }
}

/// The permutation of a state of expressions.
pub fn poseidon2b_permute(b: &mut FieldR1csBuilder, t: &PoseidonTables, s: &[LinExpr; 4]) -> (r: [LinExpr; 4])
    requires
        old(b)@.wf(),
        all_below(state_lins(*s), old(b)@.rows.len()),
    ensures
        (final(b)@.rows, state_lins(r)) == permute_rows(old(b)@.rows, t@, state_lins(*s)),
        final(b)@.grows(old(b)@),
        final(b)@.honest() <==> old(b)@.honest(),
        all_below(state_lins(r), final(b)@.rows.len()),
{
    let ghost p = t@;
    let ghost sl = state_lins(*s);
    let mut state = mds_exprs(&t.mds_full, s);
    proof {
        lemma_lin_mds_below(p.full, sl, b@.rows.len());
    }
    let mut round: usize = 0;
    while round < t.rc.len()
        invariant
            round <= t.rc@.len(),
            p == t@,
            b@.grows(old(b)@),
            b@.honest() <==> old(b)@.honest(),
            (b@.rows, state_lins(state)) == rounds_rows(old(b)@.rows, p, sl, round as nat),
            all_below(state_lins(state), b@.rows.len()),
        decreases t.rc@.len() - round,
    {
        let ghost start = b@;
        let ghost cur = state_lins(state);
        let rc = &t.rc[round];
        assert(rc@ == p.rc[round as int]);
        assert(cur[0].below(start.rows.len()) && cur[1].below(start.rows.len()) && cur[2].below(
            start.rows.len(),
        ) && cur[3].below(start.rows.len()));
        let in0 = state[0].add_const(rc[0]);
        let out0 = pow7_expr(b, &in0);
        let ghost b1 = b@;
        if t.is_partial(round) {
            let next: [LinExpr; 4] = [out0, state[1].dup(), state[2].dup(), state[3].dup()];
            assert(state_lins(next) =~= seq![out0@, cur[1], cur[2], cur[3]]);
            proof {
                lemma_lin_mds_below(p.partial, state_lins(next), b@.rows.len());
            }
            state = mds_exprs(&t.mds_partial, &next);
        } else {
            let in1 = state[1].add_const(rc[1]);
            let out1 = pow7_expr(b, &in1);
            let ghost b2 = b@;
            let in2 = state[2].add_const(rc[2]);
            let out2 = pow7_expr(b, &in2);
            let ghost b3 = b@;
            let in3 = state[3].add_const(rc[3]);
            let out3 = pow7_expr(b, &in3);
            let next: [LinExpr; 4] = [out0, out1, out2, out3];
            assert(state_lins(next) =~= seq![out0@, out1@, out2@, out3@]);
            proof {
                lemma_lin_mds_below(p.full, state_lins(next), b@.rows.len());
            }
            state = mds_exprs(&t.mds_full, &next);
        }
        round += 1;
    }
    state
}

} // verus!
