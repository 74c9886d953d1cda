//! A transcript channel: what is absorbed, and where challenges come from.
//!
//! The channel records its operations in order. A squeezed challenge is a free
//! wire; the recorded operations say what the sponge that yields it has
//! absorbed, so that the wire can be bound to the sponge's output.

use vstd::prelude::*;
use crate::circuit::{free_row, group_circuit, Circuit, FieldR1csBuilder, Lin, LinExpr, Row};
use crate::field::F128;
use crate::gadget::{computed, free_wire};

verus! {

broadcast use group_circuit;

/// One operation of a channel.
#[derive(Debug)]
pub enum ChannelOp {
    Absorb(LinExpr),
    Squeeze(LinExpr),
}

/// One operation of a channel.
pub enum Op {
    Absorb(Lin),
    Squeeze(Lin),
}

impl View for ChannelOp {
    type V = Op;

    open spec fn view(&self) -> Op {
        match self {
            ChannelOp::Absorb(e) => Op::Absorb(e@),
            ChannelOp::Squeeze(e) => Op::Squeeze(e@),
        }
    }
}

/// Recorded operations, and the challenges that the sponge gives. Past the last
/// challenge, zero stands for it.
#[derive(Debug)]
pub struct RawChannelTrace {
    pub ops: Vec<ChannelOp>,
    pub challenges: Vec<F128>,
    pub squeezed: usize,
}

/// Rows and recorded operations.
pub struct Tape {
    pub rows: Seq<Row>,
    pub ops: Seq<Op>,
}

impl Tape {
    pub open spec fn absorb(self, e: Lin) -> Tape {
        Tape { rows: self.rows, ops: self.ops.push(Op::Absorb(e)) }
    }

    pub open spec fn absorb_const(self, value: nat) -> Tape {
        self.absorb(Lin::constant(F128::of_nat(value)))
    }

    /// The next challenge wire.
    pub open spec fn challenge(self) -> Lin {
        Lin::wire(self.rows.len() as usize)
    }

    pub open spec fn squeeze(self) -> Tape {
        Tape {
            rows: self.rows.push(free_row(self.rows.len() as usize)),
            ops: self.ops.push(Op::Squeeze(self.challenge())),
        }
    }

    pub open spec fn on(self, rows: Seq<Row>) -> Tape {
        Tape { rows, ops: self.ops }
    }
}

pub open spec fn op_views(ops: Seq<ChannelOp>) -> Seq<Op> {
    Seq::new(ops.len(), |i: int| ops[i]@)
}

/// The rows of a builder with the operations of a channel.
pub open spec fn tape(b: FieldR1csBuilder, ch: RawChannelTrace) -> Tape {
    Tape { rows: b@.rows, ops: ch@ }
}

impl View for RawChannelTrace {
    type V = Seq<Op>;

    open spec fn view(&self) -> Seq<Op> {
        op_views(self.ops@)
    }
}

/// The wires of the challenges that operations draw, in order.
pub open spec fn squeezed_wires(ops: Seq<Op>) -> Seq<Lin>
    decreases ops.len(),
{
    if ops.len() == 0 {
        Seq::empty()
    } else {
        let before = squeezed_wires(ops.drop_last());
        match ops.last() {
            Op::Absorb(_) => before,
            Op::Squeeze(e) => before.push(e),
        }
    }
}

/// A channel that has absorbed: no challenge was drawn.
pub open spec fn kept(before: RawChannelTrace, after: RawChannelTrace) -> bool {
    &&& after.challenges == before.challenges
    &&& after.squeezed == before.squeezed
    &&& squeezed_wires(after@) == squeezed_wires(before@)
}

/// A circuit that has grown while challenges were drawn: every wire drawn holds
/// the challenge that the channel had for it, and the channel goes on after them.
#[verifier::opaque]
pub open spec fn drew(
    before: Circuit,
    ch: RawChannelTrace,
    after: Circuit,
    now: RawChannelTrace,
) -> bool {
    let (old_wires, wires) = (squeezed_wires(ch@), squeezed_wires(now@));
    let m = old_wires.len();
    &&& after.grows(before)
    &&& m <= wires.len()
    &&& wires.take(m as int) == old_wires
    &&& now.after(&ch, (wires.len() - m) as nat)
    &&& forall|i: int|
        m <= i < wires.len() ==> (#[trigger] wires[i]).below(after.rows.len()) && wires[i].eval(
            after.values,
        ) == ch.upcoming((i - m) as nat)
}

/// Absorbing and growing draw nothing.
pub proof fn lemma_drew_kept(
    before: Circuit,
    ch: RawChannelTrace,
    after: Circuit,
    now: RawChannelTrace,
)
    requires
        after.grows(before),
        kept(ch, now),
    ensures
        drew(before, ch, after, now),
{
    reveal(drew);
    let wires = squeezed_wires(ch@);
    assert(wires.take(wires.len() as int) =~= wires);
    assert(forall|j: nat| #[trigger] now.upcoming(j) == ch.upcoming(j + 0));
}

/// Challenges drawn one after the other.
pub proof fn lemma_drew_trans(
    a: Circuit,
    x: RawChannelTrace,
    b: Circuit,
    y: RawChannelTrace,
    c: Circuit,
    z: RawChannelTrace,
)
    requires
        drew(a, x, b, y),
        drew(b, y, c, z),
    ensures
        drew(a, x, c, z),
{
    reveal(drew);
    let (p, q, r) = (squeezed_wires(x@), squeezed_wires(y@), squeezed_wires(z@));
    assert(r.take(p.len() as int) =~= p) by {
        assert(r.take(q.len() as int).take(p.len() as int) =~= r.take(p.len() as int));
    }
    assert forall|j: nat| #[trigger] z.upcoming(j) == x.upcoming(
        j + (r.len() - p.len()) as nat,
    ) by {
        let k = (j + (r.len() - q.len())) as nat;
        assert(z.upcoming(j) == y.upcoming(k));
        assert(y.upcoming(k) == x.upcoming(k + (q.len() - p.len()) as nat));
    }
    assert forall|i: int| p.len() <= i < r.len() implies (#[trigger] r[i]).below(c.rows.len())
        && r[i].eval(c.values) == x.upcoming((i - p.len()) as nat) by {
        if i < q.len() {
            assert(r.take(q.len() as int)[i] == q[i]);
            assert(q[i].below(b.rows.len()));
        } else {
            let k = (i - q.len()) as nat;
            assert(y.upcoming(k) == x.upcoming(k + (q.len() - p.len()) as nat));
        }
    }
}

/// One step of a run: absorb and grow, draw, grow.
pub proof fn lemma_drew_step(
    start: Circuit,
    ch: RawChannelTrace,
    a: Circuit,
    x: RawChannelTrace,
    b: Circuit,
    y: RawChannelTrace,
    c: Circuit,
    z: RawChannelTrace,
    d: Circuit,
)
    requires
        drew(start, ch, a, x),
        b.grows(a),
        kept(x, y),
        drew(b, y, c, z),
        d.grows(c),
    ensures
        drew(start, ch, d, z),
{
    lemma_drew_kept(a, x, b, y);
    lemma_drew_trans(start, ch, a, x, b, y);
    lemma_drew_trans(start, ch, b, y, c, z);
    lemma_drew_kept(c, z, d, z);
    lemma_drew_trans(start, ch, c, z, d, z);
}

/// The end of a run: absorb and grow.
pub proof fn lemma_drew_end(
    start: Circuit,
    ch: RawChannelTrace,
    a: Circuit,
    x: RawChannelTrace,
    b: Circuit,
    y: RawChannelTrace,
)
    requires
        drew(start, ch, a, x),
        b.grows(a),
        kept(x, y),
    ensures
        drew(start, ch, b, y),
{
    lemma_drew_kept(a, x, b, y);
    lemma_drew_trans(start, ch, a, x, b, y);
}

/// Wires hold challenges in order, and zero where there are no more.
pub open spec fn challenges_held(challenges: Seq<F128>, wires: Seq<Lin>, z: Seq<F128>) -> bool {
    forall|i: int|
        0 <= i < wires.len() ==> (#[trigger] wires[i]).eval(z) == if i < challenges.len() {
            challenges[i]
        } else {
            F128::zero()
        }
}

/// What a fresh channel gave: the wires drawn hold its challenges in order.
pub proof fn lemma_drew_fresh(
    before: Circuit,
    ch: RawChannelTrace,
    after: Circuit,
    now: RawChannelTrace,
)
    requires
        drew(before, ch, after, now),
        ch@ == Seq::<Op>::empty(),
        ch.squeezed == 0,
    ensures
        challenges_held(ch.challenges@, squeezed_wires(now@), after.values),
{
    reveal(drew);
    assert(squeezed_wires(ch@) =~= Seq::empty());
    let wires = squeezed_wires(now@);
    assert forall|i: int| 0 <= i < wires.len() implies (#[trigger] wires[i]).eval(after.values)
        == ch.upcoming(i as nat) by {}
}

impl RawChannelTrace {
    /// The value of the challenge that comes after `i` others, zero where the
    /// channel has no more.
    pub open spec fn upcoming(&self, i: nat) -> F128 {
        if self.squeezed + i < self.challenges@.len() {
            self.challenges@[self.squeezed + i]
        } else {
            F128::zero()
        }
    }

    /// The values of the next `n` challenges.
    pub open spec fn draws(&self, n: nat) -> Seq<F128> {
        Seq::new(n, |i: int| self.upcoming(i as nat))
    }

    /// The channel after `n` challenges of `before`.
    pub open spec fn after(&self, before: &RawChannelTrace, n: nat) -> bool {
        forall|j: nat| #[trigger] self.upcoming(j) == before.upcoming(j + n)
    }

    /// A channel that will give the challenges in order.
    pub fn new(challenges: Vec<F128>) -> (r: RawChannelTrace)
        ensures
            r@ == Seq::<Op>::empty(),
            r.challenges == challenges,
            r.squeezed == 0,
    {
        let r = RawChannelTrace { ops: Vec::new(), challenges, squeezed: 0 };
        assert(r@ =~= Seq::<Op>::empty());
        r
    }

    pub fn absorb(&mut self, e: &LinExpr)
        ensures
            final(self)@ == old(self)@.push(Op::Absorb(e@)),
            kept(*old(self), *final(self)),
    {
        let ghost before = self.ops@;
        self.ops.push(ChannelOp::Absorb(e.dup()));
        assert(op_views(self.ops@) =~= op_views(before).push(Op::Absorb(e@)));
        assert(self@.drop_last() =~= old(self)@);
    }

    /// Absorbs an integer.
    pub fn absorb_const_tower(&mut self, value: u128)
        ensures
            final(self)@ == old(self)@.push(Op::Absorb(Lin::constant(F128::of_nat(value as nat)))),
            kept(*old(self), *final(self)),
    {
        let e = LinExpr::constant(F128::from_u128(value));
        self.absorb(&e);
    }

    /// The next challenge, on a free wire.
    pub fn squeeze(&mut self, b: &mut FieldR1csBuilder) -> (r: LinExpr)
        requires
            old(b)@.wf(),
        ensures
            tape(*final(b), *final(self)) == tape(*old(b), *old(self)).squeeze(),
            r@ == tape(*old(b), *old(self)).challenge(),
            r@.below(final(b)@.rows.len()),
            computed(old(b)@, final(b)@),
            final(self).challenges == old(self).challenges,
            r@.eval(final(b)@.values) == old(self).upcoming(0),
            final(self).after(old(self), 1),
            drew(old(b)@, *old(self), final(b)@, *final(self)),
            final(self).squeezed == if old(self).squeezed < old(self).challenges@.len() {
                (old(self).squeezed + 1) as usize
            } else {
                old(self).squeezed
            },
    {
        let value = if self.squeezed < self.challenges.len() {
            let v = self.challenges[self.squeezed];
            self.squeezed = self.squeezed + 1;
            v
        } else {
            F128::zero()
        };
        let r = free_wire(b, value);
        let ghost before = self.ops@;
        self.ops.push(ChannelOp::Squeeze(r.dup()));
        assert(op_views(self.ops@) =~= op_views(before).push(Op::Squeeze(r@)));
        proof {
            reveal(drew);
            assert(self@.drop_last() =~= old(self)@);
            let wires = squeezed_wires(old(self)@);
            assert(wires.push(r@).take(wires.len() as int) =~= wires);
        }
        r
    }
}

} // verus!
