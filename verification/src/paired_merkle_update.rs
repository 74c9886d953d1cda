//! Fixed-depth paired Merkle updates.
//!
//! One update hashes an old and a new leaf through the same siblings and
//! directions. Every level takes four permutation slots: old-even, old-odd,
//! new-even, new-odd. The committed columns are, in order,
//! `C0..C3, E0, E1, SIB0, SIB1, D`; the odd `E` cells carry each chain's digest
//! to its next level.

use vstd::prelude::*;
use vstd::arithmetic::power2::{lemma_pow2_adds, pow2};
use crate::field::F128;
use crate::poseidon::{compressed, mds, permuted, Permutation, PoseidonTables};
use crate::wire_shape::power_of_two;

verus! {

/// Levels of an update.
pub const PAIRED_UPDATE_DEPTH: usize = 16;

/// Slots of a level.
pub const PAIRED_UPDATE_SLOTS_PER_LEVEL: usize = 4;

/// Slots of an update.
pub const PAIRED_UPDATE_STRIDE: usize = 64;

/// Slots of updates, before padding.
pub fn paired_update_slots(updates: usize) -> (r: usize)
    requires
        updates <= usize::MAX / PAIRED_UPDATE_STRIDE,
    ensures
        r == updates * PAIRED_UPDATE_DEPTH * PAIRED_UPDATE_SLOTS_PER_LEVEL,
{
    updates * PAIRED_UPDATE_STRIDE
}

/// Where, within an update, the old and the new root after `depth` levels are.
pub fn paired_update_root_offsets(depth: usize) -> (r: [usize; 2])
    requires
        1 <= depth <= PAIRED_UPDATE_DEPTH,
    ensures
        r@ == seq![(4 * (depth - 1) + 1) as usize, (4 * (depth - 1) + 3) as usize],
{
    let level_base: usize = PAIRED_UPDATE_SLOTS_PER_LEVEL * (depth - 1);
    let r = [level_base + 1, level_base + 3];
    assert(r@ =~= seq![(4 * (depth - 1) + 1) as usize, (4 * (depth - 1) + 3) as usize]);
    r
}

/// One update.
#[derive(Clone, Copy, Debug, PartialEq, Eq)]
pub struct PairedMerkleUpdateWitness {
    pub old_entry: [F128; 2],
    pub new_entry: [F128; 2],
    pub siblings: [[F128; 2]; 16],
    /// The carried digest is the right child.
    pub directions: [bool; 16],
}

/// An update, as sequences.
pub struct Update {
    pub old_entry: Seq<F128>,
    pub new_entry: Seq<F128>,
    pub siblings: Seq<Seq<F128>>,
    pub directions: Seq<bool>,
}

impl View for PairedMerkleUpdateWitness {
    type V = Update;

    open spec fn view(&self) -> Update {
        Update {
            old_entry: self.old_entry@,
            new_entry: self.new_entry@,
            siblings: Seq::new(16, |i: int| self.siblings@[i]@),
            directions: self.directions@,
        }
    }
}

pub open spec fn zero_digest() -> Seq<F128> {
    seq![F128::zero(), F128::zero()]
}

/// The update that pads a domain.
pub open spec fn ghost_update() -> Update {
    Update {
        old_entry: zero_digest(),
        new_entry: zero_digest(),
        siblings: Seq::new(16, |i: int| zero_digest()),
        directions: Seq::new(16, |i: int| false),
    }
}

impl PairedMerkleUpdateWitness {
    /// The update that pads a domain. Its roots are those of its zero entries.
    pub fn canonical_ghost() -> (r: Self)
        ensures
            r@ == ghost_update(),
    {
        let zero = [F128::zero(), F128::zero()];
        let r = PairedMerkleUpdateWitness {
            old_entry: zero,
            new_entry: zero,
            siblings: [zero;16],
            directions: [false;16],
        };
        assert(zero@ =~= zero_digest());
        assert(r@.siblings =~= ghost_update().siblings);
        assert(r@.directions =~= ghost_update().directions);
        r
    }
}

// ---------------------------------------------------------------------------
// Paths
// ---------------------------------------------------------------------------

/// The digest after one level.
pub open spec fn parent(
    p: Permutation,
    iv: Seq<F128>,
    current: Seq<F128>,
    sibling: Seq<F128>,
    right: bool,
) -> Seq<F128> {
    if right {
        compressed(p, iv, sibling, current)
    } else {
        compressed(p, iv, current, sibling)
    }
}

/// The digest that a path gives after `depth` levels.
pub open spec fn path_root(
    p: Permutation,
    iv: Seq<F128>,
    entry: Seq<F128>,
    siblings: Seq<Seq<F128>>,
    directions: Seq<bool>,
    depth: nat,
) -> Seq<F128>
    decreases depth,
{
    if depth == 0 {
        entry
    } else {
        parent(
            p,
            iv,
            path_root(p, iv, entry, siblings, directions, (depth - 1) as nat),
            siblings[depth - 1],
            directions[depth - 1],
        )
    }
}

/// The digest that a chain of an update carries into a level.
pub open spec fn carried(p: Permutation, iv: Seq<F128>, u: Update, new: bool, level: nat) -> Seq<
    F128,
> {
    path_root(
        p,
        iv,
        if new {
            u.new_entry
        } else {
            u.old_entry
        },
        u.siblings,
        u.directions,
        level,
    )
}

/// The permutation input of the first half of a level.
pub open spec fn even_raw(iv: Seq<F128>, current: Seq<F128>, sibling: Seq<F128>, right: bool) -> Seq<
    F128,
> {
    let left = if right {
        sibling
    } else {
        current
    };
    seq![left[0], left[1], iv[0], iv[1]]
}

/// The permutation input of the second half of a level.
pub open spec fn odd_raw(
    state: Seq<F128>,
    current: Seq<F128>,
    sibling: Seq<F128>,
    right: bool,
) -> Seq<F128> {
    let child = if right {
        current
    } else {
        sibling
    };
    seq![state[0].plus(child[0]), state[1].plus(child[1]), state[2], state[3]]
}

/// The permutation input of a slot of an update.
pub open spec fn slot_raw(p: Permutation, iv: Seq<F128>, u: Update, local: int) -> Seq<F128> {
    let level = local / 4;
    let current = carried(p, iv, u, local % 4 >= 2, level as nat);
    let even = even_raw(iv, current, u.siblings[level], u.directions[level]);
    if local % 2 == 0 {
        even
    } else {
        odd_raw(permuted(p, even), current, u.siblings[level], u.directions[level])
    }
}

/// The bridge lanes of a slot of an update.
pub open spec fn slot_bridge(p: Permutation, iv: Seq<F128>, u: Update, local: int) -> Seq<F128> {
    let level = local / 4;
    if local % 4 == 0 {
        if level == 0 {
            u.old_entry
        } else {
            zero_digest()
        }
    } else if local % 4 == 1 {
        if level == 0 {
            zero_digest()
        } else {
            carried(p, iv, u, true, level as nat)
        }
    } else if local % 4 == 2 {
        if level == 0 {
            u.new_entry
        } else {
            zero_digest()
        }
    } else {
        carried(p, iv, u, false, (level + 1) as nat)
    }
}

/// What the columns hold at a slot.
pub struct SlotCells {
    pub c: Seq<F128>,
    pub e: Seq<F128>,
    pub sib: Seq<F128>,
    pub d: F128,
    pub s0: Seq<F128>,
    pub s_out: Seq<F128>,
}

/// What the columns hold at a slot of an update.
pub open spec fn slot_cells(p: Permutation, iv: Seq<F128>, u: Update, local: int) -> SlotCells {
    let raw = slot_raw(p, iv, u, local);
    SlotCells {
        c: permuted(p, raw),
        e: slot_bridge(p, iv, u, local),
        sib: u.siblings[local / 4],
        d: F128::of_bool(u.directions[local / 4]),
        s0: mds(p.full, raw),
        s_out: permuted(p, raw),
    }
}

/// The updates of a domain: the given ones, then padding.
pub open spec fn update_at(updates: Seq<PairedMerkleUpdateWitness>, i: int) -> Update {
    if i < updates.len() {
        updates[i]@
    } else {
        ghost_update()
    }
}

/// The committed columns of updates, the walk endpoints and the roots.
pub struct PairedMerkleUpdateColumns {
    pub c: [Vec<F128>; 4],
    pub e: [Vec<F128>; 2],
    pub sib: [Vec<F128>; 2],
    pub d: Vec<F128>,
    pub s0: [Vec<F128>; 4],
    pub s_out: [Vec<F128>; 4],
    pub roots_before: Vec<[F128; 2]>,
    pub roots_after: Vec<[F128; 2]>,
    pub live_updates: usize,
}

impl PairedMerkleUpdateColumns {
    /// What the columns hold at a slot.
    pub open spec fn cells(&self, i: int) -> SlotCells {
        SlotCells {
            c: seq![self.c@[0]@[i], self.c@[1]@[i], self.c@[2]@[i], self.c@[3]@[i]],
            e: seq![self.e@[0]@[i], self.e@[1]@[i]],
            sib: seq![self.sib@[0]@[i], self.sib@[1]@[i]],
            d: self.d@[i],
            s0: seq![self.s0@[0]@[i], self.s0@[1]@[i], self.s0@[2]@[i], self.s0@[3]@[i]],
            s_out: seq![
                self.s_out@[0]@[i],
                self.s_out@[1]@[i],
                self.s_out@[2]@[i],
                self.s_out@[3]@[i],
            ],
        }
    }

    /// Every column has `w` slots.
    pub open spec fn wide(&self, w: nat) -> bool {
        &&& forall|k: int| 0 <= k < 4 ==> (#[trigger] self.c@[k])@.len() == w
        &&& forall|k: int| 0 <= k < 2 ==> (#[trigger] self.e@[k])@.len() == w
        &&& forall|k: int| 0 <= k < 2 ==> (#[trigger] self.sib@[k])@.len() == w
        &&& self.d@.len() == w
        &&& forall|k: int| 0 <= k < 4 ==> (#[trigger] self.s0@[k])@.len() == w
        &&& forall|k: int| 0 <= k < 4 ==> (#[trigger] self.s_out@[k])@.len() == w
    }

    /// The columns are those of updates over a domain of `w` slots.
    pub open spec fn of_updates(
        &self,
        p: Permutation,
        iv: Seq<F128>,
        updates: Seq<PairedMerkleUpdateWitness>,
        w: nat,
    ) -> bool {
        &&& self.wide(w)
        &&& forall|i: int|
            0 <= i < w ==> #[trigger] self.cells(i) == slot_cells(
                p,
                iv,
                update_at(updates, i / 64),
                i % 64,
            )
        &&& self.roots_before@.len() == w / 64
        &&& self.roots_after@.len() == w / 64
        &&& forall|u: int|
            0 <= u < w / 64 ==> (#[trigger] self.roots_before@[u])@ == carried(
                p,
                iv,
                update_at(updates, u),
                false,
                16,
            )
        &&& forall|u: int|
            0 <= u < w / 64 ==> (#[trigger] self.roots_after@[u])@ == carried(
                p,
                iv,
                update_at(updates, u),
                true,
                16,
            )
        &&& self.live_updates == updates.len()
    }

    /// The committed columns, in order.
    pub fn committed_columns(&self) -> (r: Vec<&Vec<F128>>)
        ensures
            r@ == seq![
                &self.c@[0],
                &self.c@[1],
                &self.c@[2],
                &self.c@[3],
                &self.e@[0],
                &self.e@[1],
                &self.sib@[0],
                &self.sib@[1],
                &self.d,
            ],
    {
        let r: Vec<&Vec<F128>> = vec![
            &self.c[0],
            &self.c[1],
            &self.c[2],
            &self.c[3],
            &self.e[0],
            &self.e[1],
            &self.sib[0],
            &self.sib[1],
            &self.d,
        ];
        assert(r@ =~= seq![
            &self.c@[0],
            &self.c@[1],
            &self.c@[2],
            &self.c@[3],
            &self.e@[0],
            &self.e@[1],
            &self.sib@[0],
            &self.sib@[1],
            &self.d,
        ]);
        r
    }

    /// The old and the new root of an update after `depth` levels, as the
    /// columns hold them.
    pub fn update_roots_at_depth(&self, update: usize, depth: usize) -> (r: (
        [F128; 2],
        [F128; 2],
    ))
        requires
            self.wide(self.c@[0]@.len()),
            update < self.c@[0]@.len() / 64,
            1 <= depth <= PAIRED_UPDATE_DEPTH,
        ensures
            r.0@ == self.cells(64 * update + 4 * (depth - 1) + 1).c.take(2),
            r.1@ == self.cells(64 * update + 4 * (depth - 1) + 3).c.take(2),
    {
        let offsets = paired_update_root_offsets(depth);
        let w: usize = self.c[0].len();
        assert(update * 64 + 64 <= w) by (nonlinear_arith)
            requires
                update < w / 64,
        ;
        let base: usize = update * PAIRED_UPDATE_STRIDE;
        let (i, j): (usize, usize) = (base + offsets[0], base + offsets[1]);
        assert(self.c@[0]@.len() == w && self.c@[1]@.len() == w);
        let before = [self.c[0][i], self.c[1][i]];
        let after = [self.c[0][j], self.c[1][j]];
        assert(before@ =~= self.cells(i as int).c.take(2));
        assert(after@ =~= self.cells(j as int).c.take(2));
        (before, after)
    }
}

/// The root cells of an update after `depth` levels hold the roots of its
/// paths of that depth: one path for the old and the new entry.
pub proof fn lemma_roots_at_depth(p: Permutation, iv: Seq<F128>, u: Update, depth: nat)
    requires
        1 <= depth <= 16,
    ensures
        slot_cells(p, iv, u, 4 * (depth - 1) + 1).c.take(2) == path_root(
            p,
            iv,
            u.old_entry,
            u.siblings,
            u.directions,
            depth,
        ),
        slot_cells(p, iv, u, 4 * (depth - 1) + 3).c.take(2) == path_root(
            p,
            iv,
            u.new_entry,
            u.siblings,
            u.directions,
            depth,
        ),
{
    lemma_level(p, iv, u, (depth - 1) as nat, false);
    lemma_level(p, iv, u, (depth - 1) as nat, true);
}

/// The odd slot of a level holds the digest of the next level.
proof fn lemma_level(p: Permutation, iv: Seq<F128>, u: Update, level: nat, new: bool)
    requires
        level < 16,
    ensures
        permuted(
            p,
            slot_raw(
                p,
                iv,
                u,
                4 * level + if new {
                    3int
                } else {
                    1
                },
            ),
        ).take(2) == carried(p, iv, u, new, level + 1),
{
    let local = 4 * level + if new {
        3int
    } else {
        1
    };
    assert(local / 4 == level);
    let current = carried(p, iv, u, new, level);
    let (sib, right) = (u.siblings[level as int], u.directions[level as int]);
    let even = permuted(p, even_raw(iv, current, sib, right));
    let odd = permuted(p, odd_raw(even, current, sib, right));
    assert(slot_raw(p, iv, u, local) == odd_raw(even, current, sib, right));
    crate::poseidon::lemma_permuted_len(p, odd_raw(even, current, sib, right));
    assert(odd.take(2) =~= seq![odd[0], odd[1]]);
    assert(carried(p, iv, u, new, level + 1) == parent(p, iv, current, sib, right));
}

// ---------------------------------------------------------------------------
// Building the columns
// ---------------------------------------------------------------------------

/// Columns under construction.
struct Cells {
    c0: Vec<F128>,
    c1: Vec<F128>,
    c2: Vec<F128>,
    c3: Vec<F128>,
    e0: Vec<F128>,
    e1: Vec<F128>,
    sib0: Vec<F128>,
    sib1: Vec<F128>,
    d: Vec<F128>,
    s00: Vec<F128>,
    s01: Vec<F128>,
    s02: Vec<F128>,
    s03: Vec<F128>,
    o0: Vec<F128>,
    o1: Vec<F128>,
    o2: Vec<F128>,
    o3: Vec<F128>,
}

impl Cells {
    spec fn wide(&self, w: nat) -> bool {
        &&& self.c0@.len() == w
        &&& self.c1@.len() == w
        &&& self.c2@.len() == w
        &&& self.c3@.len() == w
        &&& self.e0@.len() == w
        &&& self.e1@.len() == w
        &&& self.sib0@.len() == w
        &&& self.sib1@.len() == w
        &&& self.d@.len() == w
        &&& self.s00@.len() == w
        &&& self.s01@.len() == w
        &&& self.s02@.len() == w
        &&& self.s03@.len() == w
        &&& self.o0@.len() == w
        &&& self.o1@.len() == w
        &&& self.o2@.len() == w
        &&& self.o3@.len() == w
    }

    spec fn cells(&self, i: int) -> SlotCells {
        SlotCells {
            c: seq![self.c0@[i], self.c1@[i], self.c2@[i], self.c3@[i]],
            e: seq![self.e0@[i], self.e1@[i]],
            sib: seq![self.sib0@[i], self.sib1@[i]],
            d: self.d@[i],
            s0: seq![self.s00@[i], self.s01@[i], self.s02@[i], self.s03@[i]],
            s_out: seq![self.o0@[i], self.o1@[i], self.o2@[i], self.o3@[i]],
        }
    }

    /// Appends a slot.
    fn push(
        &mut self,
        out: &[F128; 4],
        e: &[F128; 2],
        sib: &[F128; 2],
        d: F128,
        s0: &[F128; 4],
        Ghost(w): Ghost<nat>,
    )
        requires
            old(self).wide(w),
        ensures
            final(self).wide(w + 1),
            forall|i: int| 0 <= i < w ==> #[trigger] final(self).cells(i) == old(self).cells(i),
            final(self).cells(w as int) == (SlotCells {
                c: out@,
                e: e@,
                sib: sib@,
                d,
                s0: s0@,
                s_out: out@,
            }),
    {
        self.c0.push(out[0]);
        self.c1.push(out[1]);
        self.c2.push(out[2]);
        self.c3.push(out[3]);
        self.e0.push(e[0]);
        self.e1.push(e[1]);
        self.sib0.push(sib[0]);
        self.sib1.push(sib[1]);
        self.d.push(d);
        self.s00.push(s0[0]);
        self.s01.push(s0[1]);
        self.s02.push(s0[2]);
        self.s03.push(s0[3]);
        self.o0.push(out[0]);
        self.o1.push(out[1]);
        self.o2.push(out[2]);
        self.o3.push(out[3]);
        proof {
            let n = self.cells(w as int);
            assert(n.c =~= out@);
            assert(n.e =~= e@);
            assert(n.sib =~= sib@);
            assert(n.s0 =~= s0@);
            assert(n.s_out =~= out@);
        }
    }
}

/// The permutation input of the first half of a level.
fn even_input(iv: &[F128; 2], current: &[F128; 2], sibling: &[F128; 2], right: bool) -> (r: [F128;
    4])
    ensures
        r@ == even_raw(iv@, current@, sibling@, right),
{
    let r = if right {
        [sibling[0], sibling[1], iv[0], iv[1]]
    } else {
        [current[0], current[1], iv[0], iv[1]]
    };
    assert(r@ =~= even_raw(iv@, current@, sibling@, right));
    r
}

/// The permutation input of the second half of a level.
fn odd_input(
    state: &[F128; 4],
    current: &[F128; 2],
    sibling: &[F128; 2],
    right: bool,
) -> (r: [F128; 4])
    ensures
        r@ == odd_raw(state@, current@, sibling@, right),
{
    let r = if right {
        [state[0].add(current[0]), state[1].add(current[1]), state[2], state[3]]
    } else {
        [state[0].add(sibling[0]), state[1].add(sibling[1]), state[2], state[3]]
    };
    assert(r@ =~= odd_raw(state@, current@, sibling@, right));
    r
}

/// The slots of one update appended to the columns; its two roots.
fn push_update(
    tables: &PoseidonTables,
    iv: &[F128; 2],
    witness: &PairedMerkleUpdateWitness,
    cells: &mut Cells,
    Ghost(w): Ghost<nat>,
) -> (r: ([F128; 2], [F128; 2]))
    requires
        old(cells).wide(w),
    ensures
        final(cells).wide(w + 64),
        forall|i: int| 0 <= i < w ==> #[trigger] final(cells).cells(i) == old(cells).cells(i),
        forall|i: int|
            w <= i < w + 64 ==> #[trigger] final(cells).cells(i) == slot_cells(
                tables@,
                iv@,
                witness@,
                i - w,
            ),
        r.0@ == carried(tables@, iv@, witness@, false, 16),
        r.1@ == carried(tables@, iv@, witness@, true, 16),
{
    let ghost p = tables@;
    let ghost u = witness@;
    let zero = [F128::zero(), F128::zero()];
    assert(zero@ =~= zero_digest());
    let mut old_digest: [F128; 2] = witness.old_entry;
    let mut new_digest: [F128; 2] = witness.new_entry;
    let mut level: usize = 0;
    while level < PAIRED_UPDATE_DEPTH
        invariant
            level <= 16,
            p == tables@,
            u == witness@,
            zero@ == zero_digest(),
            old_digest@ == carried(p, iv@, u, false, level as nat),
            new_digest@ == carried(p, iv@, u, true, level as nat),
            cells.wide((w + 4 * level) as nat),
            forall|i: int| 0 <= i < w ==> #[trigger] cells.cells(i) == old(cells).cells(i),
            forall|i: int|
                w <= i < w + 4 * level ==> #[trigger] cells.cells(i) == slot_cells(
                    p,
                    iv@,
                    u,
                    i - w,
                ),
        decreases 16 - level,
    {
        let ghost n = (w + 4 * level) as nat;
        let ghost base = 4 * level as int;
        let sibling = witness.siblings[level];
        let right = witness.directions[level];
        let d = F128::from_bool(right);
        proof {
            assert(u.siblings[level as int] == sibling@);
            assert(base / 4 == level && (base + 1) / 4 == level && (base + 2) / 4 == level && (base
                + 3) / 4 == level);
            assert(base % 4 == 0 && (base + 1) % 4 == 1 && (base + 2) % 4 == 2 && (base + 3) % 4
                == 3);
            assert(base % 2 == 0 && (base + 1) % 2 == 1 && (base + 2) % 2 == 0 && (base + 3) % 2
                == 1);
        }
        let old_even_raw = even_input(iv, &old_digest, &sibling, right);
        let old_even = tables.permute(&old_even_raw);
        let old_odd_raw = odd_input(&old_even, &old_digest, &sibling, right);
        let old_odd = tables.permute(&old_odd_raw);
        let new_even_raw = even_input(iv, &new_digest, &sibling, right);
        let new_even = tables.permute(&new_even_raw);
        let new_odd_raw = odd_input(&new_even, &new_digest, &sibling, right);
        let new_odd = tables.permute(&new_odd_raw);
        let (e0, e1, e2): ([F128; 2], [F128; 2], [F128; 2]) = if level == 0 {
            (witness.old_entry, zero, witness.new_entry)
        } else {
            (zero, new_digest, zero)
        };
        let old_next = [old_odd[0], old_odd[1]];
        let new_next = [new_odd[0], new_odd[1]];
        proof {
            lemma_level(p, iv@, u, level as nat, false);
            lemma_level(p, iv@, u, level as nat, true);
            assert(slot_raw(p, iv@, u, base) == old_even_raw@);
            assert(slot_raw(p, iv@, u, base + 1) == old_odd_raw@);
            assert(slot_raw(p, iv@, u, base + 2) == new_even_raw@);
            assert(slot_raw(p, iv@, u, base + 3) == new_odd_raw@);
            assert(old_next@ =~= old_odd@.take(2));
            assert(new_next@ =~= new_odd@.take(2));
            assert(slot_bridge(p, iv@, u, base) == e0@);
            assert(slot_bridge(p, iv@, u, base + 1) == e1@);
            assert(slot_bridge(p, iv@, u, base + 2) == e2@);
            assert(slot_bridge(p, iv@, u, base + 3) == old_next@);
        }
        cells.push(
            &old_even,
            &e0,
            &sibling,
            d,
            &tables.initial_mds(&old_even_raw),
            Ghost(n),
        );
        let ghost s1 = *cells;
        cells.push(
            &old_odd,
            &e1,
            &sibling,
            d,
            &tables.initial_mds(&old_odd_raw),
            Ghost((n + 1) as nat),
        );
        let ghost s2 = *cells;
        cells.push(
            &new_even,
            &e2,
            &sibling,
            d,
            &tables.initial_mds(&new_even_raw),
            Ghost((n + 2) as nat),
        );
        let ghost s3 = *cells;
        cells.push(
            &new_odd,
            &old_next,
            &sibling,
            d,
            &tables.initial_mds(&new_odd_raw),
            Ghost((n + 3) as nat),
        );
        proof {
            assert(s1.cells(n as int) == slot_cells(p, iv@, u, base));
            assert(s2.cells(n as int + 1) == slot_cells(p, iv@, u, base + 1));
            assert(s3.cells(n as int + 2) == slot_cells(p, iv@, u, base + 2));
            assert(cells.cells(n as int + 3) == slot_cells(p, iv@, u, base + 3));
            assert(s2.cells(n as int) == s1.cells(n as int));
            assert(s3.cells(n as int) == s2.cells(n as int));
            assert(s3.cells(n as int + 1) == s2.cells(n as int + 1));
            assert forall|i: int| w <= i < n + 4 implies #[trigger] cells.cells(i) == slot_cells(
                p,
                iv@,
                u,
                i - w,
            ) by {
                if i < n {
                    assert(s3.cells(i) == s2.cells(i));
                    assert(s2.cells(i) == s1.cells(i));
                }
            }
            assert forall|i: int| 0 <= i < w implies #[trigger] cells.cells(i) == old(cells).cells(
                i,
            ) by {
                assert(s3.cells(i) == s2.cells(i));
                assert(s2.cells(i) == s1.cells(i));
            }
        }
        old_digest = old_next;
        new_digest = new_next;
        level += 1;
    }
    (old_digest, new_digest)
}

/// The columns of updates over a domain of `2^w_log` slots. Missing updates are
/// padding, so the shape of the columns depends on the domain alone.
pub fn build_paired_merkle_update_columns(
    tables: &PoseidonTables,
    updates: &Vec<PairedMerkleUpdateWitness>,
    iv_flat: [F128; 2],
    w_log: usize,
) -> (r: PairedMerkleUpdateColumns)
    requires
        w_log >= 6,
        pow2(w_log as nat) <= usize::MAX,
        updates@.len() * 64 <= pow2(w_log as nat),
    ensures
        r.of_updates(tables@, iv_flat@, updates@, pow2(w_log as nat)),
{
    let w: usize = match power_of_two(w_log) {
        Ok(v) => v,
        Err(_) => 0,
    };
    let capacity: usize = w / PAIRED_UPDATE_STRIDE;
    proof {
        lemma_pow2_adds(6, (w_log - 6) as nat);
        vstd::arithmetic::power2::lemma2_to64();
        let q = pow2((w_log - 6) as nat) as int;
        assert(w == 64 * q);
        assert(capacity * 64 == w);
        assert(updates@.len() <= capacity);
    }
    let mut cells = Cells {
        c0: Vec::new(),
        c1: Vec::new(),
        c2: Vec::new(),
        c3: Vec::new(),
        e0: Vec::new(),
        e1: Vec::new(),
        sib0: Vec::new(),
        sib1: Vec::new(),
        d: Vec::new(),
        s00: Vec::new(),
        s01: Vec::new(),
        s02: Vec::new(),
        s03: Vec::new(),
        o0: Vec::new(),
        o1: Vec::new(),
        o2: Vec::new(),
        o3: Vec::new(),
    };
    let mut roots_before: Vec<[F128; 2]> = Vec::new();
    let mut roots_after: Vec<[F128; 2]> = Vec::new();
    let mut update: usize = 0;
    while update < capacity
        invariant
            update <= capacity,
            updates@.len() <= capacity,
            cells.wide((64 * update) as nat),
            roots_before@.len() == update,
            roots_after@.len() == update,
            forall|i: int|
                0 <= i < 64 * update ==> #[trigger] cells.cells(i) == slot_cells(
                    tables@,
                    iv_flat@,
                    update_at(updates@, i / 64),
                    i % 64,
                ),
            forall|u: int|
                0 <= u < update ==> (#[trigger] roots_before@[u])@ == carried(
                    tables@,
                    iv_flat@,
                    update_at(updates@, u),
                    false,
                    16,
                ),
            forall|u: int|
                0 <= u < update ==> (#[trigger] roots_after@[u])@ == carried(
                    tables@,
                    iv_flat@,
                    update_at(updates@, u),
                    true,
                    16,
                ),
        decreases capacity - update,
    {
        let witness = if update < updates.len() {
            updates[update]
        } else {
            PairedMerkleUpdateWitness::canonical_ghost()
        };
        let ghost n = (64 * update) as nat;
        let ghost before = cells;
        assert(witness@ == update_at(updates@, update as int));
        let (old_root, new_root) = push_update(tables, &iv_flat, &witness, &mut cells, Ghost(n));
        roots_before.push(old_root);
        roots_after.push(new_root);
        proof {
            assert forall|i: int| 0 <= i < n + 64 implies #[trigger] cells.cells(i) == slot_cells(
                tables@,
                iv_flat@,
                update_at(updates@, i / 64),
                i % 64,
            ) by {
                if i < n {
                    assert(before.cells(i) == cells.cells(i));
                } else {
                    assert(i / 64 == update && i % 64 == i - n);
                }
            }
        }
        update += 1;
    }
    let ghost done = cells;
    let r = PairedMerkleUpdateColumns {
        c: [cells.c0, cells.c1, cells.c2, cells.c3],
        e: [cells.e0, cells.e1],
        sib: [cells.sib0, cells.sib1],
        d: cells.d,
        s0: [cells.s00, cells.s01, cells.s02, cells.s03],
        s_out: [cells.o0, cells.o1, cells.o2, cells.o3],
        roots_before,
        roots_after,
        live_updates: updates.len(),
    };
    assert forall|i: int| 0 <= i < w implies #[trigger] r.cells(i) == slot_cells(
        tables@,
        iv_flat@,
        update_at(updates@, i / 64),
        i % 64,
    ) by {
        assert(r.cells(i) == done.cells(i));
    }
    r
}

} // verus!
