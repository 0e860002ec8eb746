//! The program trace: the instruction histories of all search nodes, kept as
//! a tree in one arena. A node holds one instruction and the number of the
//! node before it, so that extending a history costs one slot whatever its
//! length, and many histories share their beginnings. Every node counts who
//! refers to it: the handle that was handed out for it, and its children. A
//! node to which nothing refers any more is released, and its slot is used
//! again.

use vstd::prelude::*;
use crate::machine::Command;

verus! {

/// One slot of the arena.
pub struct Slot {
    /// The instruction that was added here.
    pub cmd: Command,
    /// The node of the history before it; `None` at a root.
    pub parent: Option<usize>,
    /// How many refer to the node: its handle, if it is held, and its
    /// children.
    pub refs: usize,
    /// How many nodes stand before it in its history.
    pub depth: Ghost<nat>,
    /// Whether the slot holds a node.
    pub live: bool,
}

/// The arena of all trace nodes.
pub struct Trace {
    slots: Vec<Slot>,
    free: Vec<usize>,
    alive: usize,
    held: Ghost<Set<usize>>,
}

/// How many of the first `k` slots hold a node.
pub open spec fn live_count(slots: Seq<Slot>, k: int) -> nat
    decreases k,
{
    if k <= 0 {
        0
    } else {
        live_count(slots, k - 1) + if slots[k - 1].live {
            1nat
        } else {
            0nat
        }
    }
}

/// A slot that changes changes the number of nodes by what it held before
/// and what it holds after.
pub proof fn lemma_live_update(slots: Seq<Slot>, j: int, slot: Slot, k: int)
    requires
        0 <= j < slots.len(),
        0 <= k <= slots.len(),
    ensures
        live_count(slots.update(j, slot), k) + (if j < k && slots[j].live {
            1nat
        } else {
            0nat
        }) == live_count(slots, k) + (if j < k && slot.live {
            1nat
        } else {
            0nat
        }),
        live_count(slots, k) <= k,
    decreases k,
{
    if k > 0 {
        lemma_live_update(slots, j, slot, k - 1);
    }
}

/// A slot that is added adds to the number of nodes what it holds.
pub proof fn lemma_live_push(slots: Seq<Slot>, slot: Slot, k: int)
    requires
        0 <= k <= slots.len(),
    ensures
        live_count(slots.push(slot), k) == live_count(slots, k),
        k == slots.len() ==> live_count(slots.push(slot), k + 1) == live_count(slots, k) + if slot.live {
            1nat
        } else {
            0nat
        },
    decreases k,
{
    if k > 0 {
        lemma_live_push(slots, slot, k - 1);
    }
    if k == slots.len() {
        assert(slots.push(slot)[k] == slot);
    }
}

/// The slot holds a node whose parent is `p`.
pub open spec fn child_of(slot: Slot, p: usize) -> bool {
    slot.live && slot.parent == Some(p)
}

/// How many of the first `k` slots hold a child of `p`.
pub open spec fn kids(slots: Seq<Slot>, p: usize, k: int) -> nat
    decreases k,
{
    if k <= 0 {
        0
    } else {
        kids(slots, p, k - 1) + if child_of(slots[k - 1], p) {
            1nat
        } else {
            0nat
        }
    }
}

/// The program that a node stands for: the instructions on the way from its
/// root to it. `None` stands for the empty program.
pub open spec fn program_at(slots: Seq<Slot>, node: Option<usize>) -> Seq<Command>
    decreases
        (match node {
            Some(i) => if i < slots.len() {
                slots[i as int].depth@ + 1
            } else {
                0
            },
            None => 0,
        }),
{
    match node {
        None => Seq::empty(),
        Some(i) => {
            if i < slots.len() {
                match slots[i as int].parent {
                    Some(p) => {
                        if p < slots.len() && slots[p as int].depth@ < slots[i as int].depth@ {
                            program_at(slots, Some(p)).push(slots[i as int].cmd)
                        } else {
                            seq![slots[i as int].cmd]
                        }
                    },
                    None => seq![slots[i as int].cmd],
                }
            } else {
                Seq::empty()
            }
        },
    }
}

/// The links of the arena are in order: the parent of a node is a node, and
/// stands one step before it in its history.
pub open spec fn links_ok(slots: Seq<Slot>) -> bool {
    forall|i: int|
        0 <= i < slots.len() && (#[trigger] slots[i]).live ==> match slots[i].parent {
            Some(p) => p < slots.len() && slots[p as int].live && slots[p as int].depth@ + 1
                == slots[i].depth@,
            None => slots[i].depth@ == 0,
        }
}

/// The counts of the arena are in order: every node counts its handle, if
/// it is held, and its children; only nodes are held; and to every node
/// something refers.
pub open spec fn counts_ok(slots: Seq<Slot>, held: Set<usize>) -> bool {
    &&& forall|i: int|
        0 <= i < slots.len() && (#[trigger] slots[i]).live ==> slots[i].refs == kids(
            slots,
            i as usize,
            slots.len() as int,
        ) + if held.contains(i as usize) {
            1nat
        } else {
            0nat
        }
    &&& forall|i: usize| #[trigger] held.contains(i) ==> i < slots.len() && slots[i as int].live
    &&& forall|i: int| 0 <= i < slots.len() && (#[trigger] slots[i]).live ==> slots[i].refs >= 1
}

/// The free slots are slots that hold no node, each listed once.
pub open spec fn free_ok(slots: Seq<Slot>, free: Seq<usize>) -> bool {
    &&& forall|j: int| 0 <= j < free.len() ==> (#[trigger] free[j]) < slots.len() && !slots[free[j] as int].live
    &&& forall|j: int, k: int| 0 <= j < k < free.len() ==> #[trigger] free[j] != #[trigger] free[k]
}

/// A slot that changes changes the number of children of `p` by what it
/// counted before and what it counts after.
pub proof fn lemma_kids_update(slots: Seq<Slot>, j: int, slot: Slot, p: usize, k: int)
    requires
        0 <= j < slots.len(),
        0 <= k <= slots.len(),
    ensures
        kids(slots.update(j, slot), p, k) + (if j < k && child_of(slots[j], p) {
            1nat
        } else {
            0nat
        }) == kids(slots, p, k) + (if j < k && child_of(slot, p) {
            1nat
        } else {
            0nat
        }),
    decreases k,
{
    if k > 0 {
        lemma_kids_update(slots, j, slot, p, k - 1);
    }
}

/// A slot that is added leaves the number of children among the slots
/// before it as it is.
pub proof fn lemma_kids_prefix(slots: Seq<Slot>, slot: Slot, p: usize, k: int)
    requires
        0 <= k <= slots.len(),
    ensures
        kids(slots.push(slot), p, k) == kids(slots, p, k),
    decreases k,
{
    if k > 0 {
        lemma_kids_prefix(slots, slot, p, k - 1);
    }
}

/// A slot that is added adds to the number of children of `p` what it
/// counts.
pub proof fn lemma_kids_push(slots: Seq<Slot>, slot: Slot, p: usize)
    ensures
        kids(slots.push(slot), p, slots.len() as int + 1) == kids(slots, p, slots.len() as int) + (if child_of(
            slot,
            p,
        ) {
            1nat
        } else {
            0nat
        }),
{
    lemma_kids_prefix(slots, slot, p, slots.len() as int);
    assert(slots.push(slot)[slots.len() as int] == slot);
}

/// A node has fewer children than there are slots: it is not its own child.
pub proof fn lemma_kids_bound(slots: Seq<Slot>, p: usize, k: int)
    requires
        links_ok(slots),
        0 <= k <= slots.len(),
        p < slots.len(),
    ensures
        kids(slots, p, k) <= k,
        p < k ==> kids(slots, p, k) < k,
    decreases k,
{
    if k > 0 {
        lemma_kids_bound(slots, p, k - 1);
        if k - 1 == p && child_of(slots[p as int], p) {
            let own = slots[p as int];
            assert(own.live);
            assert(slots[p as int].depth@ + 1 == own.depth@);
        }
    }
}

/// A node without children is the parent of no node.
pub proof fn lemma_no_kids(slots: Seq<Slot>, p: usize, k: int, i: int)
    requires
        0 <= i < k <= slots.len(),
        kids(slots, p, k) == 0,
    ensures
        !child_of(slots[i], p),
    decreases k,
{
    if i < k - 1 {
        lemma_no_kids(slots, p, k - 1, i);
    }
}

/// The program of a node depends on the nodes of its history only: slots
/// that hold no node of it may change.
pub proof fn lemma_program_frame(a: Seq<Slot>, b: Seq<Slot>, node: Option<usize>)
    requires
        links_ok(a),
        a.len() <= b.len(),
        match node {
            Some(i) => i < a.len() && a[i as int].live,
            None => true,
        },
        forall|i: int| 0 <= i < a.len() && (#[trigger] a[i]).live ==> {
            &&& b[i].cmd == a[i].cmd
            &&& b[i].parent == a[i].parent
            &&& b[i].depth@ == a[i].depth@
        },
    ensures
        program_at(b, node) == program_at(a, node),
    decreases
        (match node {
            Some(i) => a[i as int].depth@ + 1,
            None => 0,
        }),
{
    match node {
        None => {},
        Some(i) => {
            match a[i as int].parent {
                Some(p) => {
                    assert(a[p as int].live);
                    lemma_program_frame(a, b, Some(p));
                },
                None => {},
            }
        },
    }
}

/// A node that is the parent of no node has no children.
pub proof fn lemma_kids_zero(slots: Seq<Slot>, p: usize, k: int)
    requires
        0 <= k <= slots.len(),
        forall|i: int| 0 <= i < k ==> !child_of(#[trigger] slots[i], p),
    ensures
        kids(slots, p, k) == 0,
    decreases k,
{
    if k > 0 {
        lemma_kids_zero(slots, p, k - 1);
    }
}

/// The programs of an arena depend on the instructions, parents and depths
/// of its slots only.
pub proof fn lemma_program_same(a: Seq<Slot>, b: Seq<Slot>, node: Option<usize>)
    requires
        a.len() == b.len(),
        forall|i: int| 0 <= i < a.len() ==> {
            &&& (#[trigger] b[i]).cmd == a[i].cmd
            &&& b[i].parent == a[i].parent
            &&& b[i].depth@ == a[i].depth@
        },
    ensures
        program_at(b, node) == program_at(a, node),
    decreases
        (match node {
            Some(i) => if i < a.len() {
                a[i as int].depth@ + 1
            } else {
                0
            },
            None => 0,
        }),
{
    match node {
        None => {},
        Some(i) => {
            if i < a.len() {
                assert(b[i as int].cmd == a[i as int].cmd);
                match a[i as int].parent {
                    Some(p) => {
                        if p < a.len() {
                            assert(b[p as int].depth@ == a[p as int].depth@);
                            if a[p as int].depth@ < a[i as int].depth@ {
                                lemma_program_same(a, b, Some(p));
                            }
                        }
                    },
                    None => {},
                }
            }
        },
    }
}

impl Trace {
    /// The slots of the arena.
    pub closed spec fn view(&self) -> Seq<Slot> {
        self.slots@
    }

    /// The nodes whose handles are held.
    pub closed spec fn handles(&self) -> Set<usize> {
        self.held@
    }

    /// The arena is in order.
    pub closed spec fn wf(&self) -> bool {
        &&& links_ok(self.slots@)
        &&& counts_ok(self.slots@, self.held@)
        &&& free_ok(self.slots@, self.free@)
        &&& self.alive == live_count(self.slots@, self.slots@.len() as int)
    }

    /// How many nodes the arena holds: those whose handles are held and
    /// those that have children.
    pub closed spec fn population(&self) -> nat {
        live_count(self.slots@, self.slots@.len() as int)
    }

    /// The slot holds a node.
    pub closed spec fn is_node(&self, i: usize) -> bool {
        i < self.slots@.len() && self.slots@[i as int].live
    }

    /// The node `child` stands right behind the node `i` in its history.
    pub closed spec fn is_child(&self, child: usize, i: usize) -> bool {
        self.is_node(child) && self.slots@[child as int].parent == Some(i)
    }

    /// Nothing stays in the arena without need: the handle of every node is
    /// held, or the node has a child.
    pub proof fn lemma_nothing_idle(&self, i: usize)
        requires
            self.wf(),
            self.is_node(i),
        ensures
            self.handles().contains(i) || exists|child: usize| self.is_child(child, i),
    {
        let slots = self.slots@;
        if !self.handles().contains(i) {
            assert(slots[i as int].refs >= 1);
            assert(kids(slots, i, slots.len() as int) >= 1);
            if forall|k: int| 0 <= k < slots.len() ==> !child_of(#[trigger] slots[k], i) {
                lemma_kids_zero(slots, i, slots.len() as int);
            } else {
                let k = choose|k: int| 0 <= k < slots.len() && child_of(#[trigger] slots[k], i);
                assert(slots.len() == self.slots.len());
                let child = k as usize;
                assert(child as int == k);
                assert(self.is_child(child, i));
            }
        }
    }

    /// The handle is held: it names a node of this arena, or it stands for
    /// the empty program.
    pub open spec fn has(&self, node: Option<usize>) -> bool {
        match node {
            Some(i) => self.handles().contains(i),
            None => true,
        }
    }

    /// The program that a handle stands for.
    pub open spec fn program(&self, node: Option<usize>) -> Seq<Command> {
        program_at(self@, node)
    }

    /// Makes an empty arena.
    pub fn new() -> (trace: Trace)
        ensures
            trace.wf(),
            trace.handles() == Set::<usize>::empty(),
            trace.population() == 0,
    {
        Trace { slots: Vec::new(), free: Vec::new(), alive: 0, held: Ghost(Set::empty()) }
    }

    /// The number of nodes that the arena holds.
    pub fn live_nodes(&self) -> (n: usize)
        requires
            self.wf(),
        ensures
            n == self.population(),
    {
        self.alive
    }
}

impl Trace {
    /// Adds one instruction to a history and hands out the handle of the
    /// node that stands for the longer one. The history itself is shared,
    /// not copied, and the programs of all other handles stay as they are.
    pub fn extend(&mut self, parent: Option<usize>, cmd: Command) -> (node: usize)
        requires
            old(self).wf(),
            old(self).has(parent),
        ensures
            final(self).wf(),
            !old(self).handles().contains(node),
            final(self).handles() == old(self).handles().insert(node),
            final(self).population() == old(self).population() + 1,
            final(self).program(Some(node)) == old(self).program(parent).push(cmd),
            forall|other: Option<usize>|
                old(self).has(other) ==> #[trigger] final(self).program(other) == old(
                    self,
                ).program(other),
    {
        let ghost before = self.slots@;
        let ghost held = self.held@;
        let ghost free0 = self.free@;
        let ghost depth: nat = match parent {
            Some(p) => before[p as int].depth@ + 1,
            None => 0,
        };
        let slot = Slot { cmd, parent, refs: 1, depth: Ghost(depth), live: true };
        let node: usize = match self.free.pop() {
            Some(j) => {
                assert(j == free0[free0.len() - 1]);
                self.slots.set(j, slot);
                j
            },
            None => {
                self.slots.push(slot);
                self.slots.len() - 1
            },
        };
        let ghost mid = self.slots@;
        proof {
            assert(placed(before, mid, node, slot));
            lemma_placed_links(before, mid, node, slot);
            if mid.len() == before.len() {
                assert(mid =~= before.update(node as int, slot));
                lemma_live_update(before, node as int, slot, before.len() as int);
            } else {
                assert(mid =~= before.push(slot));
                lemma_live_push(before, slot, before.len() as int);
            }
            lemma_live_update(mid, node as int, slot, mid.len() as int);
            assert(mid.len() == self.slots.len());
        }
        self.alive = self.alive + 1;
        match parent {
            Some(p) => {
                proof {
                    lemma_placed_room(before, mid, held, node, slot, p);
                    assert(mid.len() == self.slots.len());
                }
                let up = &self.slots[p];
                let bumped = Slot {
                    cmd: up.cmd,
                    parent: up.parent,
                    refs: up.refs + 1,
                    depth: up.depth,
                    live: true,
                };
                self.slots.set(p, bumped);
            },
            None => {},
        }
        self.held = Ghost(held.insert(node));
        proof {
            let after = self.slots@;
            assert(after.len() == self.slots.len());
            lemma_placed_counts(before, mid, after, held, node, slot);
            lemma_live_same(mid, after, after.len() as int);
            assert(free_ok(after, self.free@)) by {
                assert forall|j: int| 0 <= j < self.free@.len() implies (#[trigger] self.free@[j])
                    < after.len() && !after[self.free@[j] as int].live by {
                    assert(self.free@[j] == free0[j]);
                    if free0.len() > 0 {
                        assert(free0[j] != free0[free0.len() - 1]);
                    }
                    assert(!before[free0[j] as int].live);
                }
                assert forall|j: int, k: int| 0 <= j < k < self.free@.len() implies #[trigger] self.free@[j]
                    != #[trigger] self.free@[k] by {
                    assert(self.free@[j] == free0[j]);
                    assert(self.free@[k] == free0[k]);
                }
            }
            assert forall|other: Option<usize>| old(self).has(other) implies #[trigger] self.program(
                other,
            ) == old(self).program(other) by {
                lemma_program_frame(before, after, other);
            }
            match parent {
                Some(p) => {
                    lemma_program_frame(before, after, Some(p));
                    assert(after[p as int].depth@ < after[node as int].depth@);
                },
                None => {},
            }
        }
        node
    }

    /// Gives a handle back. The node goes when nothing refers to it any
    /// more, and with it every node of its history to which nothing else
    /// refers. The programs of all handles that are still held stay as they
    /// are.
    pub fn release(&mut self, node: usize)
        requires
            old(self).wf(),
            old(self).handles().contains(node),
        ensures
            final(self).wf(),
            final(self).handles() == old(self).handles().remove(node),
            final(self).population() <= old(self).population(),
            forall|other: Option<usize>| #[trigger]
                final(self).program(other) == old(self).program(other),
    {
        let ghost before = self.slots@;
        let ghost held = self.held@.remove(node);
        self.held = Ghost(held);
        let mut cur: usize = node;
        loop
            invariant_except_break
                cur < self.slots.len(),
                self.slots@[cur as int].live,
                self.slots@[cur as int].refs == kids(self.slots@, cur, self.slots.len() as int) + 1
                    + if held.contains(cur) {
                    1nat
                } else {
                    0nat
                },
                forall|i: int|
                    0 <= i < self.slots.len() && i != cur && (#[trigger] self.slots@[i]).live
                        ==> self.slots@[i].refs == kids(
                        self.slots@,
                        i as usize,
                        self.slots.len() as int,
                    ) + if held.contains(i as usize) {
                        1nat
                    } else {
                        0nat
                    },
            invariant
                self.held@ == held,
                held == old(self).held@.remove(node),
                forall|i: int|
                    0 <= i < self.slots.len() && i != cur && (#[trigger] self.slots@[i]).live
                        ==> self.slots@[i].refs >= 1,
                self.alive == live_count(self.slots@, self.slots@.len() as int),
                self.alive <= old(self).alive,
                links_ok(self.slots@),
                free_ok(self.slots@, self.free@),
                self.slots.len() == before.len(),
                forall|i: usize| #[trigger] held.contains(i) ==> i < self.slots.len() && self.slots@[i as int].live,
                forall|i: int|
                    0 <= i < before.len() ==> {
                        &&& (#[trigger] self.slots@[i]).cmd == before[i].cmd
                        &&& self.slots@[i].parent == before[i].parent
                        &&& self.slots@[i].depth@ == before[i].depth@
                    },
            ensures
                counts_ok(self.slots@, held),
            decreases self.slots@[cur as int].depth@,
        {
            let ghost now = self.slots@;
            let at = &self.slots[cur];
            let cmd = at.cmd;
            let parent = at.parent;
            let refs: usize = at.refs - 1;
            let depth = at.depth;
            if refs > 0 {
                self.slots.set(cur, Slot { cmd, parent, refs, depth, live: true });
                proof {
                    let after = self.slots@;
                    lemma_live_same(now, after, after.len() as int);
                    assert forall|i: int| 0 <= i < after.len() && (#[trigger] after[i]).live implies after[i].refs
                        == kids(after, i as usize, after.len() as int) + if held.contains(
                        i as usize,
                    ) {
                        1nat
                    } else {
                        0nat
                    } by {
                        lemma_kids_refs(now, after, i as usize, after.len() as int);
                    }
                    assert(links_ok(after)) by {
                        assert forall|i: int| 0 <= i < after.len() && (#[trigger] after[i]).live implies match after[i].parent {
                            Some(q) => q < after.len() && after[q as int].live
                                && after[q as int].depth@ + 1 == after[i].depth@,
                            None => after[i].depth@ == 0,
                        } by {
                            assert(now[i].live);
                        }
                    }
                    assert(free_ok(after, self.free@)) by {
                        assert forall|j: int| 0 <= j < self.free@.len() implies (#[trigger] self.free@[j])
                            < after.len() && !after[self.free@[j] as int].live by {
                            assert(!now[self.free@[j] as int].live);
                        }
                    }
                }
                break ;
            }
            self.slots.set(cur, Slot { cmd, parent, refs: 0, depth, live: false });
            self.free.push(cur);
            proof {
                lemma_live_update(now, cur as int, self.slots@[cur as int], now.len() as int);
                assert(self.slots@ =~= now.update(cur as int, self.slots@[cur as int]));
            }
            self.alive = self.alive - 1;
            proof {
                let after = self.slots@;
                assert(kids(now, cur, now.len() as int) == 0);
                assert(!held.contains(cur));
                assert(links_ok(after)) by {
                    assert forall|i: int| 0 <= i < after.len() && (#[trigger] after[i]).live implies match after[i].parent {
                        Some(q) => q < after.len() && after[q as int].live && after[q as int].depth@
                            + 1 == after[i].depth@,
                        None => after[i].depth@ == 0,
                    } by {
                        assert(now[i].live);
                        lemma_no_kids(now, cur, now.len() as int, i);
                    }
                }
                assert(free_ok(after, self.free@)) by {
                    let free0 = self.free@.drop_last();
                    assert forall|j: int| 0 <= j < self.free@.len() implies (#[trigger] self.free@[j])
                        < after.len() && !after[self.free@[j] as int].live by {
                        if j < free0.len() {
                            assert(self.free@[j] == free0[j]);
                            assert(!now[free0[j] as int].live);
                        }
                    }
                    assert forall|j: int, k: int| 0 <= j < k < self.free@.len() implies #[trigger] self.free@[j]
                        != #[trigger] self.free@[k] by {
                        assert(self.free@[j] == free0[j]);
                        assert(!now[free0[j] as int].live);
                        if k < free0.len() {
                            assert(self.free@[k] == free0[k]);
                        }
                    }
                }
                assert forall|i: int|
                    0 <= i < after.len() && (#[trigger] after[i]).live implies after[i].refs
                    == kids(after, i as usize, after.len() as int) + (if held.contains(i as usize) {
                    1nat
                } else {
                    0nat
                }) + (if parent == Some(i as usize) {
                    1nat
                } else {
                    0nat
                }) by {
                    lemma_kids_update(now, cur as int, after[cur as int], i as usize, now.len() as int);
                    assert(after =~= now.update(cur as int, after[cur as int]));
                }
            }
            match parent {
                Some(p) => {
                    cur = p;
                },
                None => {
                    break ;
                },
            }
        }
        proof {
            assert forall|other: Option<usize>| #[trigger]
                self.program(other) == old(self).program(other) by {
                lemma_program_same(before, self.slots@, other);
            }
        }
    }
}

/// The slot `node`, which held no node or is new, now holds `slot`; every
/// other slot is as it was.
pub open spec fn placed(before: Seq<Slot>, mid: Seq<Slot>, node: usize, slot: Slot) -> bool {
    &&& node < mid.len()
    &&& mid.len() == before.len() || (mid.len() == before.len() + 1 && node == before.len())
    &&& node < before.len() ==> !before[node as int].live
    &&& forall|i: int| 0 <= i < before.len() && i != node ==> #[trigger] mid[i] == before[i]
    &&& mid[node as int] == slot
    &&& slot.live
    &&& slot.refs == 1
    &&& match slot.parent {
        Some(p) => p < before.len() && before[p as int].live && slot.depth@ == before[p as int].depth@
            + 1,
        None => slot.depth@ == 0,
    }
}

/// A node that is placed below a node keeps the links in order.
pub proof fn lemma_placed_links(before: Seq<Slot>, mid: Seq<Slot>, node: usize, slot: Slot)
    requires
        links_ok(before),
        placed(before, mid, node, slot),
    ensures
        links_ok(mid),
{
    assert forall|i: int| 0 <= i < mid.len() && (#[trigger] mid[i]).live implies match mid[i].parent {
        Some(p) => p < mid.len() && mid[p as int].live && mid[p as int].depth@ + 1 == mid[i].depth@,
        None => mid[i].depth@ == 0,
    } by {
        if i != node {
            assert(mid[i] == before[i]);
            assert(before[i].live);
            match before[i].parent {
                Some(p) => {
                    assert(before[p as int].live);
                    assert(p != node);
                    assert(mid[p as int] == before[p as int]);
                },
                None => {},
            }
        } else {
            match slot.parent {
                Some(p) => {
                    assert(p != node);
                    assert(mid[p as int] == before[p as int]);
                },
                None => {},
            }
        }
    }
}

/// The parent of a node that is placed has room to count it.
pub proof fn lemma_placed_room(
    before: Seq<Slot>,
    mid: Seq<Slot>,
    held: Set<usize>,
    node: usize,
    slot: Slot,
    p: usize,
)
    requires
        links_ok(before),
        counts_ok(before, held),
        placed(before, mid, node, slot),
        slot.parent == Some(p),
        held.contains(p),
    ensures
        p != node,
        mid[p as int] == before[p as int],
        mid[p as int].live,
        mid[p as int].refs + 1 <= mid.len(),
{
    lemma_placed_links(before, mid, node, slot);
    lemma_kids_bound(mid, p, mid.len() as int);
    lemma_kids_change(before, mid, node, p);
    assert(child_of(mid[node as int], p));
    assert(before[p as int].live);
    assert(before[p as int].refs == kids(before, p, before.len() as int) + 1);
}

/// Once its parent has counted it, a node that is placed and held leaves the
/// arena in order.
pub proof fn lemma_placed_counts(
    before: Seq<Slot>,
    mid: Seq<Slot>,
    after: Seq<Slot>,
    held: Set<usize>,
    node: usize,
    slot: Slot,
)
    requires
        links_ok(before),
        counts_ok(before, held),
        placed(before, mid, node, slot),
        after.len() == mid.len(),
        after.len() <= usize::MAX,
        match slot.parent {
            Some(p) => after == mid.update(
                p as int,
                Slot {
                    cmd: mid[p as int].cmd,
                    parent: mid[p as int].parent,
                    refs: (mid[p as int].refs + 1) as usize,
                    depth: mid[p as int].depth,
                    live: true,
                },
            ) && mid[p as int].refs + 1 <= usize::MAX,
            None => after == mid,
        },
    ensures
        links_ok(after),
        counts_ok(after, held.insert(node)),
        !held.contains(node),
        forall|i: int| 0 <= i < before.len() && (#[trigger] before[i]).live ==> {
            &&& after[i].cmd == before[i].cmd
            &&& after[i].parent == before[i].parent
            &&& after[i].depth@ == before[i].depth@
        },
        after[node as int].cmd == slot.cmd,
        after[node as int].parent == slot.parent,
        after[node as int].depth@ == slot.depth@,
{
    lemma_placed_links(before, mid, node, slot);
    let held2 = held.insert(node);
    assert forall|i: int| 0 <= i < mid.len() implies (#[trigger] after[i]).live == mid[i].live
        && after[i].parent == mid[i].parent && after[i].depth@ == mid[i].depth@ && after[i].cmd
        == mid[i].cmd by {}
    assert(links_ok(after)) by {
        assert forall|i: int| 0 <= i < after.len() && (#[trigger] after[i]).live implies match after[i].parent {
            Some(q) => q < after.len() && after[q as int].live && after[q as int].depth@ + 1
                == after[i].depth@,
            None => after[i].depth@ == 0,
        } by {
            assert(mid[i].live);
        }
    }
    assert(kids(before, node, before.len() as int) == 0) by {
        assert forall|k: int| 0 <= k < before.len() implies !child_of(#[trigger] before[k], node) by {
            if before[k].live && before[k].parent == Some(node) {
                assert(before[node as int].live);
            }
        }
        lemma_kids_zero(before, node, before.len() as int);
    }
    assert forall|i: int| 0 <= i < after.len() && (#[trigger] after[i]).live implies after[i].refs
        == kids(after, i as usize, after.len() as int) + if held2.contains(i as usize) {
        1nat
    } else {
        0nat
    } by {
        let u = i as usize;
        lemma_kids_change(before, mid, node, u);
        lemma_kids_refs(mid, after, u, after.len() as int);
        assert(child_of(mid[node as int], u) == (slot.parent == Some(u)));
        if slot.parent == Some(u) {
            assert(before[i].live);
        } else if i == node {
            assert(after[i] == mid[i]);
        } else {
            assert(mid[i] == before[i]);
            assert(after[i] == mid[i]);
            assert(before[i].live);
        }
    }
    assert forall|i: usize| #[trigger] held2.contains(i) implies i < after.len() && after[i as int].live by {
        if i != node {
            assert(held.contains(i));
            assert(mid[i as int] == before[i as int]);
        }
    }
}

/// The number of nodes does not depend on the counts of the slots.
pub proof fn lemma_live_same(a: Seq<Slot>, b: Seq<Slot>, k: int)
    requires
        a.len() == b.len(),
        0 <= k <= a.len(),
        forall|i: int| 0 <= i < a.len() ==> (#[trigger] b[i]).live == a[i].live,
    ensures
        live_count(b, k) == live_count(a, k),
    decreases k,
{
    if k > 0 {
        lemma_live_same(a, b, k - 1);
        assert(b[k - 1].live == a[k - 1].live);
    }
}

/// The number of children does not depend on the counts of the slots.
pub proof fn lemma_kids_refs(a: Seq<Slot>, b: Seq<Slot>, p: usize, k: int)
    requires
        a.len() == b.len(),
        0 <= k <= a.len(),
        forall|i: int| 0 <= i < a.len() ==> (#[trigger] b[i]).live == a[i].live && b[i].parent
            == a[i].parent,
    ensures
        kids(b, p, k) == kids(a, p, k),
    decreases k,
{
    if k > 0 {
        lemma_kids_refs(a, b, p, k - 1);
        assert(b[k - 1].live == a[k - 1].live);
    }
}

/// A node that takes a slot which held none adds one to the children of its
/// parent and none to those of any other node.
pub proof fn lemma_kids_change(before: Seq<Slot>, after: Seq<Slot>, node: usize, p: usize)
    requires
        node < after.len(),
        after.len() == before.len() || (after.len() == before.len() + 1 && node == before.len()),
        node < before.len() ==> !before[node as int].live,
        forall|i: int| 0 <= i < before.len() && i != node ==> after[i] == before[i],
    ensures
        kids(after, p, after.len() as int) == kids(before, p, before.len() as int) + if child_of(
            after[node as int],
            p,
        ) {
            1nat
        } else {
            0nat
        },
{
    if after.len() == before.len() {
        assert(after =~= before.update(node as int, after[node as int]));
        lemma_kids_update(before, node as int, after[node as int], p, before.len() as int);
    } else {
        assert(after =~= before.push(after[node as int]));
        lemma_kids_push(before, after[node as int], p);
    }
}

/// Reads the program of a handle off the trace: follows the parent links to
/// the root and hands the instructions out in the order in which they run.
pub fn extract_program(trace: &Trace, node: Option<usize>) -> (cmds: Vec<Command>)
    requires
        trace.wf(),
        trace.has(node),
    ensures
        cmds@ == trace.program(node),
{
    let mut backwards: Vec<Command> = Vec::new();
    let mut cur: Option<usize> = node;
    let ghost whole = trace.program(node);
    loop
        invariant_except_break
            trace.wf(),
            match cur {
                Some(i) => i < trace.slots.len() && trace.slots@[i as int].live,
                None => true,
            },
            whole == trace.program(node),
            whole == trace.program(cur) + backwards@.reverse(),
        ensures
            whole == backwards@.reverse(),
        decreases
            (match cur {
                Some(i) => trace.slots@[i as int].depth@ + 1,
                None => 0,
            }),
    {
        match cur {
            None => {
                assert(trace.program(None) + backwards@.reverse() =~= backwards@.reverse());
                break ;
            },
            Some(i) => {
                let entry = &trace.slots[i];
                let ghost before = backwards@;
                backwards.push(entry.cmd);
                proof {
                    assert(backwards@.reverse() =~= seq![entry.cmd] + before.reverse());
                    match entry.parent {
                        Some(p) => {
                            assert(trace.program(cur) == trace.program(Some(p)).push(entry.cmd));
                            assert(trace.program(Some(p)).push(entry.cmd) + before.reverse()
                                =~= trace.program(Some(p)) + backwards@.reverse());
                        },
                        None => {
                            assert(trace.program(cur) == seq![entry.cmd]);
                            assert(seq![entry.cmd] + before.reverse() =~= trace.program(None)
                                + backwards@.reverse());
                        },
                    }
                }
                cur = entry.parent;
            },
        }
    }
    let mut cmds: Vec<Command> = Vec::new();
    let mut k: usize = backwards.len();
    while k > 0
        invariant
            k <= backwards.len(),
            cmds.len() == backwards.len() - k,
            forall|j: int| 0 <= j < cmds.len() ==> cmds@[j] == backwards@[backwards.len() - 1 - j],
        decreases k,
    {
        k -= 1;
        cmds.push(backwards[k]);
    }
    assert(cmds@ =~= backwards@.reverse());
    cmds
}

} // verus!
