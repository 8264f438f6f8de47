//! The abstract memory state of the mid-level analysis: persistent,
//! backward-linked chains of per-statement delta records, held in one
//! growable arena (an index stands in for a heap pointer, so many states
//! share a tail), and liveness tags for writes. Liveness updates are
//! strictly sequential by construction: every update goes through one
//! mutable arena, so no shared handle can race an earlier query.

use vstd::prelude::*;

verus! {

/// The known state of a cell: nothing, guaranteed zero after a loop, or
/// written by the store named by an arena index, with or without a known
/// value.
#[derive(Debug, Clone, Copy, PartialEq, Eq, Structural)]
pub enum CellState {
    /// Nothing is known; anything might be in the cell.
    Unknown,
    /// The cell is zero: a loop just exited on it.
    LoopNull,
    /// The store wrote an unknown value here.
    WrittenToUnknown(usize),
    /// The store wrote this known value here.
    WrittenToKnown(usize, u8),
}

/// One delta in the knowledge of memory, contributed by one statement.
#[derive(Debug, Clone, Copy, PartialEq, Eq, Structural)]
pub enum MemoryStateChange {
    /// A cell changed to a new state.
    Change { offset: i32, new_state: CellState },
    /// The pointer moved, rebasing every earlier offset.
    Move(i32),
    /// Forget everything: an opaque loop may have written anywhere.
    Forget,
    /// A value was read; marks the covering store as used.
    Load { offset: i32 },
}

/// One chain node: a possibly-absent predecessor (an earlier node in the
/// same arena) and this statement's deltas.
#[derive(Debug, PartialEq, Eq)]
pub struct StateNode {
    pub prev: Option<usize>,
    pub deltas: Vec<MemoryStateChange>,
}

/// What scanning one node's deltas yields: an answer, or the offset to
/// carry into the predecessor.
pub ghost enum ScanResult {
    Found(CellState),
    Carry(int),
}

/// Subtraction clamped to the 128-bit range the walker computes in; the
/// clamp is unreachable for any chain that fits in memory.
pub open spec fn sat_sub128(x: int, d: int) -> int {
    if x - d > i128::MAX {
        i128::MAX as int
    } else if x - d < i128::MIN {
        i128::MIN as int
    } else {
        x - d
    }
}

/// Scan deltas left to right for knowledge about `offset`: a matching
/// write answers, a pointer move rebases, a forget answers with nothing
/// known, and loads are transparent.
pub open spec fn scan_deltas(deltas: Seq<MemoryStateChange>, j: int, offset: int) -> ScanResult
    decreases deltas.len() - j,
{
    if j < 0 || j >= deltas.len() {
        ScanResult::Carry(offset)
    } else {
        match deltas[j] {
            MemoryStateChange::Change { offset: wo, new_state } => if wo == offset {
                ScanResult::Found(new_state)
            } else {
                scan_deltas(deltas, j + 1, offset)
            },
            MemoryStateChange::Move(d) => scan_deltas(deltas, j + 1, sat_sub128(offset, d as int)),
            MemoryStateChange::Forget => ScanResult::Found(CellState::Unknown),
            MemoryStateChange::Load { .. } => scan_deltas(deltas, j + 1, offset),
        }
    }
}

/// Walk a chain backward from node `at`, rebasing the queried offset at
/// each pointer move, until a matching write, a forget, or the chain end.
pub open spec fn lookup(nodes: Seq<StateNode>, at: int, offset: int) -> CellState
    decreases at,
{
    if !(0 <= at < nodes.len()) {
        CellState::Unknown
    } else {
        match scan_deltas(nodes[at].deltas@, 0, offset) {
            ScanResult::Found(c) => c,
            ScanResult::Carry(off2) => match nodes[at].prev {
                Some(p) => if p < at {
                    lookup(nodes, p as int, off2)
                } else {
                    CellState::Unknown
                },
                None => CellState::Unknown,
            },
        }
    }
}

/// A lookup reads only the chain behind its node, so growing the arena
/// never changes what an existing node's lookups answer.
pub proof fn lemma_lookup_stable(nodes1: Seq<StateNode>, nodes2: Seq<StateNode>, at: int, off: int)
    requires
        nodes1.len() <= nodes2.len(),
        nodes1 == nodes2.subrange(0, nodes1.len() as int),
        at < nodes1.len(),
    ensures
        lookup(nodes2, at, off) == lookup(nodes1, at, off),
    decreases at,
{
    if 0 <= at {
        assert(nodes2[at] == nodes2.subrange(0, nodes1.len() as int)[at]);
        assert(nodes2[at] == nodes1[at]);
        match scan_deltas(nodes1[at].deltas@, 0, off) {
            ScanResult::Found(c) => {},
            ScanResult::Carry(off2) => {
                match nodes1[at].prev {
                    Some(p) => {
                        if p < at {
                            lemma_lookup_stable(nodes1, nodes2, p as int, off2);
                        }
                    },
                    None => {},
                }
            },
        }
    }
}

/// The arena of chain nodes. Every predecessor points strictly earlier
/// into the arena, so chains are acyclic by construction.
#[derive(Debug, PartialEq, Eq)]
pub struct MemoryState {
    pub nodes: Vec<StateNode>,
}

/// Every node's predecessor lies strictly before it.
pub open spec fn arena_wf(a: MemoryState) -> bool {
    forall|i: int|
        0 <= i < a.nodes@.len() ==> match (#[trigger] a.nodes@[i]).prev {
            Some(p) => p < i,
            None => true,
        }
}

impl MemoryState {
    /// A fresh arena with no states.
    pub fn new_arena() -> (r: MemoryState)
        ensures
            arena_wf(r),
            r.nodes@.len() == 0,
    {
        MemoryState { nodes: Vec::new() }
    }

    /// The state with no predecessor and no knowledge: the fresh node has
    /// no earlier chain to walk and no deltas of its own, so every lookup
    /// on it answers that nothing is known.
    pub fn empty(&mut self) -> (r: usize)
        requires
            arena_wf(*old(self)),
        ensures
            arena_wf(*final(self)),
            final(self).nodes@.len() == old(self).nodes@.len() + 1,
            r == old(self).nodes@.len(),
            final(self).nodes@[r as int].prev is None,
            final(self).nodes@[r as int].deltas@ == Seq::<MemoryStateChange>::empty(),
            forall|off: int| lookup(final(self).nodes@, r as int, off) == CellState::Unknown,
            final(self).nodes@.take(old(self).nodes@.len() as int) == old(self).nodes@,
    {
        let r = self.node(None, Vec::new());
        proof {
            assert forall|off: int| lookup(self.nodes@, r as int, off) == CellState::Unknown by {
                assert(self.nodes@[r as int].deltas@.len() == 0);
                assert(scan_deltas(self.nodes@[r as int].deltas@, 0, off) == ScanResult::Carry(
                    off,
                ));
            }
        }
        r
    }

    /// A state extending `prev` with one delta.
    pub fn single(&mut self, prev: usize, delta: MemoryStateChange) -> (r: usize)
        requires
            arena_wf(*old(self)),
            prev < old(self).nodes@.len(),
        ensures
            arena_wf(*final(self)),
            final(self).nodes@.len() == old(self).nodes@.len() + 1,
            r == old(self).nodes@.len(),
            final(self).nodes@[r as int].prev == Some(prev),
            final(self).nodes@[r as int].deltas@ == seq![delta],
            final(self).nodes@.take(old(self).nodes@.len() as int) == old(self).nodes@,
    {
        let mut deltas = Vec::new();
        deltas.push(delta);
        proof {
            assert(deltas@ =~= seq![delta]);
        }
        self.node(Some(prev), deltas)
    }

    /// A state extending `prev` with two deltas, in order.
    pub fn double(
        &mut self,
        prev: usize,
        delta1: MemoryStateChange,
        delta2: MemoryStateChange,
    ) -> (r: usize)
        requires
            arena_wf(*old(self)),
            prev < old(self).nodes@.len(),
        ensures
            arena_wf(*final(self)),
            final(self).nodes@.len() == old(self).nodes@.len() + 1,
            r == old(self).nodes@.len(),
            final(self).nodes@[r as int].prev == Some(prev),
            final(self).nodes@[r as int].deltas@ == seq![delta1, delta2],
            final(self).nodes@.take(old(self).nodes@.len() as int) == old(self).nodes@,
    {
        let mut deltas = Vec::new();
        deltas.push(delta1);
        deltas.push(delta2);
        proof {
            assert(deltas@ =~= seq![delta1, delta2]);
        }
        self.node(Some(prev), deltas)
    }

    /// A state with the given predecessor and deltas.
    pub fn node(&mut self, prev: Option<usize>, deltas: Vec<MemoryStateChange>) -> (r: usize)
        requires
            arena_wf(*old(self)),
            prev matches Some(p) ==> p < old(self).nodes@.len(),
        ensures
            arena_wf(*final(self)),
            final(self).nodes@.len() == old(self).nodes@.len() + 1,
            r == old(self).nodes@.len(),
            final(self).nodes@ == old(self).nodes@.push(StateNode { prev, deltas }),
            final(self).nodes@.take(old(self).nodes@.len() as int) == old(self).nodes@,
    {
        let r = self.nodes.len();
        let ghost before = self.nodes@;
        self.nodes.push(StateNode { prev, deltas });
        proof {
            assert(self.nodes@.take(before.len() as int) =~= before);
            assert forall|i: int| 0 <= i < self.nodes@.len() implies match (
            #[trigger] self.nodes@[i]).prev {
                Some(p) => p < i,
                None => true,
            } by {
                if i < before.len() {
                    assert(self.nodes@[i] == before[i]);
                }
            }
        }
        r
    }

    /// What is known about the cell `offset` away from the pointer, just
    /// after the statement whose state is `at`: exactly the backward walk
    /// through the shared chain.
    pub fn state_for_offset(&self, at: usize, offset: i32) -> (r: CellState)
        requires
            arena_wf(*self),
            at < self.nodes@.len(),
        ensures
            r == lookup(self.nodes@, at as int, offset as int),
    {
        let mut cur: usize = at;
        let mut off: i128 = offset as i128;
        loop
            invariant
                arena_wf(*self),
                at < self.nodes@.len(),
                cur < self.nodes@.len(),
                lookup(self.nodes@, at as int, offset as int) == lookup(
                    self.nodes@,
                    cur as int,
                    off as int,
                ),
            decreases cur,
        {
            let node = &self.nodes[cur];
            let n = node.deltas.len();
            let mut j: usize = 0;
            let mut o: i128 = off;
            loop
                invariant
                    arena_wf(*self),
                    at < self.nodes@.len(),
                    cur < self.nodes@.len(),
                    node == &self.nodes[cur as int],
                    n == node.deltas@.len(),
                    j <= n,
                    lookup(self.nodes@, at as int, offset as int) == lookup(
                        self.nodes@,
                        cur as int,
                        off as int,
                    ),
                    scan_deltas(node.deltas@, 0, off as int) == scan_deltas(
                        node.deltas@,
                        j as int,
                        o as int,
                    ),
                ensures
                    scan_deltas(node.deltas@, 0, off as int) == ScanResult::Carry(o as int),
                decreases n - j,
            {
                if j >= n {
                    proof {
                        assert(scan_deltas(node.deltas@, j as int, o as int)
                            == ScanResult::Carry(o as int));
                    }
                    break;
                }
                let d = node.deltas[j];
                match d {
                    MemoryStateChange::Change { offset: wo, new_state } => {
                        if wo as i128 == o {
                            proof {
                                assert(scan_deltas(node.deltas@, j as int, o as int)
                                    == ScanResult::Found(new_state));
                                assert(lookup(self.nodes@, cur as int, off as int) == new_state);
                            }
                            return new_state;
                        }
                    },
                    MemoryStateChange::Move(dd) => {
                        o = match o.checked_sub(dd as i128) {
                            Some(v) => v,
                            None => if dd < 0 {
                                i128::MAX
                            } else {
                                i128::MIN
                            },
                        };
                    },
                    MemoryStateChange::Forget => {
                        proof {
                            assert(scan_deltas(node.deltas@, j as int, o as int)
                                == ScanResult::Found(CellState::Unknown));
                            assert(lookup(self.nodes@, cur as int, off as int)
                                == CellState::Unknown);
                        }
                        return CellState::Unknown;
                    },
                    MemoryStateChange::Load { .. } => {},
                }
                j = j + 1;
            }
            match node.prev {
                Some(p) => {
                    if p < cur {
                        proof {
                            assert(lookup(self.nodes@, cur as int, off as int) == lookup(
                                self.nodes@,
                                p as int,
                                o as int,
                            ));
                        }
                        cur = p;
                        off = o;
                    } else {
                        proof {
                            assert(lookup(self.nodes@, cur as int, off as int)
                                == CellState::Unknown);
                        }
                        return CellState::Unknown;
                    }
                },
                None => {
                    proof {
                        assert(lookup(self.nodes@, cur as int, off as int)
                            == CellState::Unknown);
                    }
                    return CellState::Unknown;
                },
            }
        }
    }

    /// Whether the statement's own deltas include a forget.
    pub fn has_forget_delta(&self, at: usize) -> (r: bool)
        requires
            at < self.nodes@.len(),
        ensures
            r == exists|j: int|
                0 <= j < self.nodes@[at as int].deltas@.len() && self.nodes@[at as int].deltas@[j]
                    is Forget,
    {
        let node = &self.nodes[at];
        let n = node.deltas.len();
        let mut j: usize = 0;
        while j < n
            invariant
                j <= n,
                node == &self.nodes[at as int],
                at < self.nodes@.len(),
                n == node.deltas@.len(),
                forall|x: int| 0 <= x < j ==> !(node.deltas@[x] is Forget),
            decreases n - j,
        {
            if let MemoryStateChange::Forget = &node.deltas[j] {
                return true;
            }
            j = j + 1;
        }
        false
    }
}

/// How often a write was later read, as far as the analysis knows.
#[derive(Debug, Clone, Copy, PartialEq, Eq, Structural)]
pub enum StoreKind {
    /// Nothing is known; the tag may have been clobbered.
    Unknown,
    /// Exactly this many reads (at least one).
    UsedExact(u32),
    /// At least this many reads (at least one).
    UsedAtLeast(u32),
    /// Provably never read before being overwritten.
    Dead,
}

/// The liveness tag of one write: an identifier and the current
/// knowledge of its reads. Tags live in one `Stores` arena and every
/// update goes through it, so updates are strictly sequential.
#[derive(Debug, Clone, Copy, PartialEq, Eq, Structural)]
pub struct Store {
    pub id: u64,
    pub kind: StoreKind,
}

impl Store {
    /// A tag born dead, for writes known superfluous from the start,
    /// under a fresh identifier.
    pub fn dead() -> (r: Store)
        ensures
            r.kind == StoreKind::Dead,
    {
        Store { id: random_store_id(), kind: StoreKind::Dead }
    }

    /// The tag's identifier.
    pub fn id(&self) -> (r: u64)
        ensures
            r == self.id,
    {
        self.id
    }

    /// Record one more read of the write: an unknown or dead tag becomes
    /// read once (exactly, if it was dead), counted tags count one more,
    /// saturating at the counter's range.
    pub fn add_load(&mut self)
        ensures
            final(self).id == old(self).id,
            final(self).kind == match old(self).kind {
                StoreKind::Unknown => StoreKind::UsedAtLeast(1),
                StoreKind::UsedExact(n) => StoreKind::UsedExact(
                    if n < u32::MAX {
                        (n + 1) as u32
                    } else {
                        u32::MAX
                    },
                ),
                StoreKind::UsedAtLeast(n) => StoreKind::UsedAtLeast(
                    if n < u32::MAX {
                        (n + 1) as u32
                    } else {
                        u32::MAX
                    },
                ),
                StoreKind::Dead => StoreKind::UsedExact(1),
            },
    {
        let kind = match self.kind {
            StoreKind::Unknown => StoreKind::UsedAtLeast(1),
            StoreKind::UsedExact(n) => StoreKind::UsedExact(
                if n < u32::MAX {
                    n + 1
                } else {
                    u32::MAX
                },
            ),
            StoreKind::UsedAtLeast(n) => StoreKind::UsedAtLeast(
                if n < u32::MAX {
                    n + 1
                } else {
                    u32::MAX
                },
            ),
            StoreKind::Dead => StoreKind::UsedExact(1),
        };
        self.kind = kind;
    }

    /// Whether the write might be dead: no read is known of it.
    pub fn is_maybe_dead(&self) -> (r: bool)
        ensures
            r == (self.kind is Dead || self.kind is Unknown),
    {
        match self.kind {
            StoreKind::Dead => true,
            StoreKind::Unknown => true,
            _ => false,
        }
    }

    /// The write is overwritten while still unread: it is dead.
    pub fn mark_dead(&mut self)
        ensures
            final(self).id == old(self).id,
            final(self).kind == StoreKind::Dead,
    {
        self.kind = StoreKind::Dead;
    }

    /// An opaque downstream event may have read the write: exact counts
    /// become lower bounds, and dead or unknown tags stay unknown.
    pub fn clobber(&mut self)
        ensures
            final(self).id == old(self).id,
            final(self).kind == match old(self).kind {
                StoreKind::Unknown => StoreKind::Unknown,
                StoreKind::UsedExact(n) => StoreKind::UsedAtLeast(n),
                StoreKind::UsedAtLeast(n) => StoreKind::UsedAtLeast(n),
                StoreKind::Dead => StoreKind::Unknown,
            },
    {
        let kind = match self.kind {
            StoreKind::Unknown => StoreKind::Unknown,
            StoreKind::UsedExact(n) => StoreKind::UsedAtLeast(n),
            StoreKind::UsedAtLeast(n) => StoreKind::UsedAtLeast(n),
            StoreKind::Dead => StoreKind::Unknown,
        };
        self.kind = kind;
    }
}

/// The arena of liveness tags. A statement refers to its tags by index.
#[derive(Debug, PartialEq, Eq)]
pub struct Stores {
    pub items: Vec<Store>,
}

/// Relies on `rand::random::<u64>`: a fresh identifier for a liveness
/// tag. Nothing can be promised of a random value.
#[verifier::external_body]
fn random_store_id() -> u64 {
    rand::random::<u64>()
}

impl Stores {
    pub fn new() -> (r: Stores)
        ensures
            r.items@.len() == 0,
    {
        Stores { items: Vec::new() }
    }

    /// Allocate a tag with nothing known of its reads.
    pub fn unknown(&mut self) -> (r: usize)
        ensures
            final(self).items@.len() == old(self).items@.len() + 1,
            r == old(self).items@.len(),
            final(self).items@[r as int].kind == StoreKind::Unknown,
            final(self).items@.take(old(self).items@.len() as int) == old(self).items@,
    {
        let r = self.items.len();
        let ghost before = self.items@;
        self.items.push(Store { id: random_store_id(), kind: StoreKind::Unknown });
        proof {
            assert(self.items@.take(before.len() as int) =~= before);
        }
        r
    }
}

} // verus!
