//! The experimental mid-level representation: the optimized statement
//! tree annotated, statement by statement, with what is statically known
//! of the tape just after it runs, and with liveness tags on writes so
//! that provably dead stores can be found.

use vstd::prelude::*;

use crate::hir::Hir;
use crate::span::Span;

pub mod opts;
pub mod state;

use crate::mir::state::{MemoryState, MemoryStateChange, Store, Stores};
use crate::mir::opts::{dse_spec, fills, lowers, node_cost, store_cost};

verus! {

/// The annotated program: statements, plus the arenas their state chains
/// and liveness tags live in.
#[derive(Debug, PartialEq, Eq)]
pub struct Mir {
    pub stmts: Vec<MirStmt>,
}

#[derive(Debug, PartialEq, Eq)]
pub struct MirStmt {
    pub kind: MirKind,
    /// The state chain node describing the tape just after this
    /// statement; filled in by the state pass.
    pub state: usize,
    pub span: Span,
}

#[derive(Debug, PartialEq, Eq)]
pub enum MirKind {
    /// Add or subtract: the value ranges over -255..=255.
    AddSub(i32, i16, usize),
    /// Zero the current cell, adding its prior value at `offset`.
    MoveAddTo { offset: i32, store_set_null: usize, store_move: usize },
    /// A left or right pointer move.
    PointerMove(i32),
    Loop(Mir),
    Out,
    In(usize),
    SetN(u8, usize),
}

/// Lower an optimized program into the annotated representation and run
/// the analysis passes over it. Returns the annotated program with the
/// arenas its state chains and liveness tags live in: the statements are
/// the lowering of the program with fresh tags, annotated by the state
/// pass over an arena whose root is the all-unknown state, and the tags
/// hold exactly what the dead-store walk of the annotated program left.
pub fn optimized_mir(hir: &Hir) -> (r: (Mir, MemoryState, Stores))
    ensures
        crate::mir::state::arena_wf(r.1),
        crate::mir::opts::stores_in_bounds(r.0.stmts@, r.2.items@.len() as int),
        r.1.nodes@.len() >= 1,
        r.1.nodes@[0].prev is None,
        r.1.nodes@[0].deltas@ == Seq::<MemoryStateChange>::empty(),
        r.2.items@.len() == store_cost(hir.stmts@),
        exists|raw: Seq<MirStmt>, fresh: Seq<Store>|
            #![trigger lowers(hir.stmts@, raw, 0), dse_spec(fresh, r.0.stmts@, r.1.nodes@)]
            {
                &&& lowers(hir.stmts@, raw, 0)
                &&& fresh.len() == store_cost(hir.stmts@)
                &&& forall|k: int|
                    0 <= k < fresh.len() ==> (#[trigger] fresh[k]).kind
                        is Unknown
                &&& fills(raw, r.0.stmts@, r.1.nodes@, 0, 1)
                &&& r.1.nodes@.len() == 1 + node_cost(raw)
                &&& r.2.items@ == dse_spec(fresh, r.0.stmts@, r.1.nodes@)
            },
{
    let mut states = MemoryState::new_arena();
    let mut stores = Stores::new();
    let root = states.empty();
    let mir = crate::mir::opts::hir_to_mir(hir, &mut stores);
    let ghost raw = mir.stmts@;
    let ghost fresh = stores.items@;
    let ghost pre_nodes = states.nodes@;
    let analyzed = crate::mir::opts::passes(mir, &mut states, &mut stores);
    proof {
        crate::mir::opts::lemma_node_cost_nonneg(raw);
        assert(pre_nodes.len() == 1);
        assert(states.nodes@.take(1int) == pre_nodes);
        assert(states.nodes@[0] == pre_nodes[0]) by {
            assert(states.nodes@.subrange(0int, 1int) == states.nodes@.take(1int));
            assert(states.nodes@.subrange(0int, 1int)[0int] == states.nodes@[0int]);
        }
        assert(states.nodes@[0].prev is None);
        assert(states.nodes@[0].deltas@ == Seq::<MemoryStateChange>::empty());
        assert({
            &&& lowers(hir.stmts@, raw, 0)
            &&& fresh.len() == store_cost(hir.stmts@)
            &&& forall|k: int| 0 <= k < fresh.len() ==> (#[trigger] fresh[k]).kind is Unknown
            &&& fills(raw, analyzed.stmts@, states.nodes@, 0, 1)
            &&& states.nodes@.len() == 1 + node_cost(raw)
            &&& stores.items@ == dse_spec(fresh, analyzed.stmts@, states.nodes@)
        });
    }
    (analyzed, states, stores)
}

} // verus!
