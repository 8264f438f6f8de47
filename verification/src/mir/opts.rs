//! The analysis passes over the annotated representation: thread the
//! abstract memory state forward through every statement, then walk the
//! program again marking writes that are provably never read.

use vstd::prelude::*;

use crate::mir::state::{
    arena_wf, lemma_lookup_stable, lookup, CellState, MemoryState, MemoryStateChange, StateNode,
    Store, StoreKind, Stores,
};
use crate::mir::{Mir, MirKind, MirStmt};

verus! {

/// Every store index in the statements lies inside the store arena.
pub open spec fn stores_in_bounds(stmts: Seq<MirStmt>, n: int) -> bool
    decreases stmts,
{
    if stmts.len() == 0 {
        true
    } else {
        stores_in_bounds(stmts.drop_last(), n) && match stmts.last().kind {
            MirKind::AddSub(_, _, s) => s < n,
            MirKind::MoveAddTo { store_set_null, store_move, .. } => store_set_null < n
                && store_move < n,
            MirKind::In(s) => s < n,
            MirKind::SetN(_, s) => s < n,
            MirKind::Loop(b) => stores_in_bounds(b.stmts@, n),
            _ => true,
        }
    }
}

/// Once in bounds, a statement sequence stays in bounds as the arena
/// only grows.
pub proof fn lemma_stores_in_bounds_grow(stmts: Seq<MirStmt>, n1: int, n2: int)
    requires
        stores_in_bounds(stmts, n1),
        n1 <= n2,
    ensures
        stores_in_bounds(stmts, n2),
    decreases stmts,
{
    if stmts.len() > 0 {
        lemma_stores_in_bounds_grow(stmts.drop_last(), n1, n2);
        match stmts.last().kind {
            MirKind::Loop(b) => {
                lemma_stores_in_bounds_grow(b.stmts@, n1, n2);
            },
            _ => {},
        }
    }
}

proof fn lemma_stores_in_bounds_push(stmts: Seq<MirStmt>, x: MirStmt, n: int)
    requires
        stores_in_bounds(stmts, n),
        match x.kind {
            MirKind::AddSub(_, _, s) => s < n,
            MirKind::MoveAddTo { store_set_null, store_move, .. } => store_set_null < n
                && store_move < n,
            MirKind::In(s) => s < n,
            MirKind::SetN(_, s) => s < n,
            MirKind::Loop(b) => stores_in_bounds(b.stmts@, n),
            _ => true,
        },
    ensures
        stores_in_bounds(stmts.push(x), n),
{
    assert(stmts.push(x).drop_last() =~= stmts);
}

proof fn lemma_stores_in_bounds_index(stmts: Seq<MirStmt>, n: int, i: int)
    requires
        stores_in_bounds(stmts, n),
        0 <= i < stmts.len(),
    ensures
        match stmts[i].kind {
            MirKind::AddSub(_, _, s) => s < n,
            MirKind::MoveAddTo { store_set_null, store_move, .. } => store_set_null < n
                && store_move < n,
            MirKind::In(s) => s < n,
            MirKind::SetN(_, s) => s < n,
            MirKind::Loop(b) => stores_in_bounds(b.stmts@, n),
            _ => true,
        },
    decreases stmts,
{
    if i < stmts.len() - 1 {
        lemma_stores_in_bounds_index(stmts.drop_last(), n, i);
    }
}


/// How many chain nodes the state pass creates for one statement: an
/// output statement shares its predecessor's node; a loop gets the fresh
/// empty start for its body, the body's own nodes, and its exit node;
/// everything else gets exactly one node.
pub open spec fn node_cost_stmt(m: MirStmt) -> int
    decreases m,
{
    match m.kind {
        MirKind::Out => 0,
        MirKind::Loop(b) => 2 + node_cost(b.stmts@),
        _ => 1,
    }
}

pub open spec fn node_cost(ms: Seq<MirStmt>) -> int
    decreases ms,
{
    if ms.len() == 0 {
        0
    } else {
        node_cost_stmt(ms[0]) + node_cost(ms.drop_first())
    }
}

pub proof fn lemma_node_cost_nonneg(ms: Seq<MirStmt>)
    ensures
        node_cost(ms) >= 0,
    decreases ms,
{
    if ms.len() > 0 {
        lemma_node_cost_stmt_nonneg(ms[0]);
        lemma_node_cost_nonneg(ms.drop_first());
    }
}

pub proof fn lemma_node_cost_stmt_nonneg(m: MirStmt)
    ensures
        node_cost_stmt(m) >= 0,
    decreases m,
{
    match m.kind {
        MirKind::Loop(b) => lemma_node_cost_nonneg(b.stmts@),
        _ => {},
    }
}

proof fn lemma_node_cost_snoc(ms: Seq<MirStmt>, x: MirStmt)
    ensures
        node_cost(ms.push(x)) == node_cost(ms) + node_cost_stmt(x),
    decreases ms,
{
    if ms.len() == 0 {
        assert(ms.push(x)[0] == x);
        assert(ms.push(x).drop_first() =~= Seq::<MirStmt>::empty());
        assert(node_cost(ms.push(x)) == node_cost_stmt(x) + node_cost(
            Seq::<MirStmt>::empty(),
        ));
        assert(node_cost(Seq::<MirStmt>::empty()) == 0);
        assert(node_cost(ms) == 0);
    } else {
        assert(ms.push(x)[0] == ms[0]);
        assert(ms.push(x).drop_first() =~= ms.drop_first().push(x));
        lemma_node_cost_snoc(ms.drop_first(), x);
        assert(node_cost(ms.push(x)) == node_cost_stmt(ms[0]) + node_cost(
            ms.drop_first().push(x),
        ));
        assert(node_cost(ms) == node_cost_stmt(ms[0]) + node_cost(ms.drop_first()));
    }
}

/// The knowledge an add or subtract leaves in its cell: a known
/// prior value folds mod 256 under the new tag; anything else degrades
/// to written-with-unknown-value.
pub open spec fn addsub_knowledge(prior: CellState, v: i16, tag: usize) -> CellState {
    match prior {
        CellState::WrittenToKnown(_, p) => CellState::WrittenToKnown(tag, ((p + v) % 256) as u8),
        _ => CellState::WrittenToUnknown(tag),
    }
}

/// The chain position after a statement: an output statement leaves it
/// where it was; everything else moves it to the statement's own node.
pub open spec fn next_prev(o: MirStmt, prev: int) -> int {
    match o.kind {
        MirKind::Out => prev,
        _ => o.state as int,
    }
}

/// The chain position after a whole annotated sequence.
pub open spec fn chain_end(out: Seq<MirStmt>, prev: int) -> int
    decreases out,
{
    if out.len() == 0 {
        prev
    } else {
        next_prev(out.last(), chain_end(out.drop_last(), prev))
    }
}

proof fn lemma_chain_end_push(out: Seq<MirStmt>, x: MirStmt, prev: int)
    ensures
        chain_end(out.push(x), prev) == next_prev(x, chain_end(out, prev)),
{
    assert(out.push(x).drop_last() =~= out);
}

/// One statement of the state pass, exactly: the output statement keeps
/// the same kind, tags and span, and its state names the chain node
/// (allocated at `base`) that extends `prev` with precisely the delta
/// the analysis assigns the statement. An output statement allocates nothing
/// and shares `prev`. A loop's body is analyzed from a fresh empty node,
/// and the loop's own node records the zero of its controlling cell in
/// front of the forget.
pub open spec fn fills_stmt(
    inp: MirStmt,
    out: MirStmt,
    nodes: Seq<StateNode>,
    prev: int,
    base: int,
) -> bool
    decreases inp,
{
    &&& out.span == inp.span
    &&& match (inp.kind, out.kind) {
        (MirKind::AddSub(o1, v1, s1), MirKind::AddSub(o2, v2, s2)) => {
            &&& o1 == o2 && v1 == v2 && s1 == s2
            &&& out.state == base && 0 <= base < nodes.len()
            &&& 0 <= prev < nodes.len()
            &&& nodes[base].prev == Some(prev as usize)
            &&& nodes[base].deltas@ == seq![
                MemoryStateChange::Change {
                    offset: o1,
                    new_state: addsub_knowledge(lookup(nodes, prev, o1 as int), v1, s1),
                },
            ]
        },
        (
            MirKind::MoveAddTo { offset: o1, store_set_null: a1, store_move: b1 },
            MirKind::MoveAddTo { offset: o2, store_set_null: a2, store_move: b2 },
        ) => {
            &&& o1 == o2 && a1 == a2 && b1 == b2
            &&& out.state == base && 0 <= base < nodes.len()
            &&& nodes[base].prev == Some(prev as usize)
            &&& nodes[base].deltas@ == seq![
                MemoryStateChange::Change {
                    offset: 0,
                    new_state: CellState::WrittenToKnown(a1, 0),
                },
                MemoryStateChange::Change {
                    offset: o1,
                    new_state: CellState::WrittenToUnknown(b1),
                },
            ]
        },
        (MirKind::PointerMove(d1), MirKind::PointerMove(d2)) => {
            &&& d1 == d2
            &&& out.state == base && 0 <= base < nodes.len()
            &&& nodes[base].prev == Some(prev as usize)
            &&& nodes[base].deltas@ == seq![MemoryStateChange::Move(d1)]
        },
        (MirKind::Out, MirKind::Out) => out.state as int == prev,
        (MirKind::In(s1), MirKind::In(s2)) => {
            &&& s1 == s2
            &&& out.state == base && 0 <= base < nodes.len()
            &&& nodes[base].prev == Some(prev as usize)
            &&& nodes[base].deltas@ == seq![
                MemoryStateChange::Change {
                    offset: 0,
                    new_state: CellState::WrittenToUnknown(s1),
                },
            ]
        },
        (MirKind::SetN(v1, s1), MirKind::SetN(v2, s2)) => {
            &&& v1 == v2 && s1 == s2
            &&& out.state == base && 0 <= base < nodes.len()
            &&& nodes[base].prev == Some(prev as usize)
            &&& nodes[base].deltas@ == seq![
                MemoryStateChange::Change {
                    offset: 0,
                    new_state: CellState::WrittenToKnown(s1, v1),
                },
            ]
        },
        (MirKind::Loop(b1), MirKind::Loop(b2)) => {
            &&& 0 <= base
            &&& base + 1 + node_cost(b1.stmts@) < nodes.len()
            &&& nodes[base].prev is None
            &&& nodes[base].deltas@ == Seq::<MemoryStateChange>::empty()
            &&& fills(b1.stmts@, b2.stmts@, nodes, base, base + 1)
            &&& out.state == base + 1 + node_cost(b1.stmts@)
            &&& nodes[out.state as int].prev == Some(prev as usize)
            &&& nodes[out.state as int].deltas@ == seq![
                MemoryStateChange::Change { offset: 0, new_state: CellState::LoopNull },
                MemoryStateChange::Forget,
            ]
        },
        _ => false,
    }
}

/// The state pass over a sequence, exactly: statements annotated in
/// order, the chain threaded through them, nodes allocated at
/// consecutive deterministic positions from `base`.
pub open spec fn fills(
    inp: Seq<MirStmt>,
    out: Seq<MirStmt>,
    nodes: Seq<StateNode>,
    prev: int,
    base: int,
) -> bool
    decreases inp,
{
    if inp.len() == 0 {
        out.len() == 0
    } else {
        &&& out.len() == inp.len()
        &&& fills_stmt(inp[0], out[0], nodes, prev, base)
        &&& fills(
            inp.drop_first(),
            out.drop_first(),
            nodes,
            next_prev(out[0], prev),
            base + node_cost_stmt(inp[0]),
        )
    }
}

/// `fills` reads only nodes the relation itself places, all below the
/// arena's length at the time, so growing the arena preserves it.
pub proof fn lemma_fills_stable(
    inp: Seq<MirStmt>,
    out: Seq<MirStmt>,
    nodes1: Seq<StateNode>,
    nodes2: Seq<StateNode>,
    prev: int,
    base: int,
)
    requires
        fills(inp, out, nodes1, prev, base),
        nodes1.len() <= nodes2.len(),
        nodes1 == nodes2.subrange(0, nodes1.len() as int),
    ensures
        fills(inp, out, nodes2, prev, base),
    decreases inp, 1int,
{
    if inp.len() > 0 {
        lemma_fills_stmt_stable(inp[0], out[0], nodes1, nodes2, prev, base);
        lemma_fills_stable(
            inp.drop_first(),
            out.drop_first(),
            nodes1,
            nodes2,
            next_prev(out[0], prev),
            base + node_cost_stmt(inp[0]),
        );
    }
}

proof fn lemma_fills_stmt_stable(
    inp: MirStmt,
    out: MirStmt,
    nodes1: Seq<StateNode>,
    nodes2: Seq<StateNode>,
    prev: int,
    base: int,
)
    requires
        fills_stmt(inp, out, nodes1, prev, base),
        nodes1.len() <= nodes2.len(),
        nodes1 == nodes2.subrange(0, nodes1.len() as int),
    ensures
        fills_stmt(inp, out, nodes2, prev, base),
    decreases inp, 0int,
{
    match (inp.kind, out.kind) {
        (MirKind::AddSub(o1, _, _), MirKind::AddSub(_, _, _)) => {
            assert(0 <= base < nodes1.len());
            assert(nodes2[base] == nodes2.subrange(0, nodes1.len() as int)[base]);
            if 0 <= prev < nodes1.len() {
                lemma_lookup_stable(nodes1, nodes2, prev, o1 as int);
            }
        },
        (MirKind::Loop(b1), MirKind::Loop(b2)) => {
            lemma_node_cost_nonneg(b1.stmts@);
            assert(0 <= base < nodes1.len());
            assert(0 <= out.state < nodes1.len());
            assert(nodes2[base] == nodes2.subrange(0, nodes1.len() as int)[base]);
            assert(nodes2[out.state as int] == nodes2.subrange(
                0,
                nodes1.len() as int,
            )[out.state as int]);
            lemma_fills_stable(b1.stmts@, b2.stmts@, nodes1, nodes2, base, base + 1);
        },
        (MirKind::Out, MirKind::Out) => {},
        _ => {
            if 0 <= base < nodes1.len() {
                assert(nodes2[base] == nodes2.subrange(0, nodes1.len() as int)[base]);
            }
        },
    }
}

/// Appending one more annotated statement extends the relation.
proof fn lemma_fills_snoc(
    inp: Seq<MirStmt>,
    out: Seq<MirStmt>,
    nodes: Seq<StateNode>,
    prev: int,
    base: int,
    x_in: MirStmt,
    x_out: MirStmt,
)
    requires
        fills(inp, out, nodes, prev, base),
        fills_stmt(x_in, x_out, nodes, chain_end(out, prev), base + node_cost(inp)),
    ensures
        fills(inp.push(x_in), out.push(x_out), nodes, prev, base),
    decreases inp,
{
    if inp.len() == 0 {
        assert(out =~= Seq::<MirStmt>::empty());
        assert(inp.push(x_in)[0] == x_in);
        assert(out.push(x_out)[0] == x_out);
        assert(inp.push(x_in).drop_first() =~= Seq::<MirStmt>::empty());
        assert(out.push(x_out).drop_first() =~= Seq::<MirStmt>::empty());
        assert(chain_end(out, prev) == prev);
        assert(node_cost(inp) == 0);
        assert(fills_stmt(x_in, x_out, nodes, prev, base));
        assert(fills(
            Seq::<MirStmt>::empty(),
            Seq::<MirStmt>::empty(),
            nodes,
            next_prev(x_out, prev),
            base + node_cost_stmt(x_in),
        ));
        assert(fills(inp.push(x_in), out.push(x_out), nodes, prev, base));
    } else {
        assert(inp.push(x_in)[0] == inp[0]);
        assert(out.push(x_out)[0] == out[0]);
        assert(inp.push(x_in).drop_first() =~= inp.drop_first().push(x_in));
        assert(out.push(x_out).drop_first() =~= out.drop_first().push(x_out));
        assert(chain_end(out, prev) == chain_end(
            out.drop_first(),
            next_prev(out[0], prev),
        )) by {
            lemma_chain_end_front(out, prev);
        }
        assert(node_cost(inp) == node_cost_stmt(inp[0]) + node_cost(inp.drop_first()));
        lemma_fills_snoc(
            inp.drop_first(),
            out.drop_first(),
            nodes,
            next_prev(out[0], prev),
            base + node_cost_stmt(inp[0]),
            x_in,
            x_out,
        );
        assert(fills(
            inp.drop_first().push(x_in),
            out.drop_first().push(x_out),
            nodes,
            next_prev(out[0], prev),
            base + node_cost_stmt(inp[0]),
        ));
        assert(fills(inp.push(x_in), out.push(x_out), nodes, prev, base));
    }
}

/// `chain_end` measured from the front.
proof fn lemma_chain_end_front(out: Seq<MirStmt>, prev: int)
    requires
        out.len() >= 1,
    ensures
        chain_end(out, prev) == chain_end(out.drop_first(), next_prev(out[0], prev)),
    decreases out,
{
    if out.len() == 1 {
        assert(out.drop_first() =~= Seq::<MirStmt>::empty());
        assert(out.drop_last() =~= Seq::<MirStmt>::empty());
        assert(out.last() == out[0]);
    } else {
        lemma_chain_end_front(out.drop_last(), prev);
        assert(out.drop_last()[0] == out[0]);
        assert(out.drop_last().drop_first() =~= out.drop_first().drop_last());
        assert(out.drop_first().last() == out.last());
    }
}

/// How many liveness tags the lowering creates for one statement.
pub open spec fn store_cost_stmt(h: crate::hir::Stmt) -> int
    decreases h,
{
    match h.kind {
        crate::hir::StmtKind::Add(_, _) => 1,
        crate::hir::StmtKind::Sub(_, _) => 1,
        crate::hir::StmtKind::MoveAddTo { .. } => 2,
        crate::hir::StmtKind::In => 1,
        crate::hir::StmtKind::SetN(_) => 1,
        crate::hir::StmtKind::Loop(hb) => store_cost(hb.stmts@),
        _ => 0,
    }
}

pub open spec fn store_cost(hs: Seq<crate::hir::Stmt>) -> int
    decreases hs,
{
    if hs.len() == 0 {
        0
    } else {
        store_cost_stmt(hs[0]) + store_cost(hs.drop_first())
    }
}

pub proof fn lemma_store_cost_nonneg(hs: Seq<crate::hir::Stmt>)
    ensures
        store_cost(hs) >= 0,
    decreases hs,
{
    if hs.len() > 0 {
        lemma_store_cost_stmt_nonneg(hs[0]);
        lemma_store_cost_nonneg(hs.drop_first());
    }
}

pub proof fn lemma_store_cost_stmt_nonneg(h: crate::hir::Stmt)
    ensures
        store_cost_stmt(h) >= 0,
    decreases h,
{
    match h.kind {
        crate::hir::StmtKind::Loop(hb) => lemma_store_cost_nonneg(hb.stmts@),
        _ => {},
    }
}

proof fn lemma_store_cost_snoc(hs: Seq<crate::hir::Stmt>, x: crate::hir::Stmt)
    ensures
        store_cost(hs.push(x)) == store_cost(hs) + store_cost_stmt(x),
    decreases hs,
{
    if hs.len() == 0 {
        assert(hs.push(x)[0] == x);
        assert(hs.push(x).drop_first() =~= Seq::<crate::hir::Stmt>::empty());
        assert(store_cost(Seq::<crate::hir::Stmt>::empty()) == 0);
    } else {
        assert(hs.push(x)[0] == hs[0]);
        assert(hs.push(x).drop_first() =~= hs.drop_first().push(x));
        lemma_store_cost_snoc(hs.drop_first(), x);
    }
}

/// The lowering of one statement, exactly: same span, signed run value,
/// placeholder state, and consecutively allocated tag indices from
/// `base` (so every write's tag is fresh and all tags are distinct).
/// Pointer-move counts beyond the offset range clamp to `i32::MAX`, the
/// one place the lowering narrows.
pub open spec fn lowers_stmt(h: crate::hir::Stmt, m: MirStmt, base: int) -> bool
    decreases h,
{
    &&& m.span == h.span
    &&& m.state == 0
    &&& match (h.kind, m.kind) {
        (crate::hir::StmtKind::Add(o, n), MirKind::AddSub(o2, v, s)) => o2 == o && v == n && s
            == base,
        (crate::hir::StmtKind::Sub(o, n), MirKind::AddSub(o2, v, s)) => o2 == o && v as int == -(
        n as int) && s == base,
        (
            crate::hir::StmtKind::MoveAddTo { offset },
            MirKind::MoveAddTo { offset: o2, store_set_null, store_move },
        ) => o2 == offset && store_set_null == base && store_move == base + 1,
        (crate::hir::StmtKind::Right(c), MirKind::PointerMove(d)) => d as int == if c
            > i32::MAX {
            i32::MAX as int
        } else {
            c as int
        },
        (crate::hir::StmtKind::Left(c), MirKind::PointerMove(d)) => d as int == -(
        if c > i32::MAX {
            i32::MAX as int
        } else {
            c as int
        }),
        (crate::hir::StmtKind::Loop(hb), MirKind::Loop(mb)) => lowers(hb.stmts@, mb.stmts@, base),
        (crate::hir::StmtKind::Out, MirKind::Out) => true,
        (crate::hir::StmtKind::In, MirKind::In(s)) => s == base,
        (crate::hir::StmtKind::SetN(n), MirKind::SetN(v, s)) => v == n && s == base,
        _ => false,
    }
}

/// The lowering of a sequence: one statement to one, in order, tags
/// allocated consecutively.
pub open spec fn lowers(hs: Seq<crate::hir::Stmt>, ms: Seq<MirStmt>, base: int) -> bool
    decreases hs,
{
    if hs.len() == 0 {
        ms.len() == 0
    } else {
        &&& ms.len() == hs.len()
        &&& lowers_stmt(hs[0], ms[0], base)
        &&& lowers(hs.drop_first(), ms.drop_first(), base + store_cost_stmt(hs[0]))
    }
}

proof fn lemma_lowers_snoc(
    hs: Seq<crate::hir::Stmt>,
    ms: Seq<MirStmt>,
    base: int,
    x_h: crate::hir::Stmt,
    x_m: MirStmt,
)
    requires
        lowers(hs, ms, base),
        lowers_stmt(x_h, x_m, base + store_cost(hs)),
    ensures
        lowers(hs.push(x_h), ms.push(x_m), base),
    decreases hs,
{
    if hs.len() == 0 {
        assert(ms =~= Seq::<MirStmt>::empty());
        assert(hs.push(x_h)[0] == x_h);
        assert(ms.push(x_m)[0] == x_m);
        assert(hs.push(x_h).drop_first() =~= Seq::<crate::hir::Stmt>::empty());
        assert(ms.push(x_m).drop_first() =~= Seq::<MirStmt>::empty());
        assert(store_cost(hs) == 0);
        assert(lowers_stmt(hs.push(x_h)[0], ms.push(x_m)[0], base));
        assert(lowers(
            Seq::<crate::hir::Stmt>::empty(),
            Seq::<MirStmt>::empty(),
            base + store_cost_stmt(x_h),
        ));
        assert(lowers(hs.push(x_h), ms.push(x_m), base));
    } else {
        assert(hs.push(x_h)[0] == hs[0]);
        assert(ms.push(x_m)[0] == ms[0]);
        assert(hs.push(x_h).drop_first() =~= hs.drop_first().push(x_h));
        assert(ms.push(x_m).drop_first() =~= ms.drop_first().push(x_m));
        assert(store_cost(hs) == store_cost_stmt(hs[0]) + store_cost(hs.drop_first()));
        lemma_lowers_snoc(
            hs.drop_first(),
            ms.drop_first(),
            base + store_cost_stmt(hs[0]),
            x_h,
            x_m,
        );
        assert(lowers(
            hs.drop_first().push(x_h),
            ms.drop_first().push(x_m),
            base + store_cost_stmt(hs[0]),
        ));
        assert(lowers(hs.push(x_h), ms.push(x_m), base));
    }
}

/// Lower the optimized statement tree into the annotated representation:
/// Lower the optimized statement tree into the annotated representation:
/// the result is exactly the `lowers` map — one statement to one, in
/// order, spans preserved, run lengths signed, each write given a fresh
/// liveness tag at a consecutive arena index (so all tags are distinct),
/// every fresh tag starting with nothing known of its reads. Pointer
/// moves beyond the offset range clamp to the largest offset.
pub fn hir_to_mir(hir: &crate::hir::Hir, stores: &mut Stores) -> (r: Mir)
    ensures
        final(stores).items@.len() == old(stores).items@.len() + store_cost(hir.stmts@),
        final(stores).items@.take(old(stores).items@.len() as int) == old(stores).items@,
        forall|k: int|
            old(stores).items@.len() <= k < final(stores).items@.len()
                ==> (#[trigger] final(stores).items@[k]).kind
                == crate::mir::state::StoreKind::Unknown,
        lowers(hir.stmts@, r.stmts@, old(stores).items@.len() as int),
        stores_in_bounds(r.stmts@, final(stores).items@.len() as int),
    decreases hir,
{
    let mut stmts: Vec<MirStmt> = Vec::new();
    let n = hir.stmts.len();
    let ghost base = stores.items@.len() as int;
    proof {
        assert(stores_in_bounds(Seq::<MirStmt>::empty(), stores.items@.len() as int));
        assert(hir.stmts@.take(0int) =~= Seq::<crate::hir::Stmt>::empty());
    }
    let mut i: usize = 0;
    while i < n
        invariant
            i <= n,
            n == hir.stmts@.len(),
            base == old(stores).items@.len(),
            stores.items@.len() == base + store_cost(hir.stmts@.take(i as int)),
            stores.items@.take(base) == old(stores).items@,
            forall|k: int|
                base <= k < stores.items@.len() ==> (#[trigger] stores.items@[k]).kind
                    == crate::mir::state::StoreKind::Unknown,
            lowers(hir.stmts@.take(i as int), stmts@, base),
            stmts@.len() == i,
            stores_in_bounds(stmts@, stores.items@.len() as int),
        decreases n - i,
    {
        let s = &hir.stmts[i];
        let ghost pre_stores = stores.items@.len() as int;
        let ghost items_start = stores.items@;
        let kind: MirKind = match &s.kind {
            crate::hir::StmtKind::Add(offset, v) => MirKind::AddSub(
                *offset,
                *v as i16,
                stores.unknown(),
            ),
            crate::hir::StmtKind::Sub(offset, v) => MirKind::AddSub(
                *offset,
                -(*v as i16),
                stores.unknown(),
            ),
            crate::hir::StmtKind::MoveAddTo { offset } => {
                let a = stores.unknown();
                let b = stores.unknown();
                MirKind::MoveAddTo { offset: *offset, store_set_null: a, store_move: b }
            },
            crate::hir::StmtKind::Right(v) => {
                let d: i32 = if *v > i32::MAX as usize {
                    i32::MAX
                } else {
                    *v as i32
                };
                MirKind::PointerMove(d)
            },
            crate::hir::StmtKind::Left(v) => {
                let d: i32 = if *v > i32::MAX as usize {
                    i32::MAX
                } else {
                    *v as i32
                };
                MirKind::PointerMove(-d)
            },
            crate::hir::StmtKind::Loop(h) => MirKind::Loop(hir_to_mir(h, stores)),
            crate::hir::StmtKind::Out => MirKind::Out,
            crate::hir::StmtKind::In => MirKind::In(stores.unknown()),
            crate::hir::StmtKind::SetN(v) => MirKind::SetN(*v, stores.unknown()),
        };
        let ghost old_stmts = stmts@;
        let stmt = MirStmt { kind, state: 0, span: s.span };
        let ghost pushed = stmt;
        stmts.push(stmt);
        proof {
            lemma_store_cost_stmt_nonneg(hir.stmts@[i as int]);
            lemma_store_cost_nonneg(hir.stmts@.take(i as int));
            assert(pre_stores <= stores.items@.len());
            lemma_stores_in_bounds_grow(old_stmts, pre_stores, stores.items@.len() as int);
            lemma_stores_in_bounds_push(old_stmts, pushed, stores.items@.len() as int);
            assert(lowers_stmt(hir.stmts@[i as int], pushed, pre_stores));
            lemma_lowers_snoc(
                hir.stmts@.take(i as int),
                old_stmts,
                base,
                hir.stmts@[i as int],
                pushed,
            );
            assert(hir.stmts@.take(i + 1) =~= hir.stmts@.take(i as int).push(
                hir.stmts@[i as int],
            ));
            lemma_store_cost_snoc(hir.stmts@.take(i as int), hir.stmts@[i as int]);
            assert forall|k: int| 0 <= k < base implies stores.items@.take(base)[k] == old(
                stores,
            ).items@[k] by {
                assert(stores.items@.take(base)[k] == stores.items@[k]);
                assert(stores.items@.take(pre_stores)[k] == stores.items@[k]);
                assert(items_start.take(base)[k] == items_start[k]);
            }
            assert(stores.items@.take(base) =~= old(stores).items@);
            assert forall|k: int|
                base <= k < stores.items@.len() implies (#[trigger] stores.items@[k]).kind
                == crate::mir::state::StoreKind::Unknown by {
                if k < pre_stores {
                    assert(stores.items@.take(pre_stores)[k] == stores.items@[k]);
                    assert(items_start[k].kind == crate::mir::state::StoreKind::Unknown);
                }
            }
        }
        i = i + 1;
    }
    proof {
        assert(hir.stmts@.take(n as int) =~= hir.stmts@);
    }
    Mir { stmts }
}

/// Thread the abstract memory state forward: the result is exactly the
/// `fills` annotation of the input — each statement keeps its kind, tags
/// and span and names a fresh chain node extending its predecessor's
/// with precisely the delta the analysis assigns it (a known value folds mod
/// 256 under the write's tag, an input or unknown fold degrades to
/// written-unknown, a pointer move rebases); an output statement shares
/// its predecessor's node unchanged; a loop's body is analyzed from a
/// fresh empty state and the loop's node records the zero of its
/// controlling cell in front of a forget.
pub fn pass_fill_state_info(
    stmts: &Vec<MirStmt>,
    outer: usize,
    states: &mut MemoryState,
    stores: &Stores,
) -> (r: Vec<MirStmt>)
    requires
        arena_wf(*old(states)),
        outer < old(states).nodes@.len(),
        stores_in_bounds(stmts@, stores.items@.len() as int),
    ensures
        arena_wf(*final(states)),
        final(states).nodes@.len() == old(states).nodes@.len() + node_cost(stmts@),
        final(states).nodes@.take(old(states).nodes@.len() as int) == old(states).nodes@,
        fills(
            stmts@,
            r@,
            final(states).nodes@,
            outer as int,
            old(states).nodes@.len() as int,
        ),
        r@.len() == stmts@.len(),
        stores_in_bounds(r@, stores.items@.len() as int),
    decreases stmts,
{
    let mut out: Vec<MirStmt> = Vec::new();
    let mut cur: usize = outer;
    let ghost base = states.nodes@.len() as int;
    proof {
        assert(stores_in_bounds(Seq::<MirStmt>::empty(), stores.items@.len() as int));
        assert(stmts@.take(0int) =~= Seq::<MirStmt>::empty());
    }
    let n = stmts.len();
    let mut i: usize = 0;
    while i < n
        invariant
            i <= n,
            n == stmts@.len(),
            arena_wf(*states),
            base == old(states).nodes@.len(),
            outer < old(states).nodes@.len(),
            states.nodes@.len() == base + node_cost(stmts@.take(i as int)),
            states.nodes@.take(base) == old(states).nodes@,
            cur < states.nodes@.len(),
            cur as int == chain_end(out@, outer as int),
            fills(stmts@.take(i as int), out@, states.nodes@, outer as int, base),
            out@.len() == i,
            stores_in_bounds(stmts@, stores.items@.len() as int),
            stores_in_bounds(out@, stores.items@.len() as int),
        decreases n - i,
    {
        proof {
            lemma_stores_in_bounds_index(stmts@, stores.items@.len() as int, i as int);
        }
        let s = &stmts[i];
        let ghost nodes_start = states.nodes@;
        let ghost cur_start = cur as int;
        let (kind2, state) = match &s.kind {
            MirKind::AddSub(offset, nv, store) => {
                let prev_state = states.state_for_offset(cur, *offset);
                let new_state = match prev_state {
                    CellState::WrittenToKnown(_, prev_n) => {
                        let v = match (prev_n as i32 + *nv as i32).checked_rem_euclid(256) {
                            Some(r) => r,
                            None => 0,
                        };
                        CellState::WrittenToKnown(*store, v as u8)
                    },
                    _ => CellState::WrittenToUnknown(*store),
                };
                proof {
                    vstd::arithmetic::div_mod::lemma_mod_bound(
                        lookup(nodes_start, cur as int, *offset as int)->WrittenToKnown_1 + *nv,
                        256,
                    );
                    assert(new_state == addsub_knowledge(
                        lookup(nodes_start, cur as int, *offset as int),
                        *nv,
                        *store,
                    ));
                }
                let st = states.single(
                    cur,
                    MemoryStateChange::Change { offset: *offset, new_state },
                );
                (MirKind::AddSub(*offset, *nv, *store), st)
            },
            MirKind::MoveAddTo { offset, store_set_null, store_move } => {
                let st = states.double(
                    cur,
                    MemoryStateChange::Change {
                        offset: 0,
                        new_state: CellState::WrittenToKnown(*store_set_null, 0),
                    },
                    MemoryStateChange::Change {
                        offset: *offset,
                        new_state: CellState::WrittenToUnknown(*store_move),
                    },
                );
                (
                    MirKind::MoveAddTo {
                        offset: *offset,
                        store_set_null: *store_set_null,
                        store_move: *store_move,
                    },
                    st,
                )
            },
            MirKind::PointerMove(d) => {
                let st = states.single(cur, MemoryStateChange::Move(*d));
                (MirKind::PointerMove(*d), st)
            },
            MirKind::Loop(body) => {
                // the loop is opaque: analyze its body from a fresh empty
                // state, then forget everything but the exit condition.
                // The zero of the loop-controlling cell stands in front of
                // the forget, so that lookups at offset 0 still read it
                // while every other offset answers unknown.
                let inner_start = states.empty();
                let new_body = pass_fill_state_info(&body.stmts, inner_start, states, stores);
                let ghost nodes_after_body = states.nodes@;
                proof {
                    lemma_node_cost_nonneg(body.stmts@);
                    assert(nodes_after_body.len() == nodes_start.len() + 1 + node_cost(
                        body.stmts@,
                    ));
                    assert(cur < nodes_after_body.len());
                }
                let st = states.double(
                    cur,
                    MemoryStateChange::Change { offset: 0, new_state: CellState::LoopNull },
                    MemoryStateChange::Forget,
                );
                proof {
                    assert(st == nodes_start.len() + 1 + node_cost(body.stmts@));
                    assert(nodes_after_body == states.nodes@.subrange(
                        0,
                        nodes_after_body.len() as int,
                    )) by {
                        assert(states.nodes@.take(nodes_after_body.len() as int)
                            =~= states.nodes@.subrange(0, nodes_after_body.len() as int));
                    }
                    lemma_fills_stable(
                        body.stmts@,
                        new_body@,
                        nodes_after_body,
                        states.nodes@,
                        inner_start as int,
                        inner_start as int + 1,
                    );
                    assert(inner_start < nodes_after_body.len());
                    assert(states.nodes@[inner_start as int] == nodes_after_body[
                        inner_start as int
                    ]) by {
                        assert(states.nodes@.subrange(0, nodes_after_body.len() as int)[
                            inner_start as int
                        ] == states.nodes@[inner_start as int]);
                    }
                    assert(nodes_after_body[inner_start as int] == nodes_after_body.take(
                        (nodes_start.len() + 1) as int,
                    )[inner_start as int]);
                }
                (MirKind::Loop(Mir { stmts: new_body }), st)
            },
            MirKind::Out => (MirKind::Out, cur),
            MirKind::In(store) => {
                let st = states.single(
                    cur,
                    MemoryStateChange::Change {
                        offset: 0,
                        new_state: CellState::WrittenToUnknown(*store),
                    },
                );
                (MirKind::In(*store), st)
            },
            MirKind::SetN(v, store) => {
                let st = states.single(
                    cur,
                    MemoryStateChange::Change {
                        offset: 0,
                        new_state: CellState::WrittenToKnown(*store, *v),
                    },
                );
                (MirKind::SetN(*v, *store), st)
            },
        };
        let ghost old_out = out@;
        let pushed = MirStmt { kind: kind2, state, span: s.span };
        let ghost pushed_g = pushed;
        out.push(pushed);
        cur = state;
        proof {
            lemma_stores_in_bounds_push(old_out, pushed_g, stores.items@.len() as int);
            // the new statement is exactly the fills annotation of its input
            lemma_node_cost_stmt_nonneg(stmts@[i as int]);
            if !(stmts@[i as int].kind is Out) {
                // the old arena is a prefix of the new one
                assert(nodes_start == states.nodes@.subrange(0, nodes_start.len() as int)) by {
                    assert(states.nodes@.take(nodes_start.len() as int) =~= states.nodes@.subrange(
                        0,
                        nodes_start.len() as int,
                    ));
                }
            } else {
                assert(states.nodes@ == nodes_start);
                assert(nodes_start == states.nodes@.subrange(0, nodes_start.len() as int)) by {
                    assert(states.nodes@.subrange(0, nodes_start.len() as int) =~= nodes_start);
                }
            }
            if stmts@[i as int].kind is AddSub {
                lemma_lookup_stable(
                    nodes_start,
                    states.nodes@,
                    cur_start,
                    stmts@[i as int].kind->AddSub_0 as int,
                );
            }
            assert(fills_stmt(
                stmts@[i as int],
                pushed_g,
                states.nodes@,
                cur_start,
                nodes_start.len() as int,
            ));
            lemma_fills_stable(
                stmts@.take(i as int),
                old_out,
                nodes_start,
                states.nodes@,
                outer as int,
                base,
            );
            lemma_fills_snoc(
                stmts@.take(i as int),
                old_out,
                states.nodes@,
                outer as int,
                base,
                stmts@[i as int],
                pushed_g,
            );
            assert(stmts@.take(i + 1) =~= stmts@.take(i as int).push(stmts@[i as int]));
            lemma_node_cost_snoc(stmts@.take(i as int), stmts@[i as int]);
            lemma_chain_end_push(old_out, pushed_g, outer as int);
            lemma_node_cost_nonneg(stmts@.take(i as int));
            assert(base <= nodes_start.len());
            assert forall|k: int| 0 <= k < base implies states.nodes@.take(base)[k] == old(
                states,
            ).nodes@[k] by {
                assert(states.nodes@.take(base)[k] == states.nodes@[k]);
                assert(states.nodes@.subrange(0, nodes_start.len() as int)[k]
                    == states.nodes@[k]);
                assert(nodes_start[k] == nodes_start.take(base)[k]);
            }
            assert(states.nodes@.take(base) =~= old(states).nodes@);
        }
        i = i + 1;
    }
    proof {
        assert(stmts@.take(n as int) =~= stmts@);
    }
    out
}

/// Saturating signed 64-bit addition.
pub open spec fn sat_add64(x: int, d: int) -> i64 {
    if x + d > i64::MAX {
        i64::MAX
    } else if x + d < i64::MIN {
        i64::MIN
    } else {
        (x + d) as i64
    }
}

/// What one more recorded read does to a tag's knowledge.
pub open spec fn loaded_kind(k: StoreKind) -> StoreKind {
    match k {
        StoreKind::Unknown => StoreKind::UsedAtLeast(1),
        StoreKind::UsedExact(n) => StoreKind::UsedExact(
            if n < u32::MAX {
                (n + 1) as u32
            } else {
                u32::MAX
            },
        ),
        StoreKind::UsedAtLeast(n) => StoreKind::UsedAtLeast(
            if n < u32::MAX {
                (n + 1) as u32
            } else {
                u32::MAX
            },
        ),
        StoreKind::Dead => StoreKind::UsedExact(1),
    }
}

/// What an opaque possible read does to a tag's knowledge.
pub open spec fn clobbered_kind(k: StoreKind) -> StoreKind {
    match k {
        StoreKind::Unknown => StoreKind::Unknown,
        StoreKind::UsedExact(n) => StoreKind::UsedAtLeast(n),
        StoreKind::UsedAtLeast(n) => StoreKind::UsedAtLeast(n),
        StoreKind::Dead => StoreKind::Unknown,
    }
}

/// The first tracked entry for `offset` at or after position `i`.
pub open spec fn find_from(tr: Seq<(i64, usize)>, offset: i64, i: int) -> Option<int>
    decreases tr.len() - i,
{
    if i < 0 || i >= tr.len() {
        None
    } else if tr[i].0 == offset {
        Some(i)
    } else {
        find_from(tr, offset, i + 1)
    }
}

/// The first tracked entry for `offset`, if any.
pub open spec fn find_tracked(tr: Seq<(i64, usize)>, offset: i64) -> Option<int> {
    find_from(tr, offset, 0)
}

/// A write at `offset` under tag `tag`: if an earlier write there is
/// tracked and still possibly unread, that write is marked dead; either
/// way `tag` becomes the tracked write at `offset`.
pub open spec fn mark_spec(
    items: Seq<Store>,
    tr: Seq<(i64, usize)>,
    offset: i64,
    tag: usize,
) -> (Seq<Store>, Seq<(i64, usize)>) {
    match find_tracked(tr, offset) {
        Some(k) => {
            let sref = tr[k].1 as int;
            let items2 = if items[sref].kind is Dead || items[sref].kind is Unknown {
                items.update(sref, Store { id: items[sref].id, kind: StoreKind::Dead })
            } else {
                items
            };
            (items2, tr.update(k, (offset, tag)))
        },
        None => (items, tr.push((offset, tag))),
    }
}

/// A read at `offset`: the tracked write there, if any, records one more
/// load.
pub open spec fn read_spec(items: Seq<Store>, tr: Seq<(i64, usize)>, offset: i64) -> Seq<Store> {
    match find_tracked(tr, offset) {
        Some(k) => {
            let sref = tr[k].1 as int;
            items.update(sref, Store { id: items[sref].id, kind: loaded_kind(items[sref].kind) })
        },
        None => items,
    }
}

/// Clobber the tags of the first `k` tracked writes, in order.
pub open spec fn clobber_upto(items: Seq<Store>, tr: Seq<(i64, usize)>, k: int) -> Seq<Store>
    decreases k,
{
    if k <= 0 {
        items
    } else {
        let prev = clobber_upto(items, tr, k - 1);
        let sref = tr[k - 1].1 as int;
        prev.update(sref, Store { id: prev[sref].id, kind: clobbered_kind(prev[sref].kind) })
    }
}

/// What one statement's own action does to the liveness tags, the
/// tracked writes and the current offset: writes mark their cells, a
/// loop or an output reads the current cell, a pointer move shifts the
/// offset, and nothing else changes.
pub open spec fn dse_stmt(
    items: Seq<Store>,
    tr: Seq<(i64, usize)>,
    off: i64,
    m: MirStmt,
) -> (Seq<Store>, Seq<(i64, usize)>, i64) {
    match m.kind {
        MirKind::AddSub(o, _, tag) => {
            let r = mark_spec(items, tr, sat_add64(off as int, o as int), tag);
            (r.0, r.1, off)
        },
        MirKind::MoveAddTo { offset, store_set_null, store_move } => {
            let r1 = mark_spec(items, tr, off, store_set_null);
            let r2 = mark_spec(r1.0, r1.1, sat_add64(off as int, offset as int), store_move);
            (r2.0, r2.1, off)
        },
        MirKind::PointerMove(o) => (items, tr, sat_add64(off as int, -(o as int))),
        MirKind::Loop(_) => (read_spec(items, tr, off), tr, off),
        MirKind::Out => (read_spec(items, tr, off), tr, off),
        MirKind::In(tag) => {
            let r = mark_spec(items, tr, off, tag);
            (r.0, r.1, off)
        },
        MirKind::SetN(_, tag) => {
            let r = mark_spec(items, tr, off, tag);
            (r.0, r.1, off)
        },
    }
}

/// Whether the statement's state node records a forgotten tape.
pub open spec fn forget_here(nodes: Seq<StateNode>, st: usize) -> bool {
    st < nodes.len() && exists|j: int|
        0 <= j < nodes[st as int].deltas@.len() && nodes[st as int].deltas@[j] is Forget
}

/// One full step of the dead-store walk: the statement's own action,
/// then, where its state node holds a forgotten tape, a clobber of every
/// tracked tag in order.
pub open spec fn dse_step(
    items: Seq<Store>,
    tr: Seq<(i64, usize)>,
    off: i64,
    m: MirStmt,
    nodes: Seq<StateNode>,
) -> (Seq<Store>, Seq<(i64, usize)>, i64) {
    let s = dse_stmt(items, tr, off, m);
    if forget_here(nodes, m.state) {
        (clobber_upto(s.0, s.1, s.1.len() as int), s.1, s.2)
    } else {
        s
    }
}

/// The dead-store walk over a statement sequence, front to back.
pub open spec fn dse_fold(
    items: Seq<Store>,
    tr: Seq<(i64, usize)>,
    off: i64,
    ms: Seq<MirStmt>,
    nodes: Seq<StateNode>,
) -> (Seq<Store>, Seq<(i64, usize)>, i64)
    decreases ms.len(),
{
    if ms.len() == 0 {
        (items, tr, off)
    } else {
        let s = dse_step(items, tr, off, ms[0], nodes);
        dse_fold(s.0, s.1, s.2, ms.drop_first(), nodes)
    }
}

/// The liveness tags after the full dead-store walk of a program,
/// starting with no tracked write at offset zero.
pub open spec fn dse_spec(items: Seq<Store>, ms: Seq<MirStmt>, nodes: Seq<StateNode>) -> Seq<
    Store,
> {
    dse_fold(items, Seq::empty(), 0, ms, nodes).0
}

/// Extending the walked sequence by one statement applies one more step
/// to the walk's result.
pub proof fn lemma_dse_fold_snoc(
    items: Seq<Store>,
    tr: Seq<(i64, usize)>,
    off: i64,
    ms: Seq<MirStmt>,
    m: MirStmt,
    nodes: Seq<StateNode>,
)
    ensures
        ({
            let f = dse_fold(items, tr, off, ms, nodes);
            dse_fold(items, tr, off, ms.push(m), nodes) == dse_step(f.0, f.1, f.2, m, nodes)
        }),
    decreases ms.len(),
{
    if ms.len() == 0 {
        assert(ms.push(m)[0] == m);
        assert(ms.push(m).drop_first() =~= Seq::<MirStmt>::empty());
        let s = dse_step(items, tr, off, m, nodes);
        assert(dse_fold(items, tr, off, ms, nodes) == (items, tr, off));
        assert(dse_fold(s.0, s.1, s.2, ms.push(m).drop_first(), nodes) == s);
        assert(dse_fold(items, tr, off, ms.push(m), nodes) == s);
    } else {
        assert(ms.push(m)[0] == ms[0]);
        assert(ms.push(m).drop_first() =~= ms.drop_first().push(m));
        let s = dse_step(items, tr, off, ms[0], nodes);
        lemma_dse_fold_snoc(s.0, s.1, s.2, ms.drop_first(), m, nodes);
        assert(dse_fold(items, tr, off, ms.push(m), nodes) == dse_fold(
            s.0,
            s.1,
            s.2,
            ms.drop_first().push(m),
            nodes,
        ));
        assert(dse_fold(items, tr, off, ms, nodes) == dse_fold(
            s.0,
            s.1,
            s.2,
            ms.drop_first(),
            nodes,
        ));
    }
}

/// Walk the program forward, tracking for each tape offset the most
/// recent write's liveness tag: a later write to the same offset while
/// the earlier tag is still unread proves the earlier write dead; a read
/// marks the covering tag used; a forgotten state conservatively
/// clobbers every tracked tag.
pub fn pass_dead_store_elimination(
    mir: &Mir,
    states: &MemoryState,
    stores: &mut Stores,
)
    requires
        stores_in_bounds(mir.stmts@, old(stores).items@.len() as int),
    ensures
        final(stores).items@.len() == old(stores).items@.len(),
        final(stores).items@ == dse_spec(old(stores).items@, mir.stmts@, states.nodes@),
{
    let mut tracked_writes: Vec<(i64, usize)> = Vec::new();
    let mut current_offset: i64 = 0;
    let n = mir.stmts.len();
    let mut i: usize = 0;
    proof {
        assert(mir.stmts@.take(0int) =~= Seq::<MirStmt>::empty());
    }
    while i < n
        invariant
            i <= n,
            n == mir.stmts@.len(),
            stores_in_bounds(mir.stmts@, stores.items@.len() as int),
            stores.items@.len() == old(stores).items@.len(),
            forall|k: int|
                0 <= k < tracked_writes@.len() ==> (#[trigger] tracked_writes@[k]).1
                    < stores.items@.len(),
            ({
                let f = dse_fold(
                    old(stores).items@,
                    Seq::<(i64, usize)>::empty(),
                    0,
                    mir.stmts@.take(i as int),
                    states.nodes@,
                );
                &&& stores.items@ == f.0
                &&& tracked_writes@ == f.1
                &&& current_offset == f.2
            }),
        decreases n - i,
    {
        proof {
            lemma_stores_in_bounds_index(mir.stmts@, stores.items@.len() as int, i as int);
        }
        let ghost pre_items = stores.items@;
        let ghost pre_tr = tracked_writes@;
        let ghost pre_off = current_offset;
        let ghost stepped = dse_stmt(pre_items, pre_tr, pre_off, mir.stmts@[i as int]);
        let s = &mir.stmts[i];
        match &s.kind {
            MirKind::AddSub(offset, _, store) => {
                let at = sat_add_i64(current_offset, *offset as i64);
                mark_store(&mut tracked_writes, at, *store, stores);
            },
            MirKind::MoveAddTo { offset, store_set_null, store_move } => {
                mark_store(&mut tracked_writes, current_offset, *store_set_null, stores);
                let at = sat_add_i64(current_offset, *offset as i64);
                mark_store(&mut tracked_writes, at, *store_move, stores);
            },
            MirKind::PointerMove(offset) => {
                current_offset = sat_add_i64(current_offset, -(*offset as i64));
            },
            MirKind::Loop(_) | MirKind::Out => {
                let found = find_entry(&tracked_writes, current_offset);
                if let Some(k) = found {
                    let sref = tracked_writes[k].1;
                    let mut tag = stores.items[sref];
                    tag.add_load();
                    stores.items.set(sref, tag);
                    proof {
                        assert(stores.items@ =~= read_spec(pre_items, pre_tr, pre_off));
                    }
                }
            },
            MirKind::In(store) => {
                mark_store(&mut tracked_writes, current_offset, *store, stores);
            },
            MirKind::SetN(_, store) => {
                mark_store(&mut tracked_writes, current_offset, *store, stores);
            },
        }
        proof {
            assert(stores.items@ == stepped.0);
            assert(tracked_writes@ == stepped.1);
            assert(current_offset == stepped.2);
        }
        let ghost mid_items = stores.items@;
        if s.state < states.nodes.len() {
            if states.has_forget_delta(s.state) {
                // an opaque event downstream: every tracked tag may have
                // been read after all
                let m = tracked_writes.len();
                let mut k: usize = 0;
                while k < m
                    invariant
                        k <= m,
                        m == tracked_writes@.len(),
                        tracked_writes@ == stepped.1,
                        stores.items@.len() == old(stores).items@.len(),
                        forall|x: int|
                            0 <= x < tracked_writes@.len() ==> (
                            #[trigger] tracked_writes@[x]).1 < stores.items@.len(),
                        stores.items@ == clobber_upto(mid_items, tracked_writes@, k as int),
                    decreases m - k,
                {
                    let sref = tracked_writes[k].1;
                    let mut tag = stores.items[sref];
                    tag.clobber();
                    stores.items.set(sref, tag);
                    proof {
                        assert(stores.items@ == clobber_upto(
                            mid_items,
                            tracked_writes@,
                            (k + 1) as int,
                        ));
                    }
                    k = k + 1;
                }
            }
        }
        proof {
            let ghost stmt = mir.stmts@[i as int];
            assert(forget_here(states.nodes@, stmt.state) <==> (stmt.state < states.nodes@.len()
                && exists|j: int|
                0 <= j < states.nodes@[stmt.state as int].deltas@.len()
                    && states.nodes@[stmt.state as int].deltas@[j] is Forget));
            let f2 = dse_step(pre_items, pre_tr, pre_off, stmt, states.nodes@);
            assert(stores.items@ == f2.0);
            assert(tracked_writes@ == f2.1);
            assert(current_offset == f2.2);
            lemma_dse_fold_snoc(
                old(stores).items@,
                Seq::<(i64, usize)>::empty(),
                0,
                mir.stmts@.take(i as int),
                stmt,
                states.nodes@,
            );
            assert(mir.stmts@.take((i + 1) as int) =~= mir.stmts@.take(i as int).push(stmt));
        }
        i = i + 1;
    }
    proof {
        assert(mir.stmts@.take(n as int) =~= mir.stmts@);
    }
}

/// Saturating 64-bit offset accumulation; the clamp is unreachable for
/// any program that fits in memory.
fn sat_add_i64(x: i64, d: i64) -> (r: i64)
    ensures
        r == sat_add64(x as int, d as int),
{
    match x.checked_add(d) {
        Some(v) => v,
        None => if d >= 0 {
            i64::MAX
        } else {
            i64::MIN
        },
    }
}

/// Record a write at `offset`: if an earlier write there is still
/// possibly unread, it is now provably dead; either way the new write's
/// tag is tracked there from now on.
fn mark_store(
    tracked_writes: &mut Vec<(i64, usize)>,
    offset: i64,
    store: usize,
    stores: &mut Stores,
)
    requires
        store < old(stores).items@.len(),
        forall|k: int|
            0 <= k < old(tracked_writes)@.len() ==> (#[trigger] old(tracked_writes)@[k]).1 < old(
                stores,
            ).items@.len(),
    ensures
        final(stores).items@.len() == old(stores).items@.len(),
        forall|k: int|
            0 <= k < final(tracked_writes)@.len() ==> (#[trigger] final(tracked_writes)@[k]).1
                < final(stores).items@.len(),
        final(stores).items@ == mark_spec(
            old(stores).items@,
            old(tracked_writes)@,
            offset,
            store,
        ).0,
        final(tracked_writes)@ == mark_spec(
            old(stores).items@,
            old(tracked_writes)@,
            offset,
            store,
        ).1,
{
    let found = find_entry(tracked_writes, offset);
    match found {
        Some(k) => {
            let old_ref = tracked_writes[k].1;
            if stores.items[old_ref].is_maybe_dead() {
                let mut tag = stores.items[old_ref];
                tag.mark_dead();
                stores.items.set(old_ref, tag);
                proof {
                    assert(stores.items@ =~= mark_spec(
                        old(stores).items@,
                        old(tracked_writes)@,
                        offset,
                        store,
                    ).0);
                }
            }
            tracked_writes.set(k, (offset, store));
            proof {
                assert(tracked_writes@ =~= mark_spec(
                    old(stores).items@,
                    old(tracked_writes)@,
                    offset,
                    store,
                ).1);
            }
        },
        None => {
            tracked_writes.push((offset, store));
        },
    }
}

/// The tracked entry for `offset`, if any: the first match, scanning
/// forward.
fn find_entry(tracked_writes: &Vec<(i64, usize)>, offset: i64) -> (r: Option<usize>)
    ensures
        r matches Some(k) ==> k < tracked_writes@.len() && tracked_writes@[k as int].0 == offset
            && find_tracked(tracked_writes@, offset) == Some(k as int),
        r is None ==> find_tracked(tracked_writes@, offset) is None,
{
    let n = tracked_writes.len();
    let mut i: usize = 0;
    while i < n
        invariant
            i <= n,
            n == tracked_writes@.len(),
            find_from(tracked_writes@, offset, 0) == find_from(tracked_writes@, offset, i as int),
        decreases n - i,
    {
        if tracked_writes[i].0 == offset {
            return Some(i);
        }
        i = i + 1;
    }
    None
}

/// The fixed analysis sequence: thread the state forward, then mark the
/// dead stores it exposes.
pub fn passes(mir: Mir, states: &mut MemoryState, stores: &mut Stores) -> (r: Mir)
    requires
        arena_wf(*old(states)),
        old(states).nodes@.len() >= 1,
        stores_in_bounds(mir.stmts@, old(stores).items@.len() as int),
    ensures
        arena_wf(*final(states)),
        r.stmts@.len() == mir.stmts@.len(),
        final(stores).items@.len() == old(stores).items@.len(),
        stores_in_bounds(r.stmts@, final(stores).items@.len() as int),
        final(states).nodes@.len() == old(states).nodes@.len() + node_cost(mir.stmts@),
        final(states).nodes@.take(old(states).nodes@.len() as int) == old(states).nodes@,
        fills(mir.stmts@, r.stmts@, final(states).nodes@, 0, old(states).nodes@.len() as int),
        final(stores).items@ == dse_spec(old(stores).items@, r.stmts@, final(states).nodes@),
{
    let filled = pass_fill_state_info(&mir.stmts, 0, states, stores);
    let analyzed = Mir { stmts: filled };
    pass_dead_store_elimination(&analyzed, states, stores);
    analyzed
}

} // verus!
