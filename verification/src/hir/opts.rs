use vstd::prelude::*;

use crate::hir::{Hir, Stmt, StmtKind};
use crate::semantics::{
    add_at, cell_idx, deep, deep_seq, equiv_seqs, lemma_add_at_twice, lemma_add_at_zero,
    lemma_add_at_comm, lemma_deep_seq_push, lemma_mod_shift_unit, lemma_wrap_u8_add, lemma_wrap_u8_sub, lemma_equiv_append, lemma_equiv_loop,
    lemma_equiv_refl, lemma_equiv_replace, lemma_equiv_trans, lemma_move_ptr_twice,
    lemma_move_ptr_zero, lemma_seq_sem_pair, lemma_seq_sem_singleton, lemma_seq_sem_triple,
    lemma_stmt_sem_wf, move_add, move_ptr, seq_sem, set_cell, settled,
    stmt_sem, st_wf, ExecState, Outcome, SpecKind, SpecStmt,
};
use crate::lir::{fits, fits_stmt, flat_len, flat_len_stmt, lemma_fits_push, lemma_flat_len_nonneg, lemma_flat_len_push, lemma_flat_len_stmt_pos};
use crate::span::Span;

verus! {

/// The span covering two adjacent spans: from the start of `a` to the end
/// of `b`, computed with wrapping arithmetic so that it is total (on well
/// formed spans it is the plain difference).
pub open spec fn merge_span(a: Span, b: Span) -> Span {
    Span { start: a.start, len: b.start.wrapping_add(b.len).wrapping_sub(a.start) }
}

/// Whether two adjacent statements are one run: the same primitive at the
/// same offset, with a combined count still representable.
pub open spec fn can_merge(a: SpecStmt, b: SpecStmt) -> bool {
    match (a.kind, b.kind) {
        (SpecKind::Add(o1, n1), SpecKind::Add(o2, n2)) => o1 == o2 && n1 + n2 <= 255,
        (SpecKind::Sub(o1, n1), SpecKind::Sub(o2, n2)) => o1 == o2 && n1 + n2 <= 255,
        (SpecKind::Right(n1), SpecKind::Right(n2)) => n1 + n2 <= 255,
        (SpecKind::Left(n1), SpecKind::Left(n2)) => n1 + n2 <= 255,
        _ => false,
    }
}

/// The single statement a mergeable pair folds into.
pub open spec fn merge_stmts(a: SpecStmt, b: SpecStmt) -> SpecStmt {
    let kind = match (a.kind, b.kind) {
        (SpecKind::Add(o1, n1), SpecKind::Add(o2, n2)) => SpecKind::Add(o1, (n1 + n2) as u8),
        (SpecKind::Sub(o1, n1), SpecKind::Sub(o2, n2)) => SpecKind::Sub(o1, (n1 + n2) as u8),
        (SpecKind::Right(n1), SpecKind::Right(n2)) => SpecKind::Right((n1 + n2) as usize),
        (SpecKind::Left(n1), SpecKind::Left(n2)) => SpecKind::Left((n1 + n2) as usize),
        _ => a.kind,
    };
    SpecStmt { kind, span: merge_span(a.span, b.span) }
}

/// Fold one more statement into a grouped sequence: merge it into the last
/// run if it continues it, else append it.
pub open spec fn group_push(prev: Seq<SpecStmt>, x: SpecStmt) -> Seq<SpecStmt> {
    if prev.len() > 0 && can_merge(prev.last(), x) {
        prev.drop_last().push(merge_stmts(prev.last(), x))
    } else {
        prev.push(x)
    }
}

/// A statement with its loop body (if any) grouped.
pub open spec fn group_stmt(s: SpecStmt) -> SpecStmt
    decreases s,
{
    match s.kind {
        SpecKind::Loop(b) => SpecStmt { kind: SpecKind::Loop(group_spec(b)), span: s.span },
        _ => s,
    }
}

/// The run-length grouping of a statement sequence: adjacent identical
/// primitives fold into counted runs (loop bodies first), and a run stops
/// rather than let its count overflow.
pub open spec fn group_spec(ss: Seq<SpecStmt>) -> Seq<SpecStmt>
    decreases ss,
{
    if ss.len() == 0 {
        Seq::empty()
    } else {
        group_push(group_spec(ss.drop_last()), group_stmt(ss.last()))
    }
}

/// A mergeable pair has the same effect as its fold: both are single
/// arithmetic or pointer steps, and the steps compose additively.
proof fn lemma_merge_pair_equiv(a: SpecStmt, b: SpecStmt)
    requires
        can_merge(a, b),
    ensures
        equiv_seqs(seq![a, b], seq![merge_stmts(a, b)]),
{
    let m = merge_stmts(a, b);
    let ab = seq![a, b];
    assert forall|st: ExecState, fuel: nat|
        st_wf(st) && settled(#[trigger] seq_sem(ab, st, fuel)) implies seq_sem(
        seq![m],
        st,
        fuel,
    ) == seq_sem(ab, st, fuel) by {
        lemma_seq_sem_pair(a, b, st, fuel);
        lemma_seq_sem_singleton(m, st, fuel);
        match (a.kind, b.kind) {
            (SpecKind::Add(o1, n1), SpecKind::Add(o2, n2)) => {
                lemma_add_at_twice(st, o1 as int, n1 as int, n2 as int);
            },
            (SpecKind::Sub(o1, n1), SpecKind::Sub(o2, n2)) => {
                lemma_add_at_twice(st, o1 as int, -(n1 as int), -(n2 as int));
            },
            (SpecKind::Right(n1), SpecKind::Right(n2)) => {
                lemma_stmt_sem_wf(a, st, fuel);
                lemma_move_ptr_twice(st, n1 as int, n2 as int);
            },
            (SpecKind::Left(n1), SpecKind::Left(n2)) => {
                lemma_stmt_sem_wf(a, st, fuel);
                lemma_move_ptr_twice(st, -(n1 as int), -(n2 as int));
            },
            _ => {},
        }
    }
}

/// Grouping preserves behaviour.
pub proof fn lemma_group_equiv(ss: Seq<SpecStmt>)
    ensures
        equiv_seqs(ss, group_spec(ss)),
    decreases ss,
{
    if ss.len() == 0 {
    } else {
        let dl = ss.drop_last();
        let x = ss.last();
        let gx = group_stmt(x);
        lemma_group_equiv(dl);
        lemma_group_stmt_equiv(x);
        // ss == dl + [x]  ~  group_spec(dl) + [gx]
        assert(ss =~= dl + seq![x]);
        lemma_equiv_append(dl, group_spec(dl), seq![x], seq![gx]);
        let g = group_spec(dl);
        if g.len() > 0 && can_merge(g.last(), gx) {
            lemma_merge_pair_equiv(g.last(), gx);
            assert(g + seq![gx] =~= g.drop_last() + seq![g.last(), gx] + Seq::<SpecStmt>::empty());
            assert(group_spec(ss) =~= g.drop_last() + seq![merge_stmts(g.last(), gx)]
                + Seq::<SpecStmt>::empty());
            lemma_equiv_replace(
                g.drop_last(),
                seq![g.last(), gx],
                seq![merge_stmts(g.last(), gx)],
                Seq::<SpecStmt>::empty(),
            );
            lemma_equiv_trans(ss, g + seq![gx], group_spec(ss));
        } else {
            assert(group_spec(ss) =~= g + seq![gx]);
            lemma_equiv_trans(ss, g + seq![gx], group_spec(ss));
        }
    }
}

/// Grouping a loop body preserves the loop's behaviour.
proof fn lemma_group_stmt_equiv(s: SpecStmt)
    ensures
        equiv_seqs(seq![s], seq![group_stmt(s)]),
    decreases s,
{
    match s.kind {
        SpecKind::Loop(b) => {
            lemma_group_equiv(b);
            lemma_equiv_loop(b, group_spec(b), s.span, s.span);
        },
        _ => {
            lemma_equiv_refl(seq![s]);
        },
    }
}

/// A fully grouped sequence: no two adjacent statements form one run, and
/// every loop body is fully grouped too.
pub open spec fn grouped(ss: Seq<SpecStmt>) -> bool
    decreases ss,
{
    if ss.len() == 0 {
        true
    } else {
        &&& grouped(ss.drop_last())
        &&& (ss.len() >= 2 ==> !can_merge(ss[ss.len() - 2], ss.last()))
        &&& match ss.last().kind {
            SpecKind::Loop(b) => grouped(b),
            _ => true,
        }
    }
}

/// Extending a run never makes it mergeable with what it would not merge
/// with before.
proof fn lemma_merge_still_blocked(p: SpecStmt, q: SpecStmt, x: SpecStmt)
    requires
        !can_merge(p, q),
        can_merge(q, x),
    ensures
        !can_merge(p, merge_stmts(q, x)),
{
}

/// Grouping leaves a sequence fully grouped.
pub proof fn lemma_group_spec_grouped(ss: Seq<SpecStmt>)
    ensures
        grouped(group_spec(ss)),
    decreases ss,
{
    if ss.len() > 0 {
        let dl = ss.drop_last();
        let x = ss.last();
        let gx = group_stmt(x);
        lemma_group_spec_grouped(dl);
        let g = group_spec(dl);
        lemma_group_stmt_grouped(x);
        if g.len() > 0 && can_merge(g.last(), gx) {
            let merged = merge_stmts(g.last(), gx);
            let r = g.drop_last().push(merged);
            assert(r.drop_last() =~= g.drop_last());
            if g.len() >= 2 {
                lemma_merge_still_blocked(g[g.len() - 2], g.last(), gx);
                assert(r[r.len() - 2] == g[g.len() - 2]);
            }
            assert(grouped(r));
        } else {
            let r = g.push(gx);
            assert(r.drop_last() =~= g);
            assert(r.last() == gx);
            if g.len() >= 1 {
                assert(r[r.len() - 2] == g.last());
            }
            assert(grouped(r));
        }
    }
}

/// Grouping leaves a statement's loop body fully grouped.
proof fn lemma_group_stmt_grouped(s: SpecStmt)
    ensures
        match group_stmt(s).kind {
            SpecKind::Loop(b) => grouped(b),
            _ => true,
        },
    decreases s,
{
    match s.kind {
        SpecKind::Loop(b) => {
            lemma_group_spec_grouped(b);
        },
        _ => {},
    }
}

/// Grouping a fully grouped sequence changes nothing.
pub proof fn lemma_group_spec_of_grouped(ss: Seq<SpecStmt>)
    requires
        grouped(ss),
    ensures
        group_spec(ss) == ss,
    decreases ss,
{
    if ss.len() > 0 {
        let dl = ss.drop_last();
        let x = ss.last();
        lemma_group_spec_of_grouped(dl);
        lemma_group_stmt_of_grouped(x);
        if dl.len() > 0 {
            assert(ss[ss.len() - 2] == dl.last());
            assert(!can_merge(dl.last(), x));
        }
        assert(group_spec(ss) =~= ss);
    }
}

proof fn lemma_group_stmt_of_grouped(s: SpecStmt)
    requires
        match s.kind {
            SpecKind::Loop(b) => grouped(b),
            _ => true,
        },
    ensures
        group_stmt(s) == s,
    decreases s,
{
    match s.kind {
        SpecKind::Loop(b) => {
            lemma_group_spec_of_grouped(b);
        },
        _ => {},
    }
}

/// Grouping is idempotent: grouping an already grouped sequence is the
/// identity.
pub proof fn lemma_group_idempotent(ss: Seq<SpecStmt>)
    ensures
        group_spec(group_spec(ss)) == group_spec(ss),
{
    lemma_group_spec_grouped(ss);
    lemma_group_spec_of_grouped(group_spec(ss));
}

/// A loop whose whole body subtracts from the current cell halts, when it
/// halts, with that cell cleared and nothing else changed.
proof fn lemma_zero_loop_run(n: u8, isp: Span, lsp: Span, st: ExecState, fuel: nat)
    requires
        st_wf(st),
    ensures
        ({
            let l = SpecStmt {
                kind: SpecKind::Loop(seq![SpecStmt { kind: SpecKind::Sub(0, n), span: isp }]),
                span: lsp,
            };
            settled(stmt_sem(l, st, fuel)) ==> stmt_sem(l, st, fuel) == Outcome::Halt(
                set_cell(st, 0),
            )
        }),
    decreases fuel,
{
    let inner = SpecStmt { kind: SpecKind::Sub(0, n), span: isp };
    let l = SpecStmt { kind: SpecKind::Loop(seq![inner]), span: lsp };
    vstd::arithmetic::div_mod::lemma_small_mod(st.ptr as nat, st.tape.len());
    if st.tape[st.ptr] == 0 {
        assert(set_cell(st, 0).tape =~= st.tape);
        assert(set_cell(st, 0) =~= st);
    } else if fuel == 0 {
    } else {
        lemma_seq_sem_singleton(inner, st, (fuel - 1) as nat);
        let st1 = add_at(st, 0, -(n as int));
        assert(seq_sem(seq![inner], st, (fuel - 1) as nat) == Outcome::Halt(st1));
        assert(st_wf(st1) && st1.ptr == st.ptr);
        lemma_zero_loop_run(n, isp, lsp, st1, (fuel - 1) as nat);
        if settled(stmt_sem(l, st, fuel)) {
            assert(stmt_sem(l, st, fuel) == stmt_sem(l, st1, (fuel - 1) as nat));
            assert(set_cell(st1, 0) =~= set_cell(st, 0));
        }
    }
}

/// The cell-clearing idiom: a loop whose body is one subtraction from the
/// current cell refines to writing zero there.
pub proof fn lemma_zero_loop_equiv(n: u8, isp: Span, lsp: Span)
    ensures
        equiv_seqs(
            seq![
                SpecStmt {
                    kind: SpecKind::Loop(seq![SpecStmt { kind: SpecKind::Sub(0, n), span: isp }]),
                    span: lsp,
                },
            ],
            seq![SpecStmt { kind: SpecKind::SetN(0), span: lsp }],
        ),
{
    let l = SpecStmt {
        kind: SpecKind::Loop(seq![SpecStmt { kind: SpecKind::Sub(0, n), span: isp }]),
        span: lsp,
    };
    let z = SpecStmt { kind: SpecKind::SetN(0), span: lsp };
    let ls = seq![l];
    assert forall|st: ExecState, fuel: nat|
        st_wf(st) && settled(#[trigger] seq_sem(ls, st, fuel)) implies seq_sem(seq![z], st, fuel)
        == seq_sem(ls, st, fuel) by {
        lemma_seq_sem_singleton(l, st, fuel);
        lemma_seq_sem_singleton(z, st, fuel);
        lemma_zero_loop_run(n, isp, lsp, st, fuel);
    }
}

/// One iteration of the move-accumulate idiom: subtract one here, add one
/// at `off`, in either order.
proof fn lemma_move_add_step(st: ExecState, off: int)
    requires
        st_wf(st),
        st.tape[st.ptr] != 0,
    ensures
        move_add(add_at(add_at(st, 0, -1), off, 1), off) =~= move_add(st, off),
{
    let m = st.tape.len() as int;
    let p = st.ptr;
    let q = cell_idx(st, off);
    vstd::arithmetic::div_mod::lemma_small_mod(p as nat, st.tape.len());
    vstd::arithmetic::div_mod::lemma_mod_bound(p + off, m);
    let st1 = add_at(add_at(st, 0, -1), off, 1);
    assert(st1.ptr == p && st1.tape.len() == st.tape.len());
    let t = st.tape[p] as int;
    if q == p {
        // the body has no net effect on the one cell it touches
        assert(st1.tape[p] as int == ((t - 1 + 1) % 256 + 256) % 256) by {
            lemma_mod_shift_unit(t - 1, 1);
        }
        assert(st1.tape[p] == st.tape[p]) by {
            vstd::arithmetic::div_mod::lemma_small_mod(t as nat, 256);
            vstd::arithmetic::div_mod::lemma_mod_add_multiples_vanish(t % 256, 256);
            vstd::arithmetic::div_mod::lemma_mod_twice(t, 256);
        }
        assert(st1.tape =~= st.tape);
        assert(st1 =~= st);
    } else {
        // cell p went down one, cell q up one; clearing p and moving its
        // remaining value restores the same totals
        let w = st.tape[q] as int;
        assert(st1.tape[p] as int == ((t - 1) % 256 + 256) % 256);
        assert(st1.tape[q] as int == ((w + 1) % 256 + 256) % 256);
        let a = move_add(st1, off);
        let b = move_add(st, off);
        assert(cell_idx(set_cell(st1, 0), off) == q);
        assert(cell_idx(set_cell(st, 0), off) == q);
        assert(set_cell(st1, 0).tape[q] == st1.tape[q]);
        assert(set_cell(st, 0).tape[q] == st.tape[q]);
        assert(a.tape[q] as int == ((st1.tape[q] + st1.tape[p]) % 256 + 256) % 256);
        assert(b.tape[q] as int == ((w + t) % 256 + 256) % 256);
        assert(((st1.tape[q] + st1.tape[p]) % 256 + 256) % 256 == ((w + t) % 256 + 256) % 256) by {
            lemma_mod_shift_unit(w + 1, ((t - 1) % 256 + 256) % 256);
            lemma_mod_shift_unit(t - 1, w + 1);
        }
        assert(a.tape[p] == 0u8 && b.tape[p] == 0u8);
        assert(a.tape =~= b.tape);
        assert(a =~= b);
    }
}

/// A loop whose body moves one unit per iteration halts, when it halts,
/// exactly as the single move-accumulate statement.
proof fn lemma_move_add_loop_run(
    body: Seq<SpecStmt>,
    off: i32,
    lsp: Span,
    st: ExecState,
    fuel: nat,
)
    requires
        st_wf(st),
        forall|st2: ExecState|
            st_wf(st2) && st2.tape[st2.ptr] != 0 ==> forall|f: nat|
                #[trigger] seq_sem(body, st2, f) == Outcome::Halt(
                    add_at(add_at(st2, 0, -1), off as int, 1),
                ),
    ensures
        ({
            let l = SpecStmt { kind: SpecKind::Loop(body), span: lsp };
            settled(stmt_sem(l, st, fuel)) ==> stmt_sem(l, st, fuel) == Outcome::Halt(
                move_add(st, off as int),
            )
        }),
    decreases fuel,
{
    let l = SpecStmt { kind: SpecKind::Loop(body), span: lsp };
    vstd::arithmetic::div_mod::lemma_small_mod(st.ptr as nat, st.tape.len());
    if st.tape[st.ptr] == 0 {
        assert(set_cell(st, 0).tape =~= st.tape);
        lemma_add_at_zero(set_cell(st, 0), off as int);
        assert(move_add(st, off as int) =~= st);
    } else if fuel == 0 {
    } else {
        let st1 = add_at(add_at(st, 0, -1), off as int, 1);
        assert(seq_sem(body, st, (fuel - 1) as nat) == Outcome::Halt(st1));
        assert(st_wf(add_at(st, 0, -1))) by {
            vstd::arithmetic::div_mod::lemma_mod_bound(st.ptr, st.tape.len() as int);
        }
        assert(st_wf(st1)) by {
            vstd::arithmetic::div_mod::lemma_mod_bound(st.ptr, st.tape.len() as int);
        }
        lemma_move_add_loop_run(body, off, lsp, st1, (fuel - 1) as nat);
        if settled(stmt_sem(l, st, fuel)) {
            assert(stmt_sem(l, st, fuel) == stmt_sem(l, st1, (fuel - 1) as nat));
            lemma_move_add_step(st, off as int);
        }
    }
}

/// The move-accumulate idiom: a loop whose body subtracts one from the
/// current cell and adds one at `off`, in either order, refines to the
/// single move-accumulate statement.
proof fn lemma_move_add_equiv(
    off: i32,
    sp1: Span,
    sp2: Span,
    lsp: Span,
    sub_first: bool,
)
    ensures
        ({
            let body = if sub_first {
                seq![
                    SpecStmt { kind: SpecKind::Sub(0, 1), span: sp1 },
                    SpecStmt { kind: SpecKind::Add(off, 1), span: sp2 },
                ]
            } else {
                seq![
                    SpecStmt { kind: SpecKind::Add(off, 1), span: sp1 },
                    SpecStmt { kind: SpecKind::Sub(0, 1), span: sp2 },
                ]
            };
            equiv_seqs(
                seq![SpecStmt { kind: SpecKind::Loop(body), span: lsp }],
                seq![SpecStmt { kind: SpecKind::MoveAddTo(off), span: lsp }],
            )
        }),
{
    let body = if sub_first {
        seq![
            SpecStmt { kind: SpecKind::Sub(0, 1), span: sp1 },
            SpecStmt { kind: SpecKind::Add(off, 1), span: sp2 },
        ]
    } else {
        seq![
            SpecStmt { kind: SpecKind::Add(off, 1), span: sp1 },
            SpecStmt { kind: SpecKind::Sub(0, 1), span: sp2 },
        ]
    };
    let l = SpecStmt { kind: SpecKind::Loop(body), span: lsp };
    let mv = SpecStmt { kind: SpecKind::MoveAddTo(off), span: lsp };
    let ls = seq![l];
    assert forall|st2: ExecState, f: nat|
        st_wf(st2) && st2.tape[st2.ptr] != 0 implies #[trigger] seq_sem(body, st2, f)
        == Outcome::Halt(add_at(add_at(st2, 0, -1), off as int, 1)) by {
        lemma_seq_sem_pair(body[0], body[1], st2, f);
        if !sub_first {
            lemma_add_at_comm(st2, off as int, 1, 0, -1);
            assert(add_at(add_at(st2, off as int, 1), 0, -1) == add_at(
                add_at(st2, 0, -1),
                off as int,
                1,
            ));
        }
    }
    assert forall|st: ExecState, fuel: nat|
        st_wf(st) && settled(#[trigger] seq_sem(ls, st, fuel)) implies seq_sem(seq![mv], st, fuel)
        == seq_sem(ls, st, fuel) by {
        lemma_seq_sem_singleton(l, st, fuel);
        lemma_seq_sem_singleton(mv, st, fuel);
        lemma_move_add_loop_run(body, off, lsp, st, fuel);
    }
}

/// Folding an addition or subtraction into a preceding unconditional write.
proof fn lemma_set_n_equiv(v: u8, d: int, w: u8, sp1: Span, sp2: Span, add: bool, n: u8)
    requires
        d == if add {
            n as int
        } else {
            -(n as int)
        },
        w as int == ((v + d) % 256 + 256) % 256,
    ensures
        ({
            let second = if add {
                SpecStmt { kind: SpecKind::Add(0, n), span: sp2 }
            } else {
                SpecStmt { kind: SpecKind::Sub(0, n), span: sp2 }
            };
            equiv_seqs(
                seq![SpecStmt { kind: SpecKind::SetN(v), span: sp1 }, second],
                seq![SpecStmt { kind: SpecKind::SetN(w), span: merge_span(sp1, sp2) }],
            )
        }),
{
    let first = SpecStmt { kind: SpecKind::SetN(v), span: sp1 };
    let second = if add {
        SpecStmt { kind: SpecKind::Add(0, n), span: sp2 }
    } else {
        SpecStmt { kind: SpecKind::Sub(0, n), span: sp2 }
    };
    let folded = SpecStmt { kind: SpecKind::SetN(w), span: merge_span(sp1, sp2) };
    let pair = seq![first, second];
    assert forall|st: ExecState, fuel: nat|
        st_wf(st) && settled(#[trigger] seq_sem(pair, st, fuel)) implies seq_sem(
        seq![folded],
        st,
        fuel,
    ) == seq_sem(pair, st, fuel) by {
        lemma_seq_sem_pair(first, second, st, fuel);
        lemma_seq_sem_singleton(folded, st, fuel);
        let sta = set_cell(st, v);
        vstd::arithmetic::div_mod::lemma_small_mod(st.ptr as nat, st.tape.len());
        assert(cell_idx(sta, 0) == st.ptr);
        assert(sta.tape[st.ptr] == v);
        assert(add_at(sta, 0, d).tape =~= set_cell(st, w).tape);
        assert(add_at(sta, 0, d) =~= set_cell(st, w));
    }
}

/// Cancelling or netting two opposite pointer moves.
proof fn lemma_cancel_moves_equiv(d1: int, d2: int, s1: SpecStmt, s2: SpecStmt, net: Seq<SpecStmt>)
    requires
        stmt_shape_move(s1, d1),
        stmt_shape_move(s2, d2),
        if d1 + d2 == 0 {
            net.len() == 0
        } else {
            net.len() == 1 && stmt_shape_move(net[0], d1 + d2)
        },
    ensures
        equiv_seqs(seq![s1, s2], net),
{
    let pair = seq![s1, s2];
    assert forall|st: ExecState, fuel: nat|
        st_wf(st) && settled(#[trigger] seq_sem(pair, st, fuel)) implies seq_sem(net, st, fuel)
        == seq_sem(pair, st, fuel) by {
        lemma_seq_sem_pair(s1, s2, st, fuel);
        lemma_move_ptr_twice(st, d1, d2);
        if d1 + d2 == 0 {
            lemma_move_ptr_zero(st);
            assert(net =~= Seq::<SpecStmt>::empty());
        } else {
            assert(net =~= seq![net[0]]);
            lemma_seq_sem_singleton(net[0], st, fuel);
        }
    }
}

/// A statement that moves the pointer by exactly `d`.
pub open spec fn stmt_shape_move(s: SpecStmt, d: int) -> bool {
    match s.kind {
        SpecKind::Right(n) => d == n,
        SpecKind::Left(n) => d == -(n as int),
        _ => false,
    }
}

/// A statement that adds exactly `d` at offset `o`.
pub open spec fn stmt_shape_arith(s: SpecStmt, o: int, d: int) -> bool {
    match s.kind {
        SpecKind::Add(o1, n) => o == o1 && d == n,
        SpecKind::Sub(o1, n) => o == o1 && d == -(n as int),
        _ => false,
    }
}

/// Cancelling or netting two opposite arithmetic steps at one offset.
proof fn lemma_cancel_arith_equiv(
    o: int,
    d1: int,
    d2: int,
    s1: SpecStmt,
    s2: SpecStmt,
    net: Seq<SpecStmt>,
)
    requires
        stmt_shape_arith(s1, o, d1),
        stmt_shape_arith(s2, o, d2),
        if d1 + d2 == 0 {
            net.len() == 0
        } else {
            net.len() == 1 && stmt_shape_arith(net[0], o, d1 + d2)
        },
    ensures
        equiv_seqs(seq![s1, s2], net),
{
    let pair = seq![s1, s2];
    assert forall|st: ExecState, fuel: nat|
        st_wf(st) && settled(#[trigger] seq_sem(pair, st, fuel)) implies seq_sem(net, st, fuel)
        == seq_sem(pair, st, fuel) by {
        lemma_seq_sem_pair(s1, s2, st, fuel);
        lemma_add_at_twice(st, o, d1, d2);
        if d1 + d2 == 0 {
            lemma_add_at_zero(st, o);
            assert(net =~= Seq::<SpecStmt>::empty());
        } else {
            assert(net =~= seq![net[0]]);
            lemma_seq_sem_singleton(net[0], st, fuel);
        }
    }
}

/// Fusing a move, an arithmetic step, and the inverse move into one
/// offset-addressed step.
proof fn lemma_offset_fuse_equiv(d: int, a: int, s1: SpecStmt, s2: SpecStmt, s3: SpecStmt, fused: SpecStmt)
    requires
        stmt_shape_move(s1, d),
        stmt_shape_arith(s2, 0, a),
        stmt_shape_move(s3, -d),
        stmt_shape_arith(fused, d, a),
    ensures
        equiv_seqs(seq![s1, s2, s3], fused_singleton(fused)),
{
    let triple = seq![s1, s2, s3];
    assert forall|st: ExecState, fuel: nat|
        st_wf(st) && settled(#[trigger] seq_sem(triple, st, fuel)) implies seq_sem(
        fused_singleton(fused),
        st,
        fuel,
    ) == seq_sem(triple, st, fuel) by {
        lemma_seq_sem_triple(s1, s2, s3, st, fuel);
        lemma_seq_sem_singleton(fused, st, fuel);
        let m = st.tape.len() as int;
        let p = st.ptr;
        let sta = move_ptr(st, d);
        vstd::arithmetic::div_mod::lemma_mod_bound(p + d, m);
        vstd::arithmetic::div_mod::lemma_small_mod(sta.ptr as nat, st.tape.len());
        let stb = add_at(sta, 0, a);
        assert(cell_idx(sta, 0) == sta.ptr);
        let stc = move_ptr(stb, -d);
        assert(stb.ptr == sta.ptr);
        assert(stc.ptr == ((p + d) % m + (-d)) % m);
        assert(stc.ptr == p) by {
            vstd::arithmetic::div_mod::lemma_add_mod_noop(p + d, -d, m);
            vstd::arithmetic::div_mod::lemma_add_mod_noop((p + d) % m, -d, m);
            vstd::arithmetic::div_mod::lemma_mod_twice(p + d, m);
            vstd::arithmetic::div_mod::lemma_small_mod(p as nat, st.tape.len());
        }
        assert(cell_idx(st, d) == sta.ptr);
        assert(stc.tape =~= add_at(st, d, a).tape);
        assert(stc =~= add_at(st, d, a));
    }
}

/// The singleton sequence of one fused statement.
pub open spec fn fused_singleton(s: SpecStmt) -> Seq<SpecStmt> {
    seq![s]
}

/// The run length a counted primitive carries; zero for anything else.
pub open spec fn run_count(s: SpecStmt) -> int {
    match s.kind {
        SpecKind::Add(_, c) => c as int,
        SpecKind::Sub(_, c) => c as int,
        SpecKind::Right(c) => c as int,
        SpecKind::Left(c) => c as int,
        _ => 0,
    }
}

/// The total of all run lengths.
pub open spec fn counts_total(g: Seq<SpecStmt>) -> int
    decreases g,
{
    if g.len() == 0 {
        0
    } else {
        counts_total(g.drop_last()) + run_count(g.last())
    }
}

/// Spans tile the byte range from `s0` on: each statement's span starts
/// where the previous one ended and is as long as its run.
pub open spec fn spans_tile(g: Seq<SpecStmt>, s0: int) -> bool
    decreases g,
{
    if g.len() == 0 {
        true
    } else {
        &&& spans_tile(g.drop_last(), s0)
        &&& g.last().span.start == s0 + counts_total(g.drop_last())
        &&& g.last().span.len == run_count(g.last())
    }
}

/// Whether `j` continues the run of the unit primitive `k` with count `c`.
pub open spec fn same_run(k: SpecKind, j: SpecKind, c: int) -> bool {
    match (k, j) {
        (SpecKind::Add(o1, _), SpecKind::Add(o2, c2)) => o1 == o2 && c2 == c,
        (SpecKind::Sub(o1, _), SpecKind::Sub(o2, c2)) => o1 == o2 && c2 == c,
        (SpecKind::Right(_), SpecKind::Right(c2)) => c2 == c,
        (SpecKind::Left(_), SpecKind::Left(c2)) => c2 == c,
        _ => false,
    }
}

/// Every statement is a counted run of the unit primitive `k`, with its
/// count between 1 and the saturation bound.
pub open spec fn runs_of(g: Seq<SpecStmt>, k: SpecKind) -> bool
    decreases g,
{
    if g.len() == 0 {
        true
    } else {
        &&& runs_of(g.drop_last(), k)
        &&& same_run(k, g.last().kind, run_count(g.last()))
        &&& 1 <= run_count(g.last()) <= 255
    }
}

/// A single-step primitive: what one source character builds to.
pub open spec fn unit_prim(k: SpecKind) -> bool {
    match k {
        SpecKind::Add(_, c) => c == 1,
        SpecKind::Sub(_, c) => c == 1,
        SpecKind::Right(c) => c == 1,
        SpecKind::Left(c) => c == 1,
        _ => false,
    }
}

/// `n` repetitions of the unit primitive `k`, one source byte each,
/// starting at byte `s0`.
pub open spec fn uniform_run(n: nat, k: SpecKind, s0: int) -> Seq<SpecStmt> {
    Seq::new(n, |i: int| SpecStmt { kind: k, span: Span { start: (s0 + i) as u32, len: 1 } })
}

/// Grouping a run of `n` identical unit primitives is exact: the grouped
/// counts are runs of the same primitive, each between 1 and the
/// saturation bound, their counts sum to `n`, and their merged spans tile
/// exactly the `n` source bytes the run came from.
pub proof fn lemma_group_uniform_run(n: nat, k: SpecKind, s0: int)
    requires
        unit_prim(k),
        0 <= s0,
        s0 + n <= u32::MAX,
    ensures
        counts_total(group_spec(uniform_run(n, k, s0))) == n,
        spans_tile(group_spec(uniform_run(n, k, s0)), s0),
        runs_of(group_spec(uniform_run(n, k, s0)), k),
    decreases n,
{
    if n == 0 {
        assert(uniform_run(0, k, s0) =~= Seq::<SpecStmt>::empty());
    } else {
        lemma_group_uniform_run((n - 1) as nat, k, s0);
        let u = uniform_run(n, k, s0);
        let u1 = uniform_run((n - 1) as nat, k, s0);
        assert(u.drop_last() =~= u1);
        let x = u.last();
        assert(x.kind == k && x.span.start == s0 + n - 1 && x.span.len == 1);
        assert(group_stmt(x) == x);
        let g = group_spec(u1);
        assert(group_spec(u) == group_push(g, x));
        if g.len() > 0 && can_merge(g.last(), x) {
            let last = g.last();
            let m = merge_stmts(last, x);
            assert(counts_total(g.drop_last()) + run_count(last) == n - 1);
            assert(last.span.start == s0 + counts_total(g.drop_last()));
            assert(last.span.len == run_count(last));
            // no wrapping: everything stays inside the byte range
            assert(x.span.start + x.span.len == s0 + n);
            assert(m.span.start == last.span.start);
            assert(m.span.len == x.span.start + x.span.len - last.span.start);
            assert(run_count(m) == run_count(last) + 1);
            let r = g.drop_last().push(m);
            assert(r.drop_last() =~= g.drop_last());
            assert(counts_total(r) == n);
            assert(spans_tile(r, s0));
            assert(runs_of(r, k));
        } else {
            let r = g.push(x);
            assert(r.drop_last() =~= g);
            assert(counts_total(r) == n);
            assert(spans_tile(r, s0));
            assert(runs_of(r, k));
        }
    }
}

/// Whether two statements continue one run, decided on the executable
/// representation.
fn can_merge_exec(a: &Stmt, b: &Stmt) -> (r: bool)
    ensures
        r == can_merge(deep(*a), deep(*b)),
{
    match (&a.kind, &b.kind) {
        (StmtKind::Add(o1, n1), StmtKind::Add(o2, n2)) => *o1 == *o2 && *n1 as u16 + *n2 as u16
            <= 255,
        (StmtKind::Sub(o1, n1), StmtKind::Sub(o2, n2)) => *o1 == *o2 && *n1 as u16 + *n2 as u16
            <= 255,
        (StmtKind::Right(n1), StmtKind::Right(n2)) => *n1 <= 255 && *n2 <= 255 - *n1,
        (StmtKind::Left(n1), StmtKind::Left(n2)) => *n1 <= 255 && *n2 <= 255 - *n1,
        _ => false,
    }
}

/// Fold a mergeable pair into its single run.
fn merge_exec(a: Stmt, b: Stmt) -> (r: Stmt)
    requires
        can_merge(deep(a), deep(b)),
    ensures
        deep(r) == merge_stmts(deep(a), deep(b)),
{
    let span = Span {
        start: a.span.start,
        len: b.span.start.wrapping_add(b.span.len).wrapping_sub(a.span.start),
    };
    match (a.kind, b.kind) {
        (StmtKind::Add(o1, n1), StmtKind::Add(_, n2)) => Stmt {
            kind: StmtKind::Add(o1, n1 + n2),
            span,
        },
        (StmtKind::Sub(o1, n1), StmtKind::Sub(_, n2)) => Stmt {
            kind: StmtKind::Sub(o1, n1 + n2),
            span,
        },
        (StmtKind::Right(n1), StmtKind::Right(n2)) => Stmt {
            kind: StmtKind::Right(n1 + n2),
            span,
        },
        (StmtKind::Left(n1), StmtKind::Left(n2)) => Stmt { kind: StmtKind::Left(n1 + n2), span },
        _ => {
            proof {
                assert(false);
            }
            Stmt { kind: StmtKind::Out, span }
        },
    }
}

/// Group one statement sequence, loop bodies first.
fn group_vec(stmts: &Vec<Stmt>) -> (r: Vec<Stmt>)
    ensures
        deep_seq(r@) == group_spec(deep_seq(stmts@)),
    decreases stmts,
{
    let mut out: Vec<Stmt> = Vec::new();
    let n = stmts.len();
    for i in 0..n
        invariant
            n == stmts.len(),
            deep_seq(out@) == group_spec(deep_seq(stmts@.take(i as int))),
    {
        let s = &stmts[i];
        let x: Stmt = match &s.kind {
            StmtKind::Add(o, v) => Stmt { kind: StmtKind::Add(*o, *v), span: s.span },
            StmtKind::Sub(o, v) => Stmt { kind: StmtKind::Sub(*o, *v), span: s.span },
            StmtKind::MoveAddTo { offset } => Stmt {
                kind: StmtKind::MoveAddTo { offset: *offset },
                span: s.span,
            },
            StmtKind::Right(v) => Stmt { kind: StmtKind::Right(*v), span: s.span },
            StmtKind::Left(v) => Stmt { kind: StmtKind::Left(*v), span: s.span },
            StmtKind::Loop(h) => Stmt {
                kind: StmtKind::Loop(Hir { stmts: group_vec(&h.stmts) }),
                span: s.span,
            },
            StmtKind::Out => Stmt { kind: StmtKind::Out, span: s.span },
            StmtKind::In => Stmt { kind: StmtKind::In, span: s.span },
            StmtKind::SetN(v) => Stmt { kind: StmtKind::SetN(*v), span: s.span },
        };
        proof {
            assert(deep(x) == group_stmt(deep(stmts@[i as int])));
        }
        let ghost gx = deep(x);
        let ghost g = deep_seq(out@);
        let merge_last = if out.len() > 0 {
            can_merge_exec(&out[out.len() - 1], &x)
        } else {
            false
        };
        proof {
            if out@.len() > 0 {
                assert(deep_seq(out@).last() == deep(out@.last()));
                assert(deep_seq(out@).len() == out@.len()) by {
                    crate::semantics::lemma_deep_seq_len(out@);
                }
                assert(out@[out@.len() - 1] == out@.last());
            }
        }
        if merge_last {
            let prev = out.pop().unwrap();
            proof {
                assert(deep_seq(out@) =~= g.drop_last());
            }
            let merged = merge_exec(prev, x);
            let ghost before_push = out@;
            out.push(merged);
            proof {
                lemma_deep_seq_push(before_push, merged);
            }
        } else {
            let ghost before_push = out@;
            out.push(x);
            proof {
                lemma_deep_seq_push(before_push, x);
            }
        }
        proof {
            let t1 = stmts@.take(i + 1);
            assert(t1.drop_last() =~= stmts@.take(i as int));
            assert(t1.last() == stmts@[i as int]);
            lemma_deep_seq_push(Seq::<Stmt>::empty(), x);
            assert(deep_seq(t1).drop_last() =~= deep_seq(t1.drop_last())) by {
                assert(deep_seq(t1) == deep_seq(t1.drop_last()).push(deep(t1.last())));
            }
            assert(deep_seq(t1).last() == deep(t1.last()));
        }
    }
    proof {
        assert(stmts@.take(n as int) =~= stmts@);
    }
    out
}

/// Extending refinement one statement at a time.
proof fn lemma_step_extend(a: Seq<SpecStmt>, b: Seq<SpecStmt>, x: SpecStmt, y: SpecStmt)
    requires
        equiv_seqs(a, b),
        equiv_seqs(seq![x], seq![y]),
    ensures
        equiv_seqs(a.push(x), b.push(y)),
{
    lemma_equiv_append(a, b, seq![x], seq![y]);
    assert(a.push(x) =~= a + seq![x]);
    assert(b.push(y) =~= b + seq![y]);
}

/// The `take(i + 1)` step: one more statement of the input.
proof fn lemma_take_step(v: Seq<Stmt>, i: int)
    requires
        0 <= i < v.len(),
    ensures
        deep_seq(v.take(i + 1)) == deep_seq(v.take(i)).push(deep(v[i])),
{
    let t1 = v.take(i + 1);
    assert(t1.drop_last() =~= v.take(i));
    assert(t1.last() == v[i]);
}

/// Replace the grown sequence's last statement pair by one statement.
proof fn lemma_fold_last_two(o: Seq<SpecStmt>, m: SpecStmt)
    requires
        o.len() >= 2,
        equiv_seqs(seq![o[o.len() - 2], o[o.len() - 1]], seq![m]),
    ensures
        equiv_seqs(o, o.take(o.len() - 2).push(m)),
{
    let p = o.take(o.len() - 2);
    assert(o =~= p + seq![o[o.len() - 2], o[o.len() - 1]] + Seq::<SpecStmt>::empty());
    assert(p.push(m) =~= p + seq![m] + Seq::<SpecStmt>::empty());
    lemma_equiv_replace(p, seq![o[o.len() - 2], o[o.len() - 1]], seq![m], Seq::<SpecStmt>::empty());
}

/// Drop the grown sequence's last statement pair.
proof fn lemma_drop_last_two(o: Seq<SpecStmt>)
    requires
        o.len() >= 2,
        equiv_seqs(seq![o[o.len() - 2], o[o.len() - 1]], Seq::<SpecStmt>::empty()),
    ensures
        equiv_seqs(o, o.take(o.len() - 2)),
{
    let p = o.take(o.len() - 2);
    assert(o =~= p + seq![o[o.len() - 2], o[o.len() - 1]] + Seq::<SpecStmt>::empty());
    assert(p =~= p + Seq::<SpecStmt>::empty() + Seq::<SpecStmt>::empty());
    lemma_equiv_replace(
        p,
        seq![o[o.len() - 2], o[o.len() - 1]],
        Seq::<SpecStmt>::empty(),
        Seq::<SpecStmt>::empty(),
    );
}

/// Replace the grown sequence's last statement triple by one statement.
proof fn lemma_fold_last_three(o: Seq<SpecStmt>, m: SpecStmt)
    requires
        o.len() >= 3,
        equiv_seqs(seq![o[o.len() - 3], o[o.len() - 2], o[o.len() - 1]], seq![m]),
    ensures
        equiv_seqs(o, o.take(o.len() - 3).push(m)),
{
    let p = o.take(o.len() - 3);
    assert(o =~= p + seq![o[o.len() - 3], o[o.len() - 2], o[o.len() - 1]]
        + Seq::<SpecStmt>::empty());
    assert(p.push(m) =~= p + seq![m] + Seq::<SpecStmt>::empty());
    lemma_equiv_replace(
        p,
        seq![o[o.len() - 3], o[o.len() - 2], o[o.len() - 1]],
        seq![m],
        Seq::<SpecStmt>::empty(),
    );
}

/// Whether a loop body is the cell-clearing idiom: exactly one
/// subtraction at the current cell.
pub open spec fn is_clear_body(b: Seq<SpecStmt>) -> bool {
    b.len() == 1 && match b[0].kind {
        SpecKind::Sub(o, _) => o == 0,
        _ => false,
    }
}

/// The clear-loop rewrite of one statement: a loop whose whole body
/// subtracts at the current cell becomes an unconditional write of zero
/// under the loop's span; any other loop is rewritten recursively; the
/// rest is unchanged.
pub open spec fn set_null_stmt(s: SpecStmt) -> SpecStmt
    decreases s,
{
    match s.kind {
        SpecKind::Loop(b) => if is_clear_body(b) {
            SpecStmt { kind: SpecKind::SetN(0), span: s.span }
        } else {
            SpecStmt { kind: SpecKind::Loop(set_null_spec(b)), span: s.span }
        },
        _ => s,
    }
}

pub open spec fn set_null_spec(ss: Seq<SpecStmt>) -> Seq<SpecStmt>
    decreases ss,
{
    if ss.len() == 0 {
        Seq::empty()
    } else {
        set_null_spec(ss.drop_last()).push(set_null_stmt(ss.last()))
    }
}

/// The move-accumulate body the rewrite detects, and the offset it moves
/// to: subtract one here and add one at a fixed offset, in either order.
pub open spec fn move_add_body_offset(b: Seq<SpecStmt>) -> Option<i32> {
    if b.len() == 2 {
        match (b[0].kind, b[1].kind) {
            (SpecKind::Sub(0, 1), SpecKind::Add(off, 1)) => Some(off),
            (SpecKind::Add(off, 1), SpecKind::Sub(0, 1)) => Some(off),
            _ => None,
        }
    } else {
        None
    }
}

/// The move-accumulate rewrite of one statement.
pub open spec fn move_add_stmt(s: SpecStmt) -> SpecStmt
    decreases s,
{
    match s.kind {
        SpecKind::Loop(b) => match move_add_body_offset(b) {
            Some(off) => SpecStmt { kind: SpecKind::MoveAddTo(off), span: s.span },
            None => SpecStmt { kind: SpecKind::Loop(move_add_spec(b)), span: s.span },
        },
        _ => s,
    }
}

pub open spec fn move_add_spec(ss: Seq<SpecStmt>) -> Seq<SpecStmt>
    decreases ss,
{
    if ss.len() == 0 {
        Seq::empty()
    } else {
        move_add_spec(ss.drop_last()).push(move_add_stmt(ss.last()))
    }
}

/// Copy one statement, rewriting its loop body with `inner` if it is a
/// loop. Each pass instantiates `inner` with itself.
///
/// Replace a cell-clearing loop (a body that is exactly one subtraction at
/// the current cell) by an unconditional write of zero; recurse into any
/// other loop.
fn set_null_vec(stmts: &Vec<Stmt>) -> (r: Vec<Stmt>)
    ensures
        deep_seq(r@) == set_null_spec(deep_seq(stmts@)),
        equiv_seqs(deep_seq(stmts@), deep_seq(r@)),
    decreases stmts,
{
    let mut out: Vec<Stmt> = Vec::new();
    let n = stmts.len();
    proof {
        assert(stmts@.take(0int) =~= Seq::<Stmt>::empty());
    }
    for i in 0..n
        invariant
            n == stmts.len(),
            deep_seq(out@) == set_null_spec(deep_seq(stmts@.take(i as int))),
            equiv_seqs(deep_seq(stmts@.take(i as int)), deep_seq(out@)),
    {
        let s = &stmts[i];
        let x: Stmt = match &s.kind {
            StmtKind::Loop(h) => {
                let mut is_clear = false;
                if h.stmts.len() == 1 {
                    if let StmtKind::Sub(0, _) = &h.stmts[0].kind {
                        is_clear = true;
                    }
                }
                if is_clear {
                    proof {
                        let body = deep_seq(h.stmts@);
                        crate::semantics::lemma_deep_seq_len(h.stmts@);
                        crate::semantics::lemma_deep_seq_index(h.stmts@, 0);
                        let inner = deep(h.stmts@[0]);
                        assert(body =~= seq![inner]);
                        assert(is_clear_body(body));
                        let nn = h.stmts@[0].kind->Sub_1;
                        lemma_zero_loop_equiv(nn, h.stmts@[0].span, s.span);
                    }
                    Stmt { kind: StmtKind::SetN(0), span: s.span }
                } else {
                    let new_body = set_null_vec(&h.stmts);
                    proof {
                        crate::semantics::lemma_deep_seq_len(h.stmts@);
                        if h.stmts@.len() == 1 {
                            crate::semantics::lemma_deep_seq_index(h.stmts@, 0);
                        }
                        assert(!is_clear_body(deep_seq(h.stmts@)));
                        lemma_equiv_loop(
                            deep_seq(h.stmts@),
                            deep_seq(new_body@),
                            s.span,
                            s.span,
                        );
                    }
                    Stmt { kind: StmtKind::Loop(Hir { stmts: new_body }), span: s.span }
                }
            },
            StmtKind::Add(o, v) => Stmt { kind: StmtKind::Add(*o, *v), span: s.span },
            StmtKind::Sub(o, v) => Stmt { kind: StmtKind::Sub(*o, *v), span: s.span },
            StmtKind::MoveAddTo { offset } => Stmt {
                kind: StmtKind::MoveAddTo { offset: *offset },
                span: s.span,
            },
            StmtKind::Right(v) => Stmt { kind: StmtKind::Right(*v), span: s.span },
            StmtKind::Left(v) => Stmt { kind: StmtKind::Left(*v), span: s.span },
            StmtKind::Out => Stmt { kind: StmtKind::Out, span: s.span },
            StmtKind::In => Stmt { kind: StmtKind::In, span: s.span },
            StmtKind::SetN(v) => Stmt { kind: StmtKind::SetN(*v), span: s.span },
        };
        proof {
            lemma_equiv_refl(seq![deep(x)]);
            assert(equiv_seqs(seq![deep(stmts@[i as int])], seq![deep(x)]));
            assert(deep(x) == set_null_stmt(deep(stmts@[i as int])));
        }
        let ghost old_out = out@;
        out.push(x);
        proof {
            lemma_deep_seq_push(old_out, x);
            lemma_take_step(stmts@, i as int);
            lemma_step_extend(
                deep_seq(stmts@.take(i as int)),
                deep_seq(old_out),
                deep(stmts@[i as int]),
                deep(x),
            );
            assert(deep_seq(stmts@.take(i + 1)).drop_last() =~= deep_seq(
                stmts@.take(i as int),
            ));
            assert(deep_seq(stmts@.take(i + 1)).last() == deep(stmts@[i as int]));
        }
    }
    proof {
        assert(stmts@.take(n as int) =~= stmts@);
    }
    out
}

/// Replace a cell-clearing loop by `SetN(0)`, recursing into any loop not
/// of that shape: the result is exactly the `set_null_spec` rewriting,
/// and it refines the old program.
pub fn pass_find_set_null(hir: &mut Hir)
    ensures
        deep_seq(final(hir).stmts@) == set_null_spec(deep_seq(old(hir).stmts@)),
        equiv_seqs(deep_seq(old(hir).stmts@), deep_seq(final(hir).stmts@)),
{
    let new_stmts = set_null_vec(&hir.stmts);
    hir.stmts = new_stmts;
}

/// Replace a move-accumulate loop (a body that subtracts one here and adds
/// one at a fixed offset, in either order) by the single `MoveAddTo`
/// statement; recurse into any other loop.
fn move_add_vec(stmts: &Vec<Stmt>) -> (r: Vec<Stmt>)
    ensures
        deep_seq(r@) == move_add_spec(deep_seq(stmts@)),
        equiv_seqs(deep_seq(stmts@), deep_seq(r@)),
    decreases stmts,
{
    let mut out: Vec<Stmt> = Vec::new();
    let n = stmts.len();
    proof {
        assert(stmts@.take(0int) =~= Seq::<Stmt>::empty());
    }
    for i in 0..n
        invariant
            n == stmts.len(),
            deep_seq(out@) == move_add_spec(deep_seq(stmts@.take(i as int))),
            equiv_seqs(deep_seq(stmts@.take(i as int)), deep_seq(out@)),
    {
        let s = &stmts[i];
        let x: Stmt = match &s.kind {
            StmtKind::Loop(h) => {
                let mut fuse: Option<(i32, bool)> = None;
                if h.stmts.len() == 2 {
                    match (&h.stmts[0].kind, &h.stmts[1].kind) {
                        (StmtKind::Sub(0, 1), StmtKind::Add(offset, 1)) => {
                            fuse = Some((*offset, true));
                        },
                        (StmtKind::Add(offset, 1), StmtKind::Sub(0, 1)) => {
                            fuse = Some((*offset, false));
                        },
                        _ => {},
                    }
                }
                if let Some((offset, sub_first)) = fuse {
                    proof {
                        let body = deep_seq(h.stmts@);
                        crate::semantics::lemma_deep_seq_len(h.stmts@);
                        crate::semantics::lemma_deep_seq_index(h.stmts@, 0);
                        crate::semantics::lemma_deep_seq_index(h.stmts@, 1);
                        assert(body =~= seq![deep(h.stmts@[0]), deep(h.stmts@[1])]);
                        assert(move_add_body_offset(body) == Some(offset));
                        lemma_move_add_equiv(
                            offset,
                            h.stmts@[0].span,
                            h.stmts@[1].span,
                            s.span,
                            sub_first,
                        );
                    }
                    Stmt { kind: StmtKind::MoveAddTo { offset }, span: s.span }
                } else {
                    let new_body = move_add_vec(&h.stmts);
                    proof {
                        let body = deep_seq(h.stmts@);
                        crate::semantics::lemma_deep_seq_len(h.stmts@);
                        if h.stmts@.len() == 2 {
                            crate::semantics::lemma_deep_seq_index(h.stmts@, 0);
                            crate::semantics::lemma_deep_seq_index(h.stmts@, 1);
                        }
                        assert(move_add_body_offset(body) is None);
                        lemma_equiv_loop(
                            deep_seq(h.stmts@),
                            deep_seq(new_body@),
                            s.span,
                            s.span,
                        );
                    }
                    Stmt { kind: StmtKind::Loop(Hir { stmts: new_body }), span: s.span }
                }
            },
            StmtKind::Add(o, v) => Stmt { kind: StmtKind::Add(*o, *v), span: s.span },
            StmtKind::Sub(o, v) => Stmt { kind: StmtKind::Sub(*o, *v), span: s.span },
            StmtKind::MoveAddTo { offset } => Stmt {
                kind: StmtKind::MoveAddTo { offset: *offset },
                span: s.span,
            },
            StmtKind::Right(v) => Stmt { kind: StmtKind::Right(*v), span: s.span },
            StmtKind::Left(v) => Stmt { kind: StmtKind::Left(*v), span: s.span },
            StmtKind::Out => Stmt { kind: StmtKind::Out, span: s.span },
            StmtKind::In => Stmt { kind: StmtKind::In, span: s.span },
            StmtKind::SetN(v) => Stmt { kind: StmtKind::SetN(*v), span: s.span },
        };
        proof {
            lemma_equiv_refl(seq![deep(x)]);
            assert(equiv_seqs(seq![deep(stmts@[i as int])], seq![deep(x)]));
            assert(deep(x) == move_add_stmt(deep(stmts@[i as int])));
        }
        let ghost old_out = out@;
        out.push(x);
        proof {
            lemma_deep_seq_push(old_out, x);
            lemma_take_step(stmts@, i as int);
            lemma_step_extend(
                deep_seq(stmts@.take(i as int)),
                deep_seq(old_out),
                deep(stmts@[i as int]),
                deep(x),
            );
            assert(deep_seq(stmts@.take(i + 1)).drop_last() =~= deep_seq(
                stmts@.take(i as int),
            ));
            assert(deep_seq(stmts@.take(i + 1)).last() == deep(stmts@[i as int]));
        }
    }
    proof {
        assert(stmts@.take(n as int) =~= stmts@);
    }
    out
}

/// Replace a move-accumulate loop by `MoveAddTo`, recursing into any loop
/// not of that shape: the result is exactly the `move_add_spec`
/// rewriting, and it refines the old program.
pub fn pass_move_add_to(hir: &mut Hir)
    ensures
        deep_seq(final(hir).stmts@) == move_add_spec(deep_seq(old(hir).stmts@)),
        equiv_seqs(deep_seq(old(hir).stmts@), deep_seq(final(hir).stmts@)),
{
    let new_stmts = move_add_vec(&hir.stmts);
    hir.stmts = new_stmts;
}

/// One fold step of the write-folding rewrite: append the statement,
/// then, when the two-statement window ending at it starts at or after
/// the frontier, collapse an unconditional write followed by arithmetic
/// on the current cell into one write under the covering span. After a
/// fold the frontier moves to the folded statement, so it can only take
/// part in later windows as their first element.
pub open spec fn set_n_push(acc: (Seq<SpecStmt>, int), x: SpecStmt) -> (Seq<SpecStmt>, int) {
    let out1 = acc.0.push(x);
    let fr = acc.1;
    if out1.len() >= 2 && out1.len() - 2 >= fr {
        let a = out1[out1.len() - 2];
        match (a.kind, x.kind) {
            (SpecKind::SetN(v), SpecKind::Add(o, m)) => if o == 0 {
                (
                    out1.take(out1.len() - 2).push(
                        SpecStmt {
                            kind: SpecKind::SetN(v.wrapping_add(m)),
                            span: merge_span(a.span, x.span),
                        },
                    ),
                    out1.len() - 2,
                )
            } else {
                (out1, fr)
            },
            (SpecKind::SetN(v), SpecKind::Sub(o, m)) => if o == 0 {
                (
                    out1.take(out1.len() - 2).push(
                        SpecStmt {
                            kind: SpecKind::SetN(v.wrapping_sub(m)),
                            span: merge_span(a.span, x.span),
                        },
                    ),
                    out1.len() - 2,
                )
            } else {
                (out1, fr)
            },
            _ => (out1, fr),
        }
    } else {
        (out1, fr)
    }
}

/// A statement with its loop body (if any) write-folded.
pub open spec fn set_n_stmt(s: SpecStmt) -> SpecStmt
    decreases s, 2int,
{
    match s.kind {
        SpecKind::Loop(b) => SpecStmt { kind: SpecKind::Loop(set_n_spec(b)), span: s.span },
        _ => s,
    }
}

pub open spec fn set_n_fold(ss: Seq<SpecStmt>) -> (Seq<SpecStmt>, int)
    decreases ss, 0int,
{
    if ss.len() == 0 {
        (Seq::empty(), 0)
    } else {
        set_n_push(set_n_fold(ss.drop_last()), set_n_stmt(ss.last()))
    }
}

/// The write-folding rewrite of a statement sequence.
pub open spec fn set_n_spec(ss: Seq<SpecStmt>) -> Seq<SpecStmt>
    decreases ss, 1int,
{
    set_n_fold(ss).0
}

/// Collapse an unconditional write followed by arithmetic on the same cell
/// into a single write, sliding over the sequence left to right and
/// recursing into loop bodies.
fn set_n_vec(stmts: &Vec<Stmt>) -> (r: Vec<Stmt>)
    ensures
        deep_seq(r@) == set_n_spec(deep_seq(stmts@)),
        equiv_seqs(deep_seq(stmts@), deep_seq(r@)),
    decreases stmts,
{
    let mut out: Vec<Stmt> = Vec::new();
    let mut frontier: usize = 0;
    let n = stmts.len();
    proof {
        assert(stmts@.take(0int) =~= Seq::<Stmt>::empty());
    }
    for i in 0..n
        invariant
            n == stmts.len(),
            frontier <= out.len(),
            deep_seq(out@) == set_n_fold(deep_seq(stmts@.take(i as int))).0,
            frontier as int == set_n_fold(deep_seq(stmts@.take(i as int))).1,
            equiv_seqs(deep_seq(stmts@.take(i as int)), deep_seq(out@)),
    {
        let s = &stmts[i];
        let ghost fold_pre = set_n_fold(deep_seq(stmts@.take(i as int)));
        let x: Stmt = match &s.kind {
            StmtKind::Loop(h) => {
                let new_body = set_n_vec(&h.stmts);
                proof {
                    lemma_equiv_loop(deep_seq(h.stmts@), deep_seq(new_body@), s.span, s.span);
                }
                Stmt { kind: StmtKind::Loop(Hir { stmts: new_body }), span: s.span }
            },
            StmtKind::Add(o, v) => Stmt { kind: StmtKind::Add(*o, *v), span: s.span },
            StmtKind::Sub(o, v) => Stmt { kind: StmtKind::Sub(*o, *v), span: s.span },
            StmtKind::MoveAddTo { offset } => Stmt {
                kind: StmtKind::MoveAddTo { offset: *offset },
                span: s.span,
            },
            StmtKind::Right(v) => Stmt { kind: StmtKind::Right(*v), span: s.span },
            StmtKind::Left(v) => Stmt { kind: StmtKind::Left(*v), span: s.span },
            StmtKind::Out => Stmt { kind: StmtKind::Out, span: s.span },
            StmtKind::In => Stmt { kind: StmtKind::In, span: s.span },
            StmtKind::SetN(v) => Stmt { kind: StmtKind::SetN(*v), span: s.span },
        };
        proof {
            lemma_equiv_refl(seq![deep(x)]);
            assert(equiv_seqs(seq![deep(stmts@[i as int])], seq![deep(x)]));
            assert(deep(x) == set_n_stmt(deep(stmts@[i as int])));
        }
        let ghost old_out = out@;
        out.push(x);
        proof {
            lemma_deep_seq_push(old_out, x);
            lemma_take_step(stmts@, i as int);
            lemma_step_extend(
                deep_seq(stmts@.take(i as int)),
                deep_seq(old_out),
                deep(stmts@[i as int]),
                deep(x),
            );
            assert(deep_seq(stmts@.take(i + 1)).drop_last() =~= deep_seq(
                stmts@.take(i as int),
            ));
            assert(deep_seq(stmts@.take(i + 1)).last() == deep(stmts@[i as int]));
            assert(set_n_fold(deep_seq(stmts@.take(i + 1))) == set_n_push(
                fold_pre,
                deep(x),
            ));
            crate::semantics::lemma_deep_seq_len(out@);
        }
        // fold the window ending here, if it starts at or after the frontier
        if out.len() >= 2 && out.len() - 2 >= frontier {
            let merged: Option<Stmt> = {
                let a = &out[out.len() - 2];
                let b = &out[out.len() - 1];
                match (&a.kind, &b.kind) {
                    (StmtKind::SetN(v), StmtKind::Add(0, m)) => Some(
                        Stmt {
                            kind: StmtKind::SetN(v.wrapping_add(*m)),
                            span: merge_span_exec(a.span, b.span),
                        },
                    ),
                    (StmtKind::SetN(v), StmtKind::Sub(0, m)) => Some(
                        Stmt {
                            kind: StmtKind::SetN(v.wrapping_sub(*m)),
                            span: merge_span_exec(a.span, b.span),
                        },
                    ),
                    _ => None,
                }
            };
            if let Some(mstmt) = merged {
                proof {
                    let o = deep_seq(out@);
                    crate::semantics::lemma_deep_seq_len(out@);
                    crate::semantics::lemma_deep_seq_index(out@, out@.len() - 2);
                    crate::semantics::lemma_deep_seq_index(out@, out@.len() - 1);
                    assert(deep(mstmt) == SpecStmt {
                        kind: deep(mstmt).kind,
                        span: merge_span(out@[out@.len() - 2].span, out@[out@.len() - 1].span),
                    });
                    let a = deep(out@[out@.len() - 2]);
                    let b = deep(out@[out@.len() - 1]);
                    let v = a.kind->SetN_0;
                    match b.kind {
                        SpecKind::Add(_, m) => {
                            lemma_wrap_u8_add(v, m);
                            lemma_set_n_equiv(
                                v,
                                m as int,
                                v.wrapping_add(m),
                                a.span,
                                b.span,
                                true,
                                m,
                            );
                        },
                        SpecKind::Sub(_, m) => {
                            lemma_wrap_u8_sub(v, m);
                            lemma_set_n_equiv(
                                v,
                                -(m as int),
                                v.wrapping_sub(m),
                                a.span,
                                b.span,
                                false,
                                m,
                            );
                        },
                        _ => {},
                    }
                    lemma_fold_last_two(o, deep(mstmt));
                }
                let ghost before = out@;
                let _ = out.pop();
                let _ = out.pop();
                out.push(mstmt);
                proof {
                    assert(out@.drop_last() =~= before.take(before.len() - 2));
                    lemma_deep_seq_push(before.take(before.len() - 2), mstmt);
                    assert(deep_seq(before.take(before.len() - 2)) =~= deep_seq(
                        before,
                    ).take(before.len() - 2)) by {
                        lemma_deep_take(before, before.len() - 2);
                    }
                    lemma_equiv_trans(
                        deep_seq(stmts@.take(i + 1)),
                        deep_seq(before),
                        deep_seq(out@),
                    );
                    assert(deep_seq(out@) == set_n_fold(deep_seq(stmts@.take(i + 1))).0);
                }
                frontier = out.len() - 1;
                proof {
                    crate::semantics::lemma_deep_seq_len(out@);
                    assert(frontier as int == set_n_fold(deep_seq(stmts@.take(i + 1))).1);
                }
            } else {
                proof {
                    assert(deep_seq(out@) == set_n_fold(deep_seq(stmts@.take(i + 1))).0);
                }
            }
        }
    }
    proof {
        assert(stmts@.take(n as int) =~= stmts@);
    }
    out
}

/// `deep_seq` commutes with `take`.
proof fn lemma_deep_take(v: Seq<Stmt>, k: int)
    requires
        0 <= k <= v.len(),
    ensures
        deep_seq(v.take(k)) =~= deep_seq(v).take(k),
    decreases v,
{
    crate::semantics::lemma_deep_seq_len(v);
    crate::semantics::lemma_deep_seq_len(v.take(k));
    assert forall|j: int| 0 <= j < k implies deep_seq(v.take(k))[j] == deep_seq(v).take(k)[j] by {
        crate::semantics::lemma_deep_seq_index(v.take(k), j);
        crate::semantics::lemma_deep_seq_index(v, j);
    }
}

/// Collapse an unconditional write followed by same-cell arithmetic into a
/// single write: the result is exactly the `set_n_spec` rewriting, and it
/// refines the old program.
pub fn pass_set_n(hir: &mut Hir)
    ensures
        deep_seq(final(hir).stmts@) == set_n_spec(deep_seq(old(hir).stmts@)),
        equiv_seqs(deep_seq(old(hir).stmts@), deep_seq(final(hir).stmts@)),
{
    let new_stmts = set_n_vec(&hir.stmts);
    hir.stmts = new_stmts;
}

/// What the cancellation window does to an adjacent pair: opposite
/// pointer moves and same-offset opposite arithmetic cancel away
/// (`Some(None)`) or net to a single statement under the covering span
/// (`Some(Some(..))`); any other pair is left alone (`None`).
pub open spec fn cancel_action(a: SpecStmt, b: SpecStmt) -> Option<Option<SpecStmt>> {
    let span = merge_span(a.span, b.span);
    match (a.kind, b.kind) {
        (SpecKind::Right(r), SpecKind::Left(l)) => if r == l {
            Some(None)
        } else if r < l {
            Some(Some(SpecStmt { kind: SpecKind::Left((l - r) as usize), span }))
        } else {
            Some(Some(SpecStmt { kind: SpecKind::Right((r - l) as usize), span }))
        },
        (SpecKind::Left(l), SpecKind::Right(r)) => if r == l {
            Some(None)
        } else if r < l {
            Some(Some(SpecStmt { kind: SpecKind::Left((l - r) as usize), span }))
        } else {
            Some(Some(SpecStmt { kind: SpecKind::Right((r - l) as usize), span }))
        },
        (SpecKind::Add(o1, p), SpecKind::Sub(o2, q)) => if o1 == o2 {
            if p == q {
                Some(None)
            } else if p < q {
                Some(Some(SpecStmt { kind: SpecKind::Sub(o1, (q - p) as u8), span }))
            } else {
                Some(Some(SpecStmt { kind: SpecKind::Add(o1, (p - q) as u8), span }))
            }
        } else {
            None
        },
        (SpecKind::Sub(o2, q), SpecKind::Add(o1, p)) => if o1 == o2 {
            if p == q {
                Some(None)
            } else if p < q {
                Some(Some(SpecStmt { kind: SpecKind::Sub(o1, (q - p) as u8), span }))
            } else {
                Some(Some(SpecStmt { kind: SpecKind::Add(o1, (p - q) as u8), span }))
            }
        } else {
            None
        },
        _ => None,
    }
}

/// One fold step of the cancellation rewrite, with the same frontier
/// discipline as the write-folding rewrite.
pub open spec fn cancel_push(acc: (Seq<SpecStmt>, int), x: SpecStmt) -> (Seq<SpecStmt>, int) {
    let out1 = acc.0.push(x);
    let fr = acc.1;
    if out1.len() >= 2 && out1.len() - 2 >= fr {
        let a = out1[out1.len() - 2];
        match cancel_action(a, x) {
            Some(act) => match act {
                Some(m) => (out1.take(out1.len() - 2).push(m), out1.len() - 2),
                None => (out1.take(out1.len() - 2), out1.len() - 2),
            },
            None => (out1, fr),
        }
    } else {
        (out1, fr)
    }
}

/// A statement with its loop body (if any) cancellation-rewritten.
pub open spec fn cancel_stmt(s: SpecStmt) -> SpecStmt
    decreases s, 2int,
{
    match s.kind {
        SpecKind::Loop(b) => SpecStmt { kind: SpecKind::Loop(cancel_spec(b)), span: s.span },
        _ => s,
    }
}

pub open spec fn cancel_fold(ss: Seq<SpecStmt>) -> (Seq<SpecStmt>, int)
    decreases ss, 0int,
{
    if ss.len() == 0 {
        (Seq::empty(), 0)
    } else {
        cancel_push(cancel_fold(ss.drop_last()), cancel_stmt(ss.last()))
    }
}

/// The cancellation rewrite of a statement sequence.
pub open spec fn cancel_spec(ss: Seq<SpecStmt>) -> Seq<SpecStmt>
    decreases ss, 1int,
{
    cancel_fold(ss).0
}

/// Cancel adjacent opposite pointer moves and adjacent opposite arithmetic
/// on one cell, keeping the net movement or difference, or nothing when
/// they cancel exactly.
fn cancel_vec(stmts: &Vec<Stmt>) -> (r: Vec<Stmt>)
    ensures
        deep_seq(r@) == cancel_spec(deep_seq(stmts@)),
        equiv_seqs(deep_seq(stmts@), deep_seq(r@)),
    decreases stmts,
{
    let mut out: Vec<Stmt> = Vec::new();
    let mut frontier: usize = 0;
    let n = stmts.len();
    proof {
        assert(stmts@.take(0int) =~= Seq::<Stmt>::empty());
    }
    for i in 0..n
        invariant
            n == stmts.len(),
            frontier <= out.len(),
            deep_seq(out@) == cancel_fold(deep_seq(stmts@.take(i as int))).0,
            frontier as int == cancel_fold(deep_seq(stmts@.take(i as int))).1,
            equiv_seqs(deep_seq(stmts@.take(i as int)), deep_seq(out@)),
    {
        let s = &stmts[i];
        let ghost fold_pre = cancel_fold(deep_seq(stmts@.take(i as int)));
        let x: Stmt = match &s.kind {
            StmtKind::Loop(h) => {
                let new_body = cancel_vec(&h.stmts);
                proof {
                    lemma_equiv_loop(deep_seq(h.stmts@), deep_seq(new_body@), s.span, s.span);
                }
                Stmt { kind: StmtKind::Loop(Hir { stmts: new_body }), span: s.span }
            },
            StmtKind::Add(o, v) => Stmt { kind: StmtKind::Add(*o, *v), span: s.span },
            StmtKind::Sub(o, v) => Stmt { kind: StmtKind::Sub(*o, *v), span: s.span },
            StmtKind::MoveAddTo { offset } => Stmt {
                kind: StmtKind::MoveAddTo { offset: *offset },
                span: s.span,
            },
            StmtKind::Right(v) => Stmt { kind: StmtKind::Right(*v), span: s.span },
            StmtKind::Left(v) => Stmt { kind: StmtKind::Left(*v), span: s.span },
            StmtKind::Out => Stmt { kind: StmtKind::Out, span: s.span },
            StmtKind::In => Stmt { kind: StmtKind::In, span: s.span },
            StmtKind::SetN(v) => Stmt { kind: StmtKind::SetN(*v), span: s.span },
        };
        proof {
            lemma_equiv_refl(seq![deep(x)]);
            assert(equiv_seqs(seq![deep(stmts@[i as int])], seq![deep(x)]));
            assert(deep(x) == cancel_stmt(deep(stmts@[i as int])));
        }
        let ghost old_out = out@;
        out.push(x);
        proof {
            lemma_deep_seq_push(old_out, x);
            lemma_take_step(stmts@, i as int);
            lemma_step_extend(
                deep_seq(stmts@.take(i as int)),
                deep_seq(old_out),
                deep(stmts@[i as int]),
                deep(x),
            );
            assert(deep_seq(stmts@.take(i + 1)).drop_last() =~= deep_seq(
                stmts@.take(i as int),
            ));
            assert(deep_seq(stmts@.take(i + 1)).last() == deep(stmts@[i as int]));
            assert(cancel_fold(deep_seq(stmts@.take(i + 1))) == cancel_push(
                fold_pre,
                deep(x),
            ));
            crate::semantics::lemma_deep_seq_len(out@);
        }
        if out.len() >= 2 && out.len() - 2 >= frontier {
            // None: leave the window; Some(None): the pair cancels away;
            // Some(Some(m)): the pair nets to m
            let action: Option<Option<Stmt>> = {
                let a = &out[out.len() - 2];
                let b = &out[out.len() - 1];
                let span = merge_span_exec(a.span, b.span);
                match (&a.kind, &b.kind) {
                    (StmtKind::Right(r), StmtKind::Left(l)) | (
                        StmtKind::Left(l),
                        StmtKind::Right(r),
                    ) => if *r == *l {
                        Some(None)
                    } else {
                        let moved_right = match &a.kind {
                            StmtKind::Right(_) => true,
                            _ => false,
                        };
                        let kind = if *r < *l {
                            StmtKind::Left(*l - *r)
                        } else {
                            StmtKind::Right(*r - *l)
                        };
                        Some(Some(Stmt { kind, span }))
                    },
                    (StmtKind::Add(o1, p), StmtKind::Sub(o2, q)) | (
                        StmtKind::Sub(o2, q),
                        StmtKind::Add(o1, p),
                    ) => if *o1 == *o2 {
                        if *p == *q {
                            Some(None)
                        } else if *p < *q {
                            Some(Some(Stmt { kind: StmtKind::Sub(*o1, *q - *p), span }))
                        } else {
                            Some(Some(Stmt { kind: StmtKind::Add(*o1, *p - *q), span }))
                        }
                    } else {
                        None
                    },
                    _ => None,
                }
            };
            proof {
                crate::semantics::lemma_deep_seq_len(out@);
                crate::semantics::lemma_deep_seq_index(out@, out@.len() - 2);
                crate::semantics::lemma_deep_seq_index(out@, out@.len() - 1);
                let a = deep(out@[out@.len() - 2]);
                let b = deep(out@[out@.len() - 1]);
                assert(match &action {
                    None => cancel_action(a, b) is None,
                    Some(act) => match act {
                        None => cancel_action(a, b) == Some(None::<SpecStmt>),
                        Some(m) => cancel_action(a, b) == Some(Some(deep(*m))),
                    },
                });
                if action is None {
                    assert(deep_seq(out@) == cancel_fold(deep_seq(stmts@.take(i + 1))).0);
                }
            }
            if let Some(act) = action {
                proof {
                    let o = deep_seq(out@);
                    crate::semantics::lemma_deep_seq_len(out@);
                    crate::semantics::lemma_deep_seq_index(out@, out@.len() - 2);
                    crate::semantics::lemma_deep_seq_index(out@, out@.len() - 1);
                    let a = deep(out@[out@.len() - 2]);
                    let b = deep(out@[out@.len() - 1]);
                    let ghost net: Seq<SpecStmt> = match &act {
                        Some(mstmt) => seq![deep(*mstmt)],
                        None => Seq::<SpecStmt>::empty(),
                    };
                    match (a.kind, b.kind) {
                        (SpecKind::Right(r), SpecKind::Left(l)) => {
                            lemma_cancel_moves_equiv(r as int, -(l as int), a, b, net);
                        },
                        (SpecKind::Left(l), SpecKind::Right(r)) => {
                            lemma_cancel_moves_equiv(-(l as int), r as int, a, b, net);
                        },
                        (SpecKind::Add(o1, p), SpecKind::Sub(_, q)) => {
                            lemma_cancel_arith_equiv(
                                o1 as int,
                                p as int,
                                -(q as int),
                                a,
                                b,
                                net,
                            );
                        },
                        (SpecKind::Sub(o1, q), SpecKind::Add(_, p)) => {
                            lemma_cancel_arith_equiv(
                                o1 as int,
                                -(q as int),
                                p as int,
                                a,
                                b,
                                net,
                            );
                        },
                        _ => {},
                    }
                    match &act {
                        Some(mstmt) => {
                            lemma_fold_last_two(o, deep(*mstmt));
                        },
                        None => {
                            lemma_drop_last_two(o);
                        },
                    }
                }
                let ghost before = out@;
                let _ = out.pop();
                let _ = out.pop();
                match act {
                    Some(mstmt) => {
                        out.push(mstmt);
                        proof {
                            assert(out@.drop_last() =~= before.take(before.len() - 2));
                            lemma_deep_seq_push(before.take(before.len() - 2), mstmt);
                            lemma_deep_take(before, before.len() - 2);
                            lemma_equiv_trans(
                                deep_seq(stmts@.take(i + 1)),
                                deep_seq(before),
                                deep_seq(out@),
                            );
                            assert(deep_seq(out@) == cancel_fold(
                                deep_seq(stmts@.take(i + 1)),
                            ).0);
                        }
                        frontier = out.len() - 1;
                        proof {
                            crate::semantics::lemma_deep_seq_len(out@);
                            assert(frontier as int == cancel_fold(
                                deep_seq(stmts@.take(i + 1)),
                            ).1);
                        }
                    },
                    None => {
                        proof {
                            assert(out@ =~= before.take(before.len() - 2));
                            lemma_deep_take(before, before.len() - 2);
                            lemma_equiv_trans(
                                deep_seq(stmts@.take(i + 1)),
                                deep_seq(before),
                                deep_seq(out@),
                            );
                            assert(deep_seq(out@) == cancel_fold(
                                deep_seq(stmts@.take(i + 1)),
                            ).0);
                        }
                        frontier = out.len();
                        proof {
                            crate::semantics::lemma_deep_seq_len(out@);
                            assert(frontier as int == cancel_fold(
                                deep_seq(stmts@.take(i + 1)),
                            ).1);
                        }
                    },
                }
            }
        }
    }
    proof {
        assert(stmts@.take(n as int) =~= stmts@);
    }
    out
}

/// Cancel adjacent opposite pointer moves and same-cell arithmetic: the
/// result is exactly the `cancel_spec` rewriting, and it refines the old
/// program.
pub fn pass_cancel_left_right_add_sub(hir: &mut Hir)
    ensures
        deep_seq(final(hir).stmts@) == cancel_spec(deep_seq(old(hir).stmts@)),
        equiv_seqs(deep_seq(old(hir).stmts@), deep_seq(final(hir).stmts@)),
{
    let new_stmts = cancel_vec(&hir.stmts);
    hir.stmts = new_stmts;
}

/// The single statement a move / same-cell arithmetic / inverse move
/// window fuses to, when the two moves match and the distance is
/// representable as an offset: arithmetic addressed `r` cells away (or
/// `-r` for the mirrored window), under the covering span.
pub open spec fn offset_action(a: SpecStmt, b: SpecStmt, c: SpecStmt) -> Option<SpecStmt> {
    let span = merge_span(a.span, c.span);
    match (a.kind, b.kind, c.kind) {
        (SpecKind::Right(r), SpecKind::Add(o, m), SpecKind::Left(l)) => if o == 0 && r == l && r
            <= i32::MAX {
            Some(SpecStmt { kind: SpecKind::Add(r as i32, m), span })
        } else {
            None
        },
        (SpecKind::Left(l), SpecKind::Add(o, m), SpecKind::Right(r)) => if o == 0 && r == l && r
            <= i32::MAX {
            Some(SpecStmt { kind: SpecKind::Add((-(r as int)) as i32, m), span })
        } else {
            None
        },
        (SpecKind::Right(r), SpecKind::Sub(o, m), SpecKind::Left(l)) => if o == 0 && r == l && r
            <= i32::MAX {
            Some(SpecStmt { kind: SpecKind::Sub(r as i32, m), span })
        } else {
            None
        },
        (SpecKind::Left(l), SpecKind::Sub(o, m), SpecKind::Right(r)) => if o == 0 && r == l && r
            <= i32::MAX {
            Some(SpecStmt { kind: SpecKind::Sub((-(r as int)) as i32, m), span })
        } else {
            None
        },
        _ => None,
    }
}

/// One fold step of the offset-fusion rewrite, with the same frontier
/// discipline as the other sliding windows, over three statements.
pub open spec fn offset_push(acc: (Seq<SpecStmt>, int), x: SpecStmt) -> (Seq<SpecStmt>, int) {
    let out1 = acc.0.push(x);
    let fr = acc.1;
    if out1.len() >= 3 && out1.len() - 3 >= fr {
        match offset_action(out1[out1.len() - 3], out1[out1.len() - 2], x) {
            Some(m) => (out1.take(out1.len() - 3).push(m), out1.len() - 3),
            None => (out1, fr),
        }
    } else {
        (out1, fr)
    }
}

/// A statement with its loop body (if any) offset-fused.
pub open spec fn offset_stmt(s: SpecStmt) -> SpecStmt
    decreases s, 2int,
{
    match s.kind {
        SpecKind::Loop(b) => SpecStmt { kind: SpecKind::Loop(offset_spec(b)), span: s.span },
        _ => s,
    }
}

pub open spec fn offset_fold(ss: Seq<SpecStmt>) -> (Seq<SpecStmt>, int)
    decreases ss, 0int,
{
    if ss.len() == 0 {
        (Seq::empty(), 0)
    } else {
        offset_push(offset_fold(ss.drop_last()), offset_stmt(ss.last()))
    }
}

/// The offset-fusion rewrite of a statement sequence.
pub open spec fn offset_spec(ss: Seq<SpecStmt>) -> Seq<SpecStmt>
    decreases ss, 1int,
{
    offset_fold(ss).0
}

/// Fuse a pointer move, arithmetic on the new cell, and the inverse move
/// into a single offset-addressed arithmetic statement.
fn offset_vec(stmts: &Vec<Stmt>) -> (r: Vec<Stmt>)
    ensures
        deep_seq(r@) == offset_spec(deep_seq(stmts@)),
        equiv_seqs(deep_seq(stmts@), deep_seq(r@)),
    decreases stmts,
{
    let mut out: Vec<Stmt> = Vec::new();
    let mut frontier: usize = 0;
    let n = stmts.len();
    proof {
        assert(stmts@.take(0int) =~= Seq::<Stmt>::empty());
    }
    for i in 0..n
        invariant
            n == stmts.len(),
            frontier <= out.len(),
            deep_seq(out@) == offset_fold(deep_seq(stmts@.take(i as int))).0,
            frontier as int == offset_fold(deep_seq(stmts@.take(i as int))).1,
            equiv_seqs(deep_seq(stmts@.take(i as int)), deep_seq(out@)),
    {
        let s = &stmts[i];
        let ghost fold_pre = offset_fold(deep_seq(stmts@.take(i as int)));
        let x: Stmt = match &s.kind {
            StmtKind::Loop(h) => {
                let new_body = offset_vec(&h.stmts);
                proof {
                    lemma_equiv_loop(deep_seq(h.stmts@), deep_seq(new_body@), s.span, s.span);
                }
                Stmt { kind: StmtKind::Loop(Hir { stmts: new_body }), span: s.span }
            },
            StmtKind::Add(o, v) => Stmt { kind: StmtKind::Add(*o, *v), span: s.span },
            StmtKind::Sub(o, v) => Stmt { kind: StmtKind::Sub(*o, *v), span: s.span },
            StmtKind::MoveAddTo { offset } => Stmt {
                kind: StmtKind::MoveAddTo { offset: *offset },
                span: s.span,
            },
            StmtKind::Right(v) => Stmt { kind: StmtKind::Right(*v), span: s.span },
            StmtKind::Left(v) => Stmt { kind: StmtKind::Left(*v), span: s.span },
            StmtKind::Out => Stmt { kind: StmtKind::Out, span: s.span },
            StmtKind::In => Stmt { kind: StmtKind::In, span: s.span },
            StmtKind::SetN(v) => Stmt { kind: StmtKind::SetN(*v), span: s.span },
        };
        proof {
            lemma_equiv_refl(seq![deep(x)]);
            assert(equiv_seqs(seq![deep(stmts@[i as int])], seq![deep(x)]));
            assert(deep(x) == offset_stmt(deep(stmts@[i as int])));
        }
        let ghost old_out = out@;
        out.push(x);
        proof {
            lemma_deep_seq_push(old_out, x);
            lemma_take_step(stmts@, i as int);
            lemma_step_extend(
                deep_seq(stmts@.take(i as int)),
                deep_seq(old_out),
                deep(stmts@[i as int]),
                deep(x),
            );
            assert(deep_seq(stmts@.take(i + 1)).drop_last() =~= deep_seq(
                stmts@.take(i as int),
            ));
            assert(deep_seq(stmts@.take(i + 1)).last() == deep(stmts@[i as int]));
            assert(offset_fold(deep_seq(stmts@.take(i + 1))) == offset_push(
                fold_pre,
                deep(x),
            ));
            crate::semantics::lemma_deep_seq_len(out@);
        }
        if out.len() >= 3 && out.len() - 3 >= frontier {
            let merged: Option<Stmt> = {
                let a = &out[out.len() - 3];
                let b = &out[out.len() - 2];
                let c = &out[out.len() - 1];
                let span = merge_span_exec(a.span, c.span);
                match (&a.kind, &b.kind, &c.kind) {
                    (StmtKind::Right(r), StmtKind::Add(0, m), StmtKind::Left(l)) => if *r == *l
                        && *r <= i32::MAX as usize {
                        Some(Stmt { kind: StmtKind::Add(*r as i32, *m), span })
                    } else {
                        None
                    },
                    (StmtKind::Left(l), StmtKind::Add(0, m), StmtKind::Right(r)) => if *r == *l
                        && *r <= i32::MAX as usize {
                        Some(Stmt { kind: StmtKind::Add(-(*r as i32), *m), span })
                    } else {
                        None
                    },
                    (StmtKind::Right(r), StmtKind::Sub(0, m), StmtKind::Left(l)) => if *r == *l
                        && *r <= i32::MAX as usize {
                        Some(Stmt { kind: StmtKind::Sub(*r as i32, *m), span })
                    } else {
                        None
                    },
                    (StmtKind::Left(l), StmtKind::Sub(0, m), StmtKind::Right(r)) => if *r == *l
                        && *r <= i32::MAX as usize {
                        Some(Stmt { kind: StmtKind::Sub(-(*r as i32), *m), span })
                    } else {
                        None
                    },
                    _ => None,
                }
            };
            proof {
                crate::semantics::lemma_deep_seq_len(out@);
                crate::semantics::lemma_deep_seq_index(out@, out@.len() - 3);
                crate::semantics::lemma_deep_seq_index(out@, out@.len() - 2);
                crate::semantics::lemma_deep_seq_index(out@, out@.len() - 1);
                let a = deep(out@[out@.len() - 3]);
                let b = deep(out@[out@.len() - 2]);
                let c = deep(out@[out@.len() - 1]);
                assert(match &merged {
                    None => offset_action(a, b, c) is None,
                    Some(m) => offset_action(a, b, c) == Some(deep(*m)),
                });
                if merged is None {
                    assert(deep_seq(out@) == offset_fold(deep_seq(stmts@.take(i + 1))).0);
                }
            }
            if let Some(mstmt) = merged {
                proof {
                    let o = deep_seq(out@);
                    crate::semantics::lemma_deep_seq_len(out@);
                    crate::semantics::lemma_deep_seq_index(out@, out@.len() - 3);
                    crate::semantics::lemma_deep_seq_index(out@, out@.len() - 2);
                    crate::semantics::lemma_deep_seq_index(out@, out@.len() - 1);
                    let a = deep(out@[out@.len() - 3]);
                    let b = deep(out@[out@.len() - 2]);
                    let c = deep(out@[out@.len() - 1]);
                    let fused = deep(mstmt);
                    match (a.kind, b.kind) {
                        (SpecKind::Right(r), SpecKind::Add(_, m)) => {
                            lemma_offset_fuse_equiv(r as int, m as int, a, b, c, fused);
                        },
                        (SpecKind::Left(l), SpecKind::Add(_, m)) => {
                            lemma_offset_fuse_equiv(-(l as int), m as int, a, b, c, fused);
                        },
                        (SpecKind::Right(r), SpecKind::Sub(_, m)) => {
                            lemma_offset_fuse_equiv(r as int, -(m as int), a, b, c, fused);
                        },
                        (SpecKind::Left(l), SpecKind::Sub(_, m)) => {
                            lemma_offset_fuse_equiv(-(l as int), -(m as int), a, b, c, fused);
                        },
                        _ => {},
                    }
                    assert(fused_singleton(fused) == seq![fused]);
                    lemma_fold_last_three(o, fused);
                }
                let ghost before = out@;
                let _ = out.pop();
                let _ = out.pop();
                let _ = out.pop();
                out.push(mstmt);
                proof {
                    assert(out@.drop_last() =~= before.take(before.len() - 3));
                    lemma_deep_seq_push(before.take(before.len() - 3), mstmt);
                    lemma_deep_take(before, before.len() - 3);
                    lemma_equiv_trans(
                        deep_seq(stmts@.take(i + 1)),
                        deep_seq(before),
                        deep_seq(out@),
                    );
                    assert(deep_seq(out@) == offset_fold(deep_seq(stmts@.take(i + 1))).0);
                }
                frontier = out.len() - 1;
                proof {
                    crate::semantics::lemma_deep_seq_len(out@);
                    assert(frontier as int == offset_fold(deep_seq(stmts@.take(i + 1))).1);
                }
            }
        }
    }
    proof {
        assert(stmts@.take(n as int) =~= stmts@);
    }
    out
}

/// Fuse move, arithmetic, inverse move into offset-addressed arithmetic:
/// the result is exactly the `offset_spec` rewriting, and it refines the
/// old program.
pub fn pass_add_sub_offset(hir: &mut Hir)
    ensures
        deep_seq(final(hir).stmts@) == offset_spec(deep_seq(old(hir).stmts@)),
        equiv_seqs(deep_seq(old(hir).stmts@), deep_seq(final(hir).stmts@)),
{
    let new_stmts = offset_vec(&hir.stmts);
    hir.stmts = new_stmts;
}

/// The whole fixed pass pipeline, in its required order: grouping first,
/// then the loop idioms and sliding-window rewrites that build on it.
/// The whole fixed pass pipeline as one rewriting, in its required
/// order: grouping, clear-loop replacement, write folding, cancellation,
/// offset fusion, move-accumulate fusion.
pub open spec fn optimize_spec(ss: Seq<SpecStmt>) -> Seq<SpecStmt> {
    move_add_spec(offset_spec(cancel_spec(set_n_spec(set_null_spec(group_spec(ss))))))
}

pub fn optimize(hir: &mut Hir)
    ensures
        deep_seq(final(hir).stmts@) == optimize_spec(deep_seq(old(hir).stmts@)),
        equiv_seqs(deep_seq(old(hir).stmts@), deep_seq(final(hir).stmts@)),
{
    let ghost s0 = deep_seq(hir.stmts@);
    pass_group(hir);
    let ghost s1 = deep_seq(hir.stmts@);
    pass_find_set_null(hir);
    let ghost s2 = deep_seq(hir.stmts@);
    proof {
        lemma_equiv_trans(s0, s1, s2);
    }
    pass_set_n(hir);
    let ghost s3 = deep_seq(hir.stmts@);
    proof {
        lemma_equiv_trans(s0, s2, s3);
    }
    pass_cancel_left_right_add_sub(hir);
    let ghost s4 = deep_seq(hir.stmts@);
    proof {
        lemma_equiv_trans(s0, s3, s4);
    }
    pass_add_sub_offset(hir);
    let ghost s5 = deep_seq(hir.stmts@);
    proof {
        lemma_equiv_trans(s0, s4, s5);
    }
    pass_move_add_to(hir);
    let ghost s6 = deep_seq(hir.stmts@);
    proof {
        lemma_equiv_trans(s0, s5, s6);
    }
}


/// No pass grows the program: each rewriting keeps every run length
/// representable and never increases the flattened extent (spec section:
/// passes only ever reduce statement count or specialize representation).
pub proof fn lemma_group_spec_shrinks(ss: Seq<SpecStmt>)
    requires
        fits(ss),
    ensures
        fits(group_spec(ss)),
        flat_len(group_spec(ss)) <= flat_len(ss),
    decreases ss, 1int,
{
    if ss.len() > 0 {
        let dl = ss.drop_last();
        let x = ss.last();
        let gx = group_stmt(x);
        lemma_group_spec_shrinks(dl);
        lemma_group_stmt_shrinks(x);
        let g = group_spec(dl);
        if g.len() > 0 && can_merge(g.last(), gx) {
            let m = merge_stmts(g.last(), gx);
            assert(flat_len_stmt(g.last()) == 1);
            assert(flat_len_stmt(gx) == 1);
            assert(flat_len_stmt(m) == 1);
            assert(fits_stmt(m));
            lemma_flat_len_push(g.drop_last(), m);
            lemma_fits_push(g.drop_last(), m);
            assert(flat_len(g) == flat_len(g.drop_last()) + 1);
            lemma_flat_len_stmt_pos(x);
        } else {
            lemma_flat_len_push(g, gx);
            lemma_fits_push(g, gx);
        }
    }
}

proof fn lemma_group_stmt_shrinks(s: SpecStmt)
    requires
        fits_stmt(s),
    ensures
        fits_stmt(group_stmt(s)),
        flat_len_stmt(group_stmt(s)) <= flat_len_stmt(s),
    decreases s, 0int,
{
    match s.kind {
        SpecKind::Loop(b) => {
            lemma_group_spec_shrinks(b);
        },
        _ => {},
    }
}

pub proof fn lemma_set_null_spec_shrinks(ss: Seq<SpecStmt>)
    requires
        fits(ss),
    ensures
        fits(set_null_spec(ss)),
        flat_len(set_null_spec(ss)) <= flat_len(ss),
    decreases ss, 1int,
{
    if ss.len() > 0 {
        lemma_set_null_spec_shrinks(ss.drop_last());
        lemma_set_null_stmt_shrinks(ss.last());
        lemma_flat_len_push(set_null_spec(ss.drop_last()), set_null_stmt(ss.last()));
        lemma_fits_push(set_null_spec(ss.drop_last()), set_null_stmt(ss.last()));
    }
}

proof fn lemma_set_null_stmt_shrinks(s: SpecStmt)
    requires
        fits_stmt(s),
    ensures
        fits_stmt(set_null_stmt(s)),
        flat_len_stmt(set_null_stmt(s)) <= flat_len_stmt(s),
    decreases s, 0int,
{
    match s.kind {
        SpecKind::Loop(b) => {
            lemma_flat_len_nonneg(b);
            lemma_set_null_spec_shrinks(b);
        },
        _ => {},
    }
}

pub proof fn lemma_move_add_spec_shrinks(ss: Seq<SpecStmt>)
    requires
        fits(ss),
    ensures
        fits(move_add_spec(ss)),
        flat_len(move_add_spec(ss)) <= flat_len(ss),
    decreases ss, 1int,
{
    if ss.len() > 0 {
        lemma_move_add_spec_shrinks(ss.drop_last());
        lemma_move_add_stmt_shrinks(ss.last());
        lemma_flat_len_push(move_add_spec(ss.drop_last()), move_add_stmt(ss.last()));
        lemma_fits_push(move_add_spec(ss.drop_last()), move_add_stmt(ss.last()));
    }
}

proof fn lemma_move_add_stmt_shrinks(s: SpecStmt)
    requires
        fits_stmt(s),
    ensures
        fits_stmt(move_add_stmt(s)),
        flat_len_stmt(move_add_stmt(s)) <= flat_len_stmt(s),
    decreases s, 0int,
{
    match s.kind {
        SpecKind::Loop(b) => {
            lemma_flat_len_nonneg(b);
            lemma_move_add_spec_shrinks(b);
        },
        _ => {},
    }
}

pub proof fn lemma_set_n_fold_shrinks(ss: Seq<SpecStmt>)
    requires
        fits(ss),
    ensures
        fits(set_n_fold(ss).0),
        flat_len(set_n_fold(ss).0) <= flat_len(ss),
    decreases ss, 1int,
{
    if ss.len() > 0 {
        let dl = ss.drop_last();
        let x = set_n_stmt(ss.last());
        lemma_set_n_fold_shrinks(dl);
        lemma_set_n_stmt_shrinks(ss.last());
        let out = set_n_fold(dl).0;
        let out1 = out.push(x);
        lemma_flat_len_push(out, x);
        lemma_fits_push(out, x);
        if out1.len() >= 2 && out1.len() - 2 >= set_n_fold(dl).1 {
            let a = out1[out1.len() - 2];
            assert(a == out.last());
            match (a.kind, x.kind) {
                (SpecKind::SetN(v), SpecKind::Add(o, m)) => if o == 0 {
                    assert(out.len() >= 1);
                    assert(flat_len_stmt(a) == 1);
                    assert(flat_len_stmt(out.last()) == 1);
                    assert(out1.take(out1.len() - 2) =~= out.drop_last());
                    lemma_flat_len_push(
                        out.drop_last(),
                        SpecStmt {
                            kind: SpecKind::SetN(v.wrapping_add(m)),
                            span: merge_span(a.span, x.span),
                        },
                    );
                    lemma_fits_push(
                        out.drop_last(),
                        SpecStmt {
                            kind: SpecKind::SetN(v.wrapping_add(m)),
                            span: merge_span(a.span, x.span),
                        },
                    );
                    assert(flat_len(out) == flat_len(out.drop_last()) + 1);
                },
                (SpecKind::SetN(v), SpecKind::Sub(o, m)) => if o == 0 {
                    assert(out.len() >= 1);
                    assert(flat_len_stmt(a) == 1);
                    assert(flat_len_stmt(out.last()) == 1);
                    assert(out1.take(out1.len() - 2) =~= out.drop_last());
                    lemma_flat_len_push(
                        out.drop_last(),
                        SpecStmt {
                            kind: SpecKind::SetN(v.wrapping_sub(m)),
                            span: merge_span(a.span, x.span),
                        },
                    );
                    lemma_fits_push(
                        out.drop_last(),
                        SpecStmt {
                            kind: SpecKind::SetN(v.wrapping_sub(m)),
                            span: merge_span(a.span, x.span),
                        },
                    );
                    assert(flat_len(out) == flat_len(out.drop_last()) + 1);
                },
                _ => {},
            }
        }
        lemma_flat_len_stmt_pos(ss.last());
    }
}

proof fn lemma_set_n_stmt_shrinks(s: SpecStmt)
    requires
        fits_stmt(s),
    ensures
        fits_stmt(set_n_stmt(s)),
        flat_len_stmt(set_n_stmt(s)) <= flat_len_stmt(s),
    decreases s, 0int,
{
    match s.kind {
        SpecKind::Loop(b) => {
            lemma_set_n_fold_shrinks(b);
        },
        _ => {},
    }
}

pub proof fn lemma_cancel_fold_shrinks(ss: Seq<SpecStmt>)
    requires
        fits(ss),
    ensures
        fits(cancel_fold(ss).0),
        flat_len(cancel_fold(ss).0) <= flat_len(ss),
    decreases ss, 1int,
{
    if ss.len() > 0 {
        let dl = ss.drop_last();
        let x = cancel_stmt(ss.last());
        lemma_cancel_fold_shrinks(dl);
        lemma_cancel_stmt_shrinks(ss.last());
        let out = cancel_fold(dl).0;
        let out1 = out.push(x);
        lemma_flat_len_push(out, x);
        lemma_fits_push(out, x);
        if out1.len() >= 2 && out1.len() - 2 >= cancel_fold(dl).1 {
            let a = out1[out1.len() - 2];
            assert(a == out.last());
            match cancel_action(a, x) {
                Some(act) => {
                    assert(out1.take(out1.len() - 2) =~= out.drop_last());
                    assert(flat_len_stmt(a) == 1 && fits_stmt(a) && flat_len_stmt(x) == 1) by {
                        match (a.kind, x.kind) {
                            (SpecKind::Right(_), SpecKind::Left(_)) => {},
                            (SpecKind::Left(_), SpecKind::Right(_)) => {},
                            (SpecKind::Add(_, _), SpecKind::Sub(_, _)) => {},
                            (SpecKind::Sub(_, _), SpecKind::Add(_, _)) => {},
                            _ => {
                                assert(cancel_action(a, x) is None);
                            },
                        }
                    }
                    assert(out.len() >= 1);
                    assert(flat_len_stmt(out.last()) == 1);
                    assert(flat_len(out) == flat_len(out.drop_last()) + 1);
                    match act {
                        Some(m) => {
                            assert(flat_len_stmt(m) == 1 && fits_stmt(m)) by {
                                match (a.kind, x.kind) {
                                    (SpecKind::Right(_), SpecKind::Left(_)) => {},
                                    (SpecKind::Left(_), SpecKind::Right(_)) => {},
                                    (SpecKind::Add(_, _), SpecKind::Sub(_, _)) => {},
                                    (SpecKind::Sub(_, _), SpecKind::Add(_, _)) => {},
                                    _ => {
                                        assert(cancel_action(a, x) is None);
                                    },
                                }
                            }
                            lemma_flat_len_push(out.drop_last(), m);
                            lemma_fits_push(out.drop_last(), m);
                        },
                        None => {},
                    }
                },
                None => {},
            }
        }
        lemma_flat_len_stmt_pos(ss.last());
    }
}

proof fn lemma_cancel_stmt_shrinks(s: SpecStmt)
    requires
        fits_stmt(s),
    ensures
        fits_stmt(cancel_stmt(s)),
        flat_len_stmt(cancel_stmt(s)) <= flat_len_stmt(s),
    decreases s, 0int,
{
    match s.kind {
        SpecKind::Loop(b) => {
            lemma_cancel_fold_shrinks(b);
        },
        _ => {},
    }
}

pub proof fn lemma_offset_fold_shrinks(ss: Seq<SpecStmt>)
    requires
        fits(ss),
    ensures
        fits(offset_fold(ss).0),
        flat_len(offset_fold(ss).0) <= flat_len(ss),
    decreases ss, 1int,
{
    if ss.len() > 0 {
        let dl = ss.drop_last();
        let x = offset_stmt(ss.last());
        lemma_offset_fold_shrinks(dl);
        lemma_offset_stmt_shrinks(ss.last());
        let out = offset_fold(dl).0;
        let out1 = out.push(x);
        lemma_flat_len_push(out, x);
        lemma_fits_push(out, x);
        if out1.len() >= 3 && out1.len() - 3 >= offset_fold(dl).1 {
            let a = out1[out1.len() - 3];
            let b = out1[out1.len() - 2];
            assert(b == out.last());
            assert(a == out[out.len() - 2]);
            match offset_action(a, b, x) {
                Some(m) => {
                    assert(out1.take(out1.len() - 3) =~= out.drop_last().drop_last());
                    assert(a == out.drop_last().last());
                    assert(flat_len_stmt(a) == 1 && flat_len_stmt(b) == 1 && flat_len_stmt(m)
                        == 1 && fits_stmt(m)) by {
                        match (a.kind, b.kind, x.kind) {
                            (SpecKind::Right(_), SpecKind::Add(_, _), SpecKind::Left(_)) => {},
                            (SpecKind::Left(_), SpecKind::Add(_, _), SpecKind::Right(_)) => {},
                            (SpecKind::Right(_), SpecKind::Sub(_, _), SpecKind::Left(_)) => {},
                            (SpecKind::Left(_), SpecKind::Sub(_, _), SpecKind::Right(_)) => {},
                            _ => {
                                assert(offset_action(a, b, x) is None);
                            },
                        }
                    }
                    assert(flat_len(out) == flat_len(out.drop_last()) + 1);
                    assert(flat_len(out.drop_last()) == flat_len(out.drop_last().drop_last())
                        + 1);
                    assert(fits(out.drop_last()));
                    assert(fits(out.drop_last().drop_last()));
                    lemma_flat_len_push(out.drop_last().drop_last(), m);
                    lemma_fits_push(out.drop_last().drop_last(), m);
                },
                None => {},
            }
        }
        lemma_flat_len_stmt_pos(ss.last());
    }
}

proof fn lemma_offset_stmt_shrinks(s: SpecStmt)
    requires
        fits_stmt(s),
    ensures
        fits_stmt(offset_stmt(s)),
        flat_len_stmt(offset_stmt(s)) <= flat_len_stmt(s),
    decreases s, 0int,
{
    match s.kind {
        SpecKind::Loop(b) => {
            lemma_offset_fold_shrinks(b);
        },
        _ => {},
    }
}

/// The whole pipeline never grows the program: every run length stays
/// representable and the flattened extent never increases.
pub proof fn lemma_optimize_spec_shrinks(ss: Seq<SpecStmt>)
    requires
        fits(ss),
    ensures
        fits(optimize_spec(ss)),
        flat_len(optimize_spec(ss)) <= flat_len(ss),
{
    lemma_group_spec_shrinks(ss);
    lemma_set_null_spec_shrinks(group_spec(ss));
    lemma_set_n_fold_shrinks(set_null_spec(group_spec(ss)));
    lemma_cancel_fold_shrinks(set_n_spec(set_null_spec(group_spec(ss))));
    lemma_offset_fold_shrinks(cancel_spec(set_n_spec(set_null_spec(group_spec(ss)))));
    lemma_move_add_spec_shrinks(
        offset_spec(cancel_spec(set_n_spec(set_null_spec(group_spec(ss))))),
    );
}

/// The covering span of two adjacent statements' spans.
fn merge_span_exec(a: Span, b: Span) -> (r: Span)
    ensures
        r == merge_span(a, b),
{
    Span { start: a.start, len: b.start.wrapping_add(b.len).wrapping_sub(a.start) }
}

/// Fold adjacent identical primitives into counted runs, recursing into
/// loop bodies first; a run stops rather than let its count overflow.
pub fn pass_group(hir: &mut Hir)
    ensures
        deep_seq(final(hir).stmts@) == group_spec(deep_seq(old(hir).stmts@)),
        equiv_seqs(deep_seq(old(hir).stmts@), deep_seq(final(hir).stmts@)),
{
    let new_stmts = group_vec(&hir.stmts);
    hir.stmts = new_stmts;
    proof {
        lemma_group_equiv(deep_seq(old(hir).stmts@));
    }
}

} // verus!
