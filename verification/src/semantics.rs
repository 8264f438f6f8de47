use vstd::prelude::*;

use crate::hir::{Hir, Stmt, StmtKind};
use crate::span::Span;

verus! {

/// The mathematical mirror of a HIR statement: the same payloads, with loop
/// bodies as sequences. Contracts and the execution semantics are stated
/// over this type; `deep` maps the executable representation onto it.
pub ghost struct SpecStmt {
    pub kind: SpecKind,
    pub span: Span,
}

pub ghost enum SpecKind {
    Add(i32, u8),
    Sub(i32, u8),
    MoveAddTo(i32),
    Right(usize),
    Left(usize),
    Loop(Seq<SpecStmt>),
    Out,
    In,
    SetN(u8),
}

/// The mathematical value of one executable HIR statement.
pub open spec fn deep(s: Stmt) -> SpecStmt
    decreases s,
{
    let kind = match s.kind {
        StmtKind::Add(off, n) => SpecKind::Add(off, n),
        StmtKind::Sub(off, n) => SpecKind::Sub(off, n),
        StmtKind::MoveAddTo { offset } => SpecKind::MoveAddTo(offset),
        StmtKind::Right(n) => SpecKind::Right(n),
        StmtKind::Left(n) => SpecKind::Left(n),
        StmtKind::Loop(h) => SpecKind::Loop(deep_seq(h.stmts@)),
        StmtKind::Out => SpecKind::Out,
        StmtKind::In => SpecKind::In,
        StmtKind::SetN(n) => SpecKind::SetN(n),
    };
    SpecStmt { kind, span: s.span }
}

/// The mathematical value of an executable HIR statement sequence.
pub open spec fn deep_seq(v: Seq<Stmt>) -> Seq<SpecStmt>
    decreases v,
{
    if v.len() == 0 {
        Seq::empty()
    } else {
        deep_seq(v.drop_last()).push(deep(v.last()))
    }
}

pub broadcast proof fn lemma_deep_seq_len(v: Seq<Stmt>)
    ensures
        (#[trigger] deep_seq(v)).len() == v.len(),
    decreases v,
{
    if v.len() > 0 {
        lemma_deep_seq_len(v.drop_last());
    }
}

pub broadcast proof fn lemma_deep_seq_index(v: Seq<Stmt>, i: int)
    requires
        0 <= i < v.len(),
    ensures
        #[trigger] deep_seq(v)[i] == deep(v[i]),
    decreases v,
{
    lemma_deep_seq_len(v);
    if v.len() > 0 {
        if i < v.len() - 1 {
            lemma_deep_seq_index(v.drop_last(), i);
        }
    }
}

/// `deep_seq` distributes over `push`.
pub broadcast proof fn lemma_deep_seq_push(v: Seq<Stmt>, s: Stmt)
    ensures
        #[trigger] deep_seq(v.push(s)) == deep_seq(v).push(deep(s)),
    decreases v,
{
    assert(v.push(s).drop_last() =~= v);
}

/// The observable machine state: the tape, the cell pointer, the input bytes
/// not yet consumed, and the output bytes emitted so far.
#[verifier::ext_equal]
pub ghost struct ExecState {
    pub tape: Seq<u8>,
    pub ptr: int,
    pub input: Seq<u8>,
    pub output: Seq<u8>,
}

/// What a bounded execution came to: it halted, it asked for input that was
/// not there, or the step bound ran out first.
pub ghost enum Outcome {
    Halt(ExecState),
    Starve(ExecState),
    Spin,
}

/// A valid state: a nonempty tape with the pointer on it.
pub open spec fn st_wf(st: ExecState) -> bool {
    &&& st.tape.len() >= 1
    &&& 0 <= st.ptr < st.tape.len()
}

/// The starting state: a zeroed tape of `m` cells, the pointer at cell 0,
/// all of `input` still to be read, nothing written yet.
pub open spec fn init_state(m: int, input: Seq<u8>) -> ExecState {
    ExecState { tape: Seq::new(m as nat, |i: int| 0u8), ptr: 0, input, output: Seq::empty() }
}

/// The tape index `off` cells away from the pointer, wrapping modulo the
/// tape length in both directions.
pub open spec fn cell_idx(st: ExecState, off: int) -> int {
    (st.ptr + off) % (st.tape.len() as int)
}

/// Wrapping 8-bit addition of `d` (possibly negative) to the cell at `off`.
pub open spec fn add_at(st: ExecState, off: int, d: int) -> ExecState {
    let i = cell_idx(st, off);
    ExecState { tape: st.tape.update(i, (((st.tape[i] + d) % 256 + 256) % 256) as u8), ..st }
}

/// Move the pointer by `d` cells, wrapping modulo the tape length.
pub open spec fn move_ptr(st: ExecState, d: int) -> ExecState {
    ExecState { ptr: (st.ptr + d) % (st.tape.len() as int), ..st }
}

/// Write `v` to the current cell.
pub open spec fn set_cell(st: ExecState, v: u8) -> ExecState {
    ExecState { tape: st.tape.update(st.ptr, v), ..st }
}

/// Zero the current cell and add its prior value to the cell `off` away.
pub open spec fn move_add(st: ExecState, off: int) -> ExecState {
    let v = st.tape[st.ptr];
    add_at(set_cell(st, 0), off, v as int)
}

/// The effect of one statement. The step bound `fuel` limits only loop
/// iterations: a loop iterates at most `fuel` times, handing `fuel - 1` to
/// any nested loop, so straight-line code always halts.
pub open spec fn stmt_sem(s: SpecStmt, st: ExecState, fuel: nat) -> Outcome
    decreases fuel, s, 0int,
{
    match s.kind {
        SpecKind::Add(off, n) => Outcome::Halt(add_at(st, off as int, n as int)),
        SpecKind::Sub(off, n) => Outcome::Halt(add_at(st, off as int, -(n as int))),
        SpecKind::MoveAddTo(offset) => Outcome::Halt(move_add(st, offset as int)),
        SpecKind::Right(n) => Outcome::Halt(move_ptr(st, n as int)),
        SpecKind::Left(n) => Outcome::Halt(move_ptr(st, -(n as int))),
        SpecKind::Out => Outcome::Halt(
            ExecState { output: st.output.push(st.tape[st.ptr]), ..st },
        ),
        SpecKind::In => if st.input.len() == 0 {
            Outcome::Starve(st)
        } else {
            Outcome::Halt(
                ExecState {
                    tape: st.tape.update(st.ptr, st.input[0]),
                    input: st.input.drop_first(),
                    ..st
                },
            )
        },
        SpecKind::SetN(n) => Outcome::Halt(set_cell(st, n)),
        SpecKind::Loop(body) => if st.tape[st.ptr] == 0 {
            Outcome::Halt(st)
        } else if fuel == 0 {
            Outcome::Spin
        } else {
            match seq_sem(body, st, (fuel - 1) as nat) {
                Outcome::Halt(st1) => stmt_sem(s, st1, (fuel - 1) as nat),
                o => o,
            }
        },
    }
}

/// The effect of a statement sequence, run left to right.
pub open spec fn seq_sem(ss: Seq<SpecStmt>, st: ExecState, fuel: nat) -> Outcome
    decreases fuel, ss, 1int,
{
    if ss.len() == 0 {
        Outcome::Halt(st)
    } else {
        match stmt_sem(ss[0], st, fuel) {
            Outcome::Halt(st1) => seq_sem(ss.drop_first(), st1, fuel),
            o => o,
        }
    }
}

/// The semantics of a whole program.
pub open spec fn hir_sem(h: Hir, st: ExecState, fuel: nat) -> Outcome {
    seq_sem(deep_seq(h.stmts@), st, fuel)
}

/// An execution that came to an answer: it halted or failed for want of
/// input, rather than running out of its step bound.
pub open spec fn settled(o: Outcome) -> bool {
    !(o is Spin)
}

/// Every statement leaves the tape length unchanged and the pointer on the
/// tape, so well-formedness of states is invariant under execution.
pub proof fn lemma_stmt_sem_wf(s: SpecStmt, st: ExecState, fuel: nat)
    requires
        st_wf(st),
    ensures
        match stmt_sem(s, st, fuel) {
            Outcome::Halt(st1) => st_wf(st1) && st1.tape.len() == st.tape.len(),
            Outcome::Starve(st1) => st_wf(st1) && st1.tape.len() == st.tape.len(),
            Outcome::Spin => true,
        },
    decreases fuel, s, 0int,
{
    vstd::arithmetic::div_mod::lemma_mod_bound(st.ptr + 1, st.tape.len() as int);
    match s.kind {
        SpecKind::Add(off, n) => {
            vstd::arithmetic::div_mod::lemma_mod_bound(st.ptr + off, st.tape.len() as int);
        },
        SpecKind::Sub(off, n) => {
            vstd::arithmetic::div_mod::lemma_mod_bound(st.ptr - off, st.tape.len() as int);
        },
        SpecKind::MoveAddTo(offset) => {
            vstd::arithmetic::div_mod::lemma_mod_bound(st.ptr + offset, st.tape.len() as int);
        },
        SpecKind::Right(n) => {
            vstd::arithmetic::div_mod::lemma_mod_bound(st.ptr + n, st.tape.len() as int);
        },
        SpecKind::Left(n) => {
            vstd::arithmetic::div_mod::lemma_mod_bound(st.ptr - n, st.tape.len() as int);
        },
        SpecKind::Loop(body) => {
            if st.tape[st.ptr] == 0 || fuel == 0 {
            } else {
                lemma_seq_sem_wf(body, st, (fuel - 1) as nat);
                match seq_sem(body, st, (fuel - 1) as nat) {
                    Outcome::Halt(st1) => {
                        lemma_stmt_sem_wf(s, st1, (fuel - 1) as nat);
                    },
                    _ => {},
                }
            }
        },
        _ => {},
    }
}

pub proof fn lemma_seq_sem_wf(ss: Seq<SpecStmt>, st: ExecState, fuel: nat)
    requires
        st_wf(st),
    ensures
        match seq_sem(ss, st, fuel) {
            Outcome::Halt(st1) => st_wf(st1) && st1.tape.len() == st.tape.len(),
            Outcome::Starve(st1) => st_wf(st1) && st1.tape.len() == st.tape.len(),
            Outcome::Spin => true,
        },
    decreases fuel, ss, 1int,
{
    if ss.len() == 0 {
    } else {
        lemma_stmt_sem_wf(ss[0], st, fuel);
        match stmt_sem(ss[0], st, fuel) {
            Outcome::Halt(st1) => {
                lemma_seq_sem_wf(ss.drop_first(), st1, fuel);
            },
            _ => {},
        }
    }
}

/// `b` refines `a`: from any well-formed state, wherever `a` comes to an
/// answer within some step bound, `b` comes to the same answer within the
/// same bound. This is the preservation order of the optimizer: a rewrite
/// may turn a spinning program into a halting one (clearing a cell by a
/// loop that can never reach zero), but never changes an answer.
pub open spec fn equiv_seqs(a: Seq<SpecStmt>, b: Seq<SpecStmt>) -> bool {
    forall|st: ExecState, fuel: nat|
        st_wf(st) && settled(#[trigger] seq_sem(a, st, fuel)) ==> seq_sem(b, st, fuel) == seq_sem(
            a,
            st,
            fuel,
        )
}

pub proof fn lemma_equiv_refl(a: Seq<SpecStmt>)
    ensures
        equiv_seqs(a, a),
{
}

pub proof fn lemma_equiv_trans(a: Seq<SpecStmt>, b: Seq<SpecStmt>, c: Seq<SpecStmt>)
    requires
        equiv_seqs(a, b),
        equiv_seqs(b, c),
    ensures
        equiv_seqs(a, c),
{
    assert forall|st: ExecState, fuel: nat|
        st_wf(st) && settled(#[trigger] seq_sem(a, st, fuel)) implies seq_sem(c, st, fuel)
        == seq_sem(a, st, fuel) by {
        assert(seq_sem(b, st, fuel) == seq_sem(a, st, fuel));
    }
}

/// Running `a + b` is running `a`, then running `b` from where `a` halted.
pub proof fn lemma_seq_sem_append(a: Seq<SpecStmt>, b: Seq<SpecStmt>, st: ExecState, fuel: nat)
    ensures
        seq_sem(a + b, st, fuel) == match seq_sem(a, st, fuel) {
            Outcome::Halt(st1) => seq_sem(b, st1, fuel),
            o => o,
        },
    decreases a.len(),
{
    if a.len() == 0 {
        assert(a + b =~= b);
    } else {
        assert((a + b)[0] == a[0]);
        assert((a + b).drop_first() =~= a.drop_first() + b);
        match stmt_sem(a[0], st, fuel) {
            Outcome::Halt(st1) => {
                lemma_seq_sem_append(a.drop_first(), b, st1, fuel);
            },
            _ => {},
        }
    }
}

/// Refinement is a congruence for concatenation.
pub proof fn lemma_equiv_append(
    a: Seq<SpecStmt>,
    b: Seq<SpecStmt>,
    c: Seq<SpecStmt>,
    d: Seq<SpecStmt>,
)
    requires
        equiv_seqs(a, b),
        equiv_seqs(c, d),
    ensures
        equiv_seqs(a + c, b + d),
{
    assert forall|st: ExecState, fuel: nat|
        st_wf(st) && settled(#[trigger] seq_sem(a + c, st, fuel)) implies seq_sem(b + d, st, fuel)
        == seq_sem(a + c, st, fuel) by {
        lemma_seq_sem_append(a, c, st, fuel);
        lemma_seq_sem_append(b, d, st, fuel);
        match seq_sem(a, st, fuel) {
            Outcome::Halt(st1) => {
                assert(settled(seq_sem(a, st, fuel)));
                assert(seq_sem(b, st, fuel) == seq_sem(a, st, fuel));
                lemma_seq_sem_wf(a, st, fuel);
            },
            Outcome::Starve(st1) => {
                assert(settled(seq_sem(a, st, fuel)));
            },
            Outcome::Spin => {},
        }
    }
}

/// Replacing a slice of a sequence by a refining slice refines the whole.
pub proof fn lemma_equiv_replace(
    p: Seq<SpecStmt>,
    x: Seq<SpecStmt>,
    y: Seq<SpecStmt>,
    s: Seq<SpecStmt>,
)
    requires
        equiv_seqs(x, y),
    ensures
        equiv_seqs(p + x + s, p + y + s),
{
    lemma_equiv_refl(p);
    lemma_equiv_refl(s);
    lemma_equiv_append(p, p, x, y);
    lemma_equiv_append(p + x, p + y, s, s);
}

/// Refinement of loop bodies extends to the loops themselves, whatever
/// spans the two loop statements carry.
pub proof fn lemma_equiv_loop(b1: Seq<SpecStmt>, b2: Seq<SpecStmt>, sp1: Span, sp2: Span)
    requires
        equiv_seqs(b1, b2),
    ensures
        equiv_seqs(
            seq![SpecStmt { kind: SpecKind::Loop(b1), span: sp1 }],
            seq![SpecStmt { kind: SpecKind::Loop(b2), span: sp2 }],
        ),
{
    let l1 = SpecStmt { kind: SpecKind::Loop(b1), span: sp1 };
    let l2 = SpecStmt { kind: SpecKind::Loop(b2), span: sp2 };
    assert forall|st: ExecState, fuel: nat|
        st_wf(st) && settled(#[trigger] seq_sem(seq![l1], st, fuel)) implies seq_sem(
        seq![l2],
        st,
        fuel,
    ) == seq_sem(seq![l1], st, fuel) by {
        lemma_loop_body_refines(b1, b2, sp1, sp2, st, fuel);
        assert(seq![l1].drop_first() =~= Seq::<SpecStmt>::empty());
        assert(seq![l2].drop_first() =~= Seq::<SpecStmt>::empty());
    }
}

proof fn lemma_loop_body_refines(
    b1: Seq<SpecStmt>,
    b2: Seq<SpecStmt>,
    sp1: Span,
    sp2: Span,
    st: ExecState,
    fuel: nat,
)
    requires
        equiv_seqs(b1, b2),
        st_wf(st),
        settled(
            stmt_sem(SpecStmt { kind: SpecKind::Loop(b1), span: sp1 }, st, fuel),
        ),
    ensures
        stmt_sem(SpecStmt { kind: SpecKind::Loop(b2), span: sp2 }, st, fuel) == stmt_sem(
            SpecStmt { kind: SpecKind::Loop(b1), span: sp1 },
            st,
            fuel,
        ),
    decreases fuel,
{
    let l1 = SpecStmt { kind: SpecKind::Loop(b1), span: sp1 };
    let l2 = SpecStmt { kind: SpecKind::Loop(b2), span: sp2 };
    if st.tape[st.ptr] == 0 {
    } else if fuel == 0 {
    } else {
        match seq_sem(b1, st, (fuel - 1) as nat) {
            Outcome::Halt(st1) => {
                assert(seq_sem(b2, st, (fuel - 1) as nat) == seq_sem(b1, st, (fuel - 1) as nat));
                lemma_seq_sem_wf(b1, st, (fuel - 1) as nat);
                lemma_loop_body_refines(b1, b2, sp1, sp2, st1, (fuel - 1) as nat);
            },
            Outcome::Starve(st1) => {
                assert(seq_sem(b2, st, (fuel - 1) as nat) == seq_sem(b1, st, (fuel - 1) as nat));
            },
            Outcome::Spin => {},
        }
    }
}

/// `seq_sem` of a single statement.
pub proof fn lemma_seq_sem_singleton(s: SpecStmt, st: ExecState, fuel: nat)
    ensures
        seq_sem(seq![s], st, fuel) == stmt_sem(s, st, fuel),
{
    let ss = seq![s];
    assert(ss.drop_first() =~= Seq::<SpecStmt>::empty());
    assert(ss[0] == s);
    assert(ss.len() == 1);
    match stmt_sem(s, st, fuel) {
        Outcome::Halt(st1) => {
            assert(seq_sem(ss.drop_first(), st1, fuel) == Outcome::Halt(st1));
            assert(seq_sem(ss, st, fuel) == Outcome::Halt(st1));
        },
        Outcome::Starve(st1) => {
            assert(seq_sem(ss, st, fuel) == Outcome::Starve(st1));
        },
        Outcome::Spin => {
            assert(seq_sem(ss, st, fuel) == Outcome::Spin);
        },
    }
}

/// Two arithmetic steps at the same offset amount to one with the sum.
pub proof fn lemma_add_at_twice(st: ExecState, off: int, d1: int, d2: int)
    requires
        st_wf(st),
    ensures
        add_at(add_at(st, off, d1), off, d2) =~= add_at(st, off, d1 + d2),
{
    let m = st.tape.len() as int;
    let i = cell_idx(st, off);
    vstd::arithmetic::div_mod::lemma_mod_bound(st.ptr + off, m);
    let t = st.tape[i] as int;
    let v1 = ((t + d1) % 256 + 256) % 256;
    assert(add_at(st, off, d1).ptr == st.ptr);
    assert(add_at(st, off, d1).tape.len() == st.tape.len());
    assert(cell_idx(add_at(st, off, d1), off) == i);
    assert(add_at(st, off, d1).tape[i] == v1 as u8);
    let v2 = ((v1 + d2) % 256 + 256) % 256;
    let v = ((t + d1 + d2) % 256 + 256) % 256;
    assert(v2 == v) by {
        lemma_mod_shift_unit(t + d1, d2);
    }
    assert(add_at(add_at(st, off, d1), off, d2).tape =~= add_at(st, off, d1 + d2).tape);
}

/// Normalizing into `0..256`, adding `d`, and normalizing again is the same
/// as adding `d` first and normalizing once.
pub proof fn lemma_mod_shift_unit(x: int, d: int)
    ensures
        (((x % 256 + 256) % 256 + d) % 256 + 256) % 256 == ((x + d) % 256 + 256) % 256,
{
    vstd::arithmetic::div_mod::lemma_mod_bound(x, 256);
    assert((x % 256 + 256) % 256 == x % 256) by {
        vstd::arithmetic::div_mod::lemma_mod_add_multiples_vanish(x % 256, 256);
        vstd::arithmetic::div_mod::lemma_mod_twice(x, 256);
    }
    assert((x % 256 + d) % 256 == (x + d) % 256) by {
        vstd::arithmetic::div_mod::lemma_add_mod_noop(x, d, 256);
        vstd::arithmetic::div_mod::lemma_add_mod_noop(x % 256, d, 256);
        vstd::arithmetic::div_mod::lemma_mod_twice(x, 256);
    }
}

/// Adding zero to a cell leaves the state unchanged.
pub proof fn lemma_add_at_zero(st: ExecState, off: int)
    requires
        st_wf(st),
    ensures
        add_at(st, off, 0) =~= st,
{
    let m = st.tape.len() as int;
    let i = cell_idx(st, off);
    vstd::arithmetic::div_mod::lemma_mod_bound(st.ptr + off, m);
    let t = st.tape[i] as int;
    assert(((t + 0) % 256 + 256) % 256 == t) by {
        vstd::arithmetic::div_mod::lemma_small_mod(t as nat, 256);
        vstd::arithmetic::div_mod::lemma_mod_add_multiples_vanish(t % 256, 256);
        vstd::arithmetic::div_mod::lemma_mod_twice(t, 256);
    }
    assert(add_at(st, off, 0).tape =~= st.tape);
}

/// Two pointer moves amount to one by the sum.
pub proof fn lemma_move_ptr_twice(st: ExecState, d1: int, d2: int)
    requires
        st_wf(st),
    ensures
        move_ptr(move_ptr(st, d1), d2) =~= move_ptr(st, d1 + d2),
{
    let m = st.tape.len() as int;
    assert(((st.ptr + d1) % m + d2) % m == (st.ptr + d1 + d2) % m) by {
        vstd::arithmetic::div_mod::lemma_add_mod_noop(st.ptr + d1, d2, m);
        vstd::arithmetic::div_mod::lemma_add_mod_noop((st.ptr + d1) % m, d2, m);
        vstd::arithmetic::div_mod::lemma_mod_twice(st.ptr + d1, m);
    }
}

/// Moving the pointer by zero leaves the state unchanged.
pub proof fn lemma_move_ptr_zero(st: ExecState)
    requires
        st_wf(st),
    ensures
        move_ptr(st, 0) =~= st,
{
    vstd::arithmetic::div_mod::lemma_small_mod(st.ptr as nat, st.tape.len());
}

/// Arithmetic steps at two offsets commute.
pub proof fn lemma_add_at_comm(st: ExecState, o1: int, d1: int, o2: int, d2: int)
    requires
        st_wf(st),
    ensures
        add_at(add_at(st, o1, d1), o2, d2) =~= add_at(add_at(st, o2, d2), o1, d1),
{
    let m = st.tape.len() as int;
    let i1 = cell_idx(st, o1);
    let i2 = cell_idx(st, o2);
    vstd::arithmetic::div_mod::lemma_mod_bound(st.ptr + o1, m);
    vstd::arithmetic::div_mod::lemma_mod_bound(st.ptr + o2, m);
    assert(cell_idx(add_at(st, o1, d1), o2) == i2);
    assert(cell_idx(add_at(st, o2, d2), o1) == i1);
    if i1 == i2 {
        let t = st.tape[i1] as int;
        lemma_mod_shift_unit(t + d1, d2);
        lemma_mod_shift_unit(t + d2, d1);
        assert(add_at(add_at(st, o1, d1), o2, d2).tape =~= add_at(add_at(st, o2, d2), o1, d1).tape);
    } else {
        assert(add_at(add_at(st, o1, d1), o2, d2).tape =~= add_at(add_at(st, o2, d2), o1, d1).tape);
    }
}

/// `seq_sem` of three statements.
pub proof fn lemma_seq_sem_triple(s1: SpecStmt, s2: SpecStmt, s3: SpecStmt, st: ExecState, fuel: nat)
    ensures
        seq_sem(seq![s1, s2, s3], st, fuel) == match stmt_sem(s1, st, fuel) {
            Outcome::Halt(st1) => match stmt_sem(s2, st1, fuel) {
                Outcome::Halt(st2) => stmt_sem(s3, st2, fuel),
                o => o,
            },
            o => o,
        },
{
    assert(seq![s1, s2, s3].drop_first() =~= seq![s2, s3]);
    match stmt_sem(s1, st, fuel) {
        Outcome::Halt(st1) => {
            lemma_seq_sem_pair(s2, s3, st1, fuel);
        },
        _ => {},
    }
}

/// What wrapping 8-bit addition computes, in the semantics' normal form.
pub proof fn lemma_wrap_u8_add(v: u8, n: u8)
    ensures
        v.wrapping_add(n) as int == ((v + n) % 256 + 256) % 256,
{
    if v + n <= 255 {
        vstd::arithmetic::div_mod::lemma_small_mod((v + n) as nat, 256);
    } else {
        vstd::arithmetic::div_mod::lemma_fundamental_div_mod_converse(
            v + n,
            256,
            1,
            v + n - 256,
        );
    }
    vstd::arithmetic::div_mod::lemma_mod_add_multiples_vanish((v + n) % 256, 256);
    vstd::arithmetic::div_mod::lemma_mod_twice(v + n, 256);
}

/// What wrapping 8-bit subtraction computes, in the semantics' normal form.
pub proof fn lemma_wrap_u8_sub(v: u8, n: u8)
    ensures
        v.wrapping_sub(n) as int == ((v - n) % 256 + 256) % 256,
{
    if v >= n {
        vstd::arithmetic::div_mod::lemma_small_mod((v - n) as nat, 256);
    } else {
        vstd::arithmetic::div_mod::lemma_fundamental_div_mod_converse(
            v - n,
            256,
            -1,
            v - n + 256,
        );
    }
    vstd::arithmetic::div_mod::lemma_mod_add_multiples_vanish((v - n) % 256, 256);
    vstd::arithmetic::div_mod::lemma_mod_twice(v - n, 256);
}

/// `seq_sem` of a pair of statements.
pub proof fn lemma_seq_sem_pair(s1: SpecStmt, s2: SpecStmt, st: ExecState, fuel: nat)
    ensures
        seq_sem(seq![s1, s2], st, fuel) == match stmt_sem(s1, st, fuel) {
            Outcome::Halt(st1) => stmt_sem(s2, st1, fuel),
            o => o,
        },
{
    assert(seq![s1, s2].drop_first() =~= seq![s2]);
    match stmt_sem(s1, st, fuel) {
        Outcome::Halt(st1) => {
            lemma_seq_sem_singleton(s2, st1, fuel);
        },
        _ => {},
    }
}

} // verus!
