//! The optimizing tree engine: rewrite the statement tree (cell-clearing
//! loops, run-length repetition) and interpret the rewritten form. Each
//! rewrite refines the original tree's behaviour on the shared execution
//! semantics.

use vstd::prelude::*;

use crate::hir::opts::lemma_zero_loop_equiv;
use crate::interpreter::{
    bytes_to_string, bytes_as_chars, chars_balanced, minify, parse, sig_chars, stmt_seq_spec,
    stmt_spec, Statement, MEM_SIZE,
};
use crate::interpreter::parsed::StepResult;
use crate::lir::interpreter::abs_state;
use crate::semantics::{
    add_at, equiv_seqs, init_state, lemma_equiv_append, lemma_equiv_loop, lemma_equiv_refl,
    lemma_seq_sem_append, lemma_seq_sem_singleton, lemma_wrap_u8_add,
    lemma_wrap_u8_sub, move_ptr, seq_sem, set_cell, stmt_sem, ExecState, Outcome, SpecKind,
    SpecStmt,
};
use crate::span::Span;

verus! {

broadcast use vstd::std_specs::vec::group_vec_axioms;

/// A statement of the optimized tree: the parsed statements plus the
/// cell-clearing write and a counted repetition.
#[derive(Debug, PartialEq, Eq)]
pub enum ExStatement {
    Inc,
    Dec,
    R,
    L,
    Out,
    DOut,
    In,
    Loop(Vec<ExStatement>),
    SetNull,
    Repeat(Box<ExStatement>, usize),
    /// An inert experimental variant: pattern detection produces it, but
    /// no rewrite emits it and execution treats it as doing nothing.
    _ForLoop(usize, Box<ExStatement>),
}

/// An interpretation error, carrying a fixed description.
#[derive(Debug, PartialEq, Eq)]
pub struct BfErr {
    pub msg: String,
}

impl BfErr {
    pub fn new(msg: &'static str) -> (r: BfErr)
        ensures
            r.msg@ == msg@,
    {
        BfErr { msg: msg.to_owned() }
    }

    /// The error's description.
    pub fn message(&self) -> (r: &str)
        ensures
            r@ == self.msg@,
    {
        self.msg.as_str()
    }
}

/// `x` repeated `n` times.
pub open spec fn repeat_flat(x: Seq<SpecStmt>, n: nat) -> Seq<SpecStmt>
    decreases n,
{
    if n == 0 {
        Seq::empty()
    } else {
        x + repeat_flat(x, (n - 1) as nat)
    }
}

/// The mathematical statements an optimized statement stands for.
pub open spec fn ex_spec(s: ExStatement) -> Seq<SpecStmt>
    decreases s,
{
    let sp = Span { start: 0, len: 0 };
    match s {
        ExStatement::Inc => seq![SpecStmt { kind: SpecKind::Add(0, 1), span: sp }],
        ExStatement::Dec => seq![SpecStmt { kind: SpecKind::Sub(0, 1), span: sp }],
        ExStatement::R => seq![SpecStmt { kind: SpecKind::Right(1), span: sp }],
        ExStatement::L => seq![SpecStmt { kind: SpecKind::Left(1), span: sp }],
        ExStatement::Out => seq![SpecStmt { kind: SpecKind::Out, span: sp }],
        ExStatement::DOut => seq![SpecStmt { kind: SpecKind::Out, span: sp }],
        ExStatement::In => seq![SpecStmt { kind: SpecKind::In, span: sp }],
        ExStatement::Loop(v) => seq![
            SpecStmt { kind: SpecKind::Loop(ex_seq_spec(v@)), span: sp },
        ],
        ExStatement::SetNull => seq![SpecStmt { kind: SpecKind::SetN(0), span: sp }],
        ExStatement::Repeat(b, n) => repeat_flat(ex_spec(*b), n as nat),
        ExStatement::_ForLoop(_, _) => Seq::empty(),
    }
}

pub open spec fn ex_seq_spec(v: Seq<ExStatement>) -> Seq<SpecStmt>
    decreases v,
{
    if v.len() == 0 {
        Seq::empty()
    } else {
        ex_seq_spec(v.drop_last()) + ex_spec(v.last())
    }
}

proof fn lemma_ex_seq_spec_push(v: Seq<ExStatement>, x: ExStatement)
    ensures
        ex_seq_spec(v.push(x)) == ex_seq_spec(v) + ex_spec(x),
{
    assert(v.push(x).drop_last() =~= v);
}

proof fn lemma_ex_seq_spec_first(v: Seq<ExStatement>)
    requires
        v.len() >= 1,
    ensures
        ex_seq_spec(v) == ex_spec(v[0]) + ex_seq_spec(v.drop_first()),
    decreases v,
{
    if v.len() == 1 {
        assert(v.drop_last() =~= Seq::<ExStatement>::empty());
        assert(v.drop_first() =~= Seq::<ExStatement>::empty());
        assert(v.last() == v[0]);
        assert(ex_seq_spec(v) =~= ex_spec(v[0]) + ex_seq_spec(v.drop_first()));
    } else {
        lemma_ex_seq_spec_first(v.drop_last());
        assert(v.drop_last()[0] == v[0]);
        assert(v.drop_last().drop_first() =~= v.drop_first().drop_last());
        assert(v.drop_first().last() == v.last());
        assert(ex_seq_spec(v) =~= ex_spec(v[0]) + ex_seq_spec(v.drop_first()));
    }
}

/// Repetition appends one more copy at the end as well as at the front.
proof fn lemma_repeat_snoc(x: Seq<SpecStmt>, n: nat)
    ensures
        repeat_flat(x, n + 1) == repeat_flat(x, n) + x,
    decreases n,
{
    if n == 0 {
        assert(repeat_flat(x, 0) == Seq::<SpecStmt>::empty());
        assert(repeat_flat(x, 1) == x + repeat_flat(x, 0));
        assert(x + Seq::<SpecStmt>::empty() =~= x);
        assert(Seq::<SpecStmt>::empty() + x =~= x);
        assert(repeat_flat(x, 1) =~= repeat_flat(x, 0) + x);
    } else {
        lemma_repeat_snoc(x, (n - 1) as nat);
        assert(repeat_flat(x, n + 1) == x + repeat_flat(x, n));
        assert(repeat_flat(x, n) == x + repeat_flat(x, (n - 1) as nat));
        assert(x + (repeat_flat(x, (n - 1) as nat) + x) =~= (x + repeat_flat(
            x,
            (n - 1) as nat,
        )) + x);
    }
}

/// Structural equality of optimized statements, as the rewriter needs it.
pub open spec fn ex_eq_spec(a: ExStatement, b: ExStatement) -> bool
    decreases a,
{
    match (a, b) {
        (ExStatement::Inc, ExStatement::Inc) => true,
        (ExStatement::Dec, ExStatement::Dec) => true,
        (ExStatement::R, ExStatement::R) => true,
        (ExStatement::L, ExStatement::L) => true,
        (ExStatement::Out, ExStatement::Out) => true,
        (ExStatement::DOut, ExStatement::DOut) => true,
        (ExStatement::In, ExStatement::In) => true,
        (ExStatement::SetNull, ExStatement::SetNull) => true,
        (ExStatement::Loop(v1), ExStatement::Loop(v2)) => ex_eq_seq_spec(v1@, v2@),
        (ExStatement::Repeat(b1, n1), ExStatement::Repeat(b2, n2)) => n1 == n2 && ex_eq_spec(
            *b1,
            *b2,
        ),
        (ExStatement::_ForLoop(n1, b1), ExStatement::_ForLoop(n2, b2)) => n1 == n2 && ex_eq_spec(
            *b1,
            *b2,
        ),
        _ => false,
    }
}

pub open spec fn ex_eq_seq_spec(a: Seq<ExStatement>, b: Seq<ExStatement>) -> bool
    decreases a,
{
    if a.len() != b.len() {
        false
    } else if a.len() == 0 {
        true
    } else {
        ex_eq_seq_spec(a.drop_last(), b.drop_last()) && ex_eq_spec(a.last(), b.last())
    }
}

/// Structurally equal statements stand for the same statements.
proof fn lemma_ex_eq_same_spec(a: ExStatement, b: ExStatement)
    requires
        ex_eq_spec(a, b),
    ensures
        ex_spec(a) == ex_spec(b),
    decreases a,
{
    match (a, b) {
        (ExStatement::Loop(v1), ExStatement::Loop(v2)) => {
            lemma_ex_eq_seq_same_spec(v1@, v2@);
        },
        (ExStatement::Repeat(b1, n1), ExStatement::Repeat(b2, n2)) => {
            lemma_ex_eq_same_spec(*b1, *b2);
        },
        _ => {},
    }
}

proof fn lemma_ex_eq_seq_same_spec(a: Seq<ExStatement>, b: Seq<ExStatement>)
    requires
        ex_eq_seq_spec(a, b),
    ensures
        ex_seq_spec(a) == ex_seq_spec(b),
    decreases a,
{
    if a.len() > 0 {
        lemma_ex_eq_seq_same_spec(a.drop_last(), b.drop_last());
        lemma_ex_eq_same_spec(a.last(), b.last());
    }
}

/// Decide structural equality of two optimized statement sequences.
fn ex_eq_vec(v1: &Vec<ExStatement>, v2: &Vec<ExStatement>) -> (r: bool)
    ensures
        r == ex_eq_seq_spec(v1@, v2@),
    decreases v1,
{
    if v1.len() != v2.len() {
        proof {
            lemma_ex_eq_seq_len(v1@, v2@);
        }
        return false;
    }
    let n = v1.len();
    let mut i: usize = 0;
    while i < n
        invariant
            i <= n,
            n == v1@.len(),
            n == v2@.len(),
            ex_eq_seq_spec(v1@.take(i as int), v2@.take(i as int)),
        decreases n - i,
    {
        if !ex_eq(&v1[i], &v2[i]) {
            proof {
                lemma_ex_eq_seq_prefix_refutes(v1@, v2@, i as int);
            }
            return false;
        }
        proof {
            assert(v1@.take(i + 1).drop_last() =~= v1@.take(i as int));
            assert(v2@.take(i + 1).drop_last() =~= v2@.take(i as int));
            assert(v1@.take(i + 1).last() == v1@[i as int]);
            assert(v2@.take(i + 1).last() == v2@[i as int]);
        }
        i = i + 1;
    }
    proof {
        assert(v1@.take(n as int) =~= v1@);
        assert(v2@.take(n as int) =~= v2@);
    }
    true
}

/// Decide structural equality of two optimized statements.
fn ex_eq(a: &ExStatement, b: &ExStatement) -> (r: bool)
    ensures
        r == ex_eq_spec(*a, *b),
    decreases a,
{
    match (a, b) {
        (ExStatement::Inc, ExStatement::Inc) => true,
        (ExStatement::Dec, ExStatement::Dec) => true,
        (ExStatement::R, ExStatement::R) => true,
        (ExStatement::L, ExStatement::L) => true,
        (ExStatement::Out, ExStatement::Out) => true,
        (ExStatement::DOut, ExStatement::DOut) => true,
        (ExStatement::In, ExStatement::In) => true,
        (ExStatement::SetNull, ExStatement::SetNull) => true,
        (ExStatement::Loop(v1), ExStatement::Loop(v2)) => ex_eq_vec(v1, v2),
        (ExStatement::Repeat(b1, n1), ExStatement::Repeat(b2, n2)) => *n1 == *n2 && ex_eq(
            &**b1,
            &**b2,
        ),
        (ExStatement::_ForLoop(n1, b1), ExStatement::_ForLoop(n2, b2)) => *n1 == *n2 && ex_eq(
            &**b1,
            &**b2,
        ),
        _ => false,
    }
}

proof fn lemma_ex_eq_seq_len(a: Seq<ExStatement>, b: Seq<ExStatement>)
    requires
        a.len() != b.len(),
    ensures
        !ex_eq_seq_spec(a, b),
{
}

proof fn lemma_ex_eq_seq_prefix_refutes(a: Seq<ExStatement>, b: Seq<ExStatement>, i: int)
    requires
        a.len() == b.len(),
        0 <= i < a.len(),
        !ex_eq_spec(a[i], b[i]),
    ensures
        !ex_eq_seq_spec(a, b),
    decreases a.len() - i,
{
    if i == a.len() - 1 {
    } else {
        lemma_ex_eq_seq_prefix_refutes(a.drop_last(), b.drop_last(), i);
    }
}

/// The clear-loop rewrite, statement for statement: a loop whose body is
/// exactly one decrement becomes the unconditional zero write, any other
/// loop is rewritten whole by the full optimizer, and every other
/// statement is carried over unchanged.
pub open spec fn set_null_rel_stmt(s: Statement, x: ExStatement) -> bool
    decreases s, 2int,
{
    match s {
        Statement::Loop(v) => {
            if v@.len() == 1 && v@[0] is Dec {
                x == ExStatement::SetNull
            } else {
                match x {
                    ExStatement::Loop(w) => optimize_rel(v@, w@),
                    _ => false,
                }
            }
        },
        Statement::Inc => x == ExStatement::Inc,
        Statement::Dec => x == ExStatement::Dec,
        Statement::R => x == ExStatement::R,
        Statement::L => x == ExStatement::L,
        Statement::Out => x == ExStatement::Out,
        Statement::DOut => x == ExStatement::DOut,
        Statement::In => x == ExStatement::In,
    }
}

/// The clear-loop rewrite over a sequence: same length, related
/// statement for statement.
pub open spec fn set_null_rel(code: Seq<Statement>, out: Seq<ExStatement>) -> bool
    decreases code, 0int,
{
    if code.len() != out.len() {
        false
    } else if code.len() == 0 {
        true
    } else {
        set_null_rel(code.drop_last(), out.drop_last()) && set_null_rel_stmt(
            code.last(),
            out.last(),
        )
    }
}

/// The whole rewriter, structurally: the clear-loop rewrite followed by
/// the run-length folding.
pub open spec fn optimize_rel(code: Seq<Statement>, out: Seq<ExStatement>) -> bool
    decreases code, 1int,
{
    exists|mid: Seq<ExStatement>| set_null_rel(code, mid) && out == #[trigger] o_repeat_spec(mid)
}

/// Replace each cell-clearing loop (a body that is exactly one decrement)
/// by the unconditional zero write; any other loop is optimized whole.
fn o_set_null(code: &Vec<Statement>) -> (r: Vec<ExStatement>)
    ensures
        equiv_seqs(stmt_seq_spec(code@), ex_seq_spec(r@)),
        set_null_rel(code@, r@),
    decreases code, 0int,
{
    let mut out: Vec<ExStatement> = Vec::new();
    let n = code.len();
    proof {
        assert(code@.take(0int) =~= Seq::<Statement>::empty());
    }
    let mut i: usize = 0;
    while i < n
        invariant
            i <= n,
            n == code@.len(),
            equiv_seqs(stmt_seq_spec(code@.take(i as int)), ex_seq_spec(out@)),
            set_null_rel(code@.take(i as int), out@),
        decreases n - i,
    {
        let s = &code[i];
        let x: ExStatement = match s {
            Statement::Loop(v) => {
                let mut is_clear = false;
                if v.len() == 1 {
                    if let Statement::Dec = &v[0] {
                        is_clear = true;
                    }
                }
                if is_clear {
                    proof {
                        let body = stmt_seq_spec(v@);
                        crate::interpreter::lemma_stmt_seq_spec_len(v@);
                        crate::interpreter::lemma_stmt_seq_spec_index(v@, 0);
                        assert(body =~= seq![
                            SpecStmt {
                                kind: SpecKind::Sub(0, 1),
                                span: Span { start: 0, len: 0 },
                            },
                        ]);
                        lemma_zero_loop_equiv(
                            1,
                            Span { start: 0, len: 0 },
                            Span { start: 0, len: 0 },
                        );
                        assert(set_null_rel_stmt(code@[i as int], ExStatement::SetNull));
                    }
                    ExStatement::SetNull
                } else {
                    let new_body = optimize(v);
                    proof {
                        lemma_equiv_loop(
                            stmt_seq_spec(v@),
                            ex_seq_spec(new_body@),
                            Span { start: 0, len: 0 },
                            Span { start: 0, len: 0 },
                        );
                        assert(set_null_rel_stmt(
                            code@[i as int],
                            ExStatement::Loop(new_body),
                        ));
                    }
                    ExStatement::Loop(new_body)
                }
            },
            Statement::Inc => ExStatement::Inc,
            Statement::Dec => ExStatement::Dec,
            Statement::R => ExStatement::R,
            Statement::L => ExStatement::L,
            Statement::Out => ExStatement::Out,
            Statement::DOut => ExStatement::DOut,
            Statement::In => ExStatement::In,
        };
        proof {
            assert(equiv_seqs(seq![stmt_spec(code@[i as int])], ex_spec(x))) by {
                match code@[i as int] {
                    Statement::Loop(_) => {},
                    _ => {
                        lemma_equiv_refl(seq![stmt_spec(code@[i as int])]);
                    },
                }
            }
        }
        let ghost old_out = out@;
        out.push(x);
        proof {
            lemma_ex_seq_spec_push(old_out, x);
            assert(stmt_seq_spec(code@.take(i + 1)).drop_last() =~= stmt_seq_spec(
                code@.take(i as int),
            )) by {
                assert(code@.take(i + 1).drop_last() =~= code@.take(i as int));
                assert(stmt_seq_spec(code@.take(i + 1)) == stmt_seq_spec(
                    code@.take(i + 1).drop_last(),
                ).push(stmt_spec(code@.take(i + 1).last())));
            }
            assert(code@.take(i + 1).drop_last() =~= code@.take(i as int));
            assert(code@.take(i + 1).last() == code@[i as int]);
            assert(stmt_seq_spec(code@.take(i + 1)) =~= stmt_seq_spec(code@.take(i as int))
                + seq![stmt_spec(code@[i as int])]);
            lemma_equiv_append(
                stmt_seq_spec(code@.take(i as int)),
                ex_seq_spec(old_out),
                seq![stmt_spec(code@[i as int])],
                ex_spec(x),
            );
            assert(set_null_rel_stmt(code@[i as int], x));
            assert(out@.drop_last() =~= old_out);
            assert(set_null_rel(code@.take(i + 1), out@));
        }
        i = i + 1;
    }
    proof {
        assert(code@.take(n as int) =~= code@);
    }
    out
}

/// What the run-length folding computes, scanning from the front with a
/// pending count: while the next statement equals the current one the
/// count grows; a run of one is kept bare, a longer run becomes one
/// counted repetition of its closing statement.
pub open spec fn o_repeat_go(rest: Seq<ExStatement>, amount: nat) -> Seq<ExStatement>
    decreases rest.len(),
{
    if rest.len() == 0 {
        Seq::empty()
    } else {
        let x = rest[0];
        if rest.len() >= 2 && ex_eq_spec(x, rest[1]) {
            o_repeat_go(rest.drop_first(), amount + 1)
        } else if amount == 0 {
            seq![x] + o_repeat_go(rest.drop_first(), 0)
        } else {
            seq![ExStatement::Repeat(Box::new(x), (amount + 1) as usize)] + o_repeat_go(
                rest.drop_first(),
                0,
            )
        }
    }
}

pub open spec fn o_repeat_spec(code: Seq<ExStatement>) -> Seq<ExStatement> {
    o_repeat_go(code, 0)
}

/// Fold runs of identical adjacent statements into counted repetitions:
/// the result is exactly the `o_repeat_spec` folding, and the rewritten
/// sequence stands for exactly the same statements.
pub fn o_repeat(code: Vec<ExStatement>) -> (r: Vec<ExStatement>)
    ensures
        r@ == o_repeat_spec(code@),
        ex_seq_spec(r@) == ex_seq_spec(code@),
{
    let ghost orig = code@;
    let mut rest = code;
    let mut out: Vec<ExStatement> = Vec::new();
    let mut amount: usize = 0;
    let total_len = rest.len();
    proof {
        assert(orig.len() == total_len);
        assert(ex_seq_spec(out@) =~= Seq::<SpecStmt>::empty());
        assert(ex_seq_spec(orig) =~= ex_seq_spec(out@) + repeat_flat(Seq::empty(), 0)
            + ex_seq_spec(rest@));
    }
    proof {
        assert(o_repeat_go(orig, 0) =~= out@ + o_repeat_go(rest@, 0));
    }
    while rest.len() > 0
        invariant
            orig.len() <= usize::MAX,
            amount + rest@.len() <= orig.len(),
            o_repeat_go(orig, 0) == out@ + o_repeat_go(rest@, amount as nat),
            rest@.len() > 0 ==> ex_seq_spec(orig) == ex_seq_spec(out@) + repeat_flat(
                ex_spec(rest@[0]),
                amount as nat,
            ) + ex_seq_spec(rest@),
            rest@.len() == 0 ==> amount == 0 && ex_seq_spec(orig) == ex_seq_spec(out@),
        decreases rest@.len(),
    {
        let ghost pre = rest@;
        let x = rest.remove(0);
        let same = rest.len() > 0 && ex_eq(&x, &rest[0]);
        proof {
            lemma_ex_seq_spec_first(pre);
            assert(pre[0] == x);
            assert(pre.drop_first() =~= rest@);
            assert(ex_seq_spec(pre) == ex_spec(x) + ex_seq_spec(rest@));
        }
        if same {
            amount = amount + 1;
            proof {
                lemma_ex_eq_same_spec(x, rest@[0]);
                lemma_repeat_snoc(ex_spec(x), (amount - 1) as nat);
                assert(ex_seq_spec(orig) =~= ex_seq_spec(out@) + repeat_flat(
                    ex_spec(rest@[0]),
                    amount as nat,
                ) + ex_seq_spec(rest@));
                assert(o_repeat_go(pre, (amount - 1) as nat) == o_repeat_go(
                    rest@,
                    amount as nat,
                ));
            }
        } else if amount == 0 {
            let ghost old_out = out@;
            out.push(x);
            proof {
                lemma_ex_seq_spec_push(old_out, x);
                if rest@.len() > 0 {
                    assert(ex_seq_spec(orig) =~= ex_seq_spec(out@) + repeat_flat(
                        ex_spec(rest@[0]),
                        0,
                    ) + ex_seq_spec(rest@));
                } else {
                    assert(ex_seq_spec(orig) =~= ex_seq_spec(out@));
                }
                assert(o_repeat_go(pre, 0) == seq![x] + o_repeat_go(rest@, 0));
                assert(out@ =~= old_out + seq![x]);
                assert(old_out + (seq![x] + o_repeat_go(rest@, 0)) =~= (old_out + seq![x])
                    + o_repeat_go(rest@, 0));
            }
        } else {
            let n = amount + 1;
            let ghost old_out = out@;
            let folded = ExStatement::Repeat(Box::new(x), n);
            proof {
                lemma_repeat_snoc(ex_spec(x), amount as nat);
            }
            out.push(folded);
            let ghost pre_amount = amount;
            amount = 0;
            proof {
                lemma_ex_seq_spec_push(old_out, folded);
                if rest@.len() > 0 {
                    assert(ex_seq_spec(orig) =~= ex_seq_spec(out@) + repeat_flat(
                        ex_spec(rest@[0]),
                        0,
                    ) + ex_seq_spec(rest@));
                } else {
                    assert(ex_seq_spec(orig) =~= ex_seq_spec(out@));
                }
                assert(o_repeat_go(pre, pre_amount as nat) == seq![folded] + o_repeat_go(
                    rest@,
                    0,
                ));
                assert(out@ =~= old_out + seq![folded]);
                assert(old_out + (seq![folded] + o_repeat_go(rest@, 0)) =~= (old_out
                    + seq![folded]) + o_repeat_go(rest@, 0));
            }
        }
    }
    proof {
        assert(o_repeat_go(rest@, 0) =~= Seq::<ExStatement>::empty());
        assert(out@ + Seq::<ExStatement>::empty() =~= out@);
    }
    out
}

/// The optimizer: clear-loop replacement, then run-length folding. The
/// result refines the parsed tree's behaviour.
pub fn optimize(code: &Vec<Statement>) -> (r: Vec<ExStatement>)
    ensures
        equiv_seqs(stmt_seq_spec(code@), ex_seq_spec(r@)),
        optimize_rel(code@, r@),
    decreases code, 1int,
{
    let a = o_set_null(code);
    let ghost mid = ex_seq_spec(a@);
    let ghost cleared = a@;
    let b = o_repeat(a);
    proof {
        assert(ex_seq_spec(b@) == mid);
        assert(set_null_rel(code@, cleared) && b@ == o_repeat_spec(cleared));
        assert(optimize_rel(code@, b@));
    }
    b
}

/// Execute one optimized statement, mirroring the statements it stands
/// for exactly.
pub fn execute(
    statement: &ExStatement,
    mem: &mut Vec<u8>,
    pointer: &mut usize,
    out: &mut Vec<u8>,
    input: &[u8],
    inpos: &mut usize,
    fuel: u64,
) -> (r: StepResult)
    requires
        old(mem)@.len() == MEM_SIZE,
        *old(pointer) < MEM_SIZE,
        *old(inpos) <= input@.len(),
    ensures
        final(mem)@.len() == MEM_SIZE,
        *final(pointer) < MEM_SIZE,
        *final(inpos) <= input@.len(),
        ({
            let pre = abs_state(
                old(mem)@,
                *old(pointer) as int,
                input@,
                *old(inpos) as int,
                old(out)@,
            );
            let post = abs_state(
                final(mem)@,
                *final(pointer) as int,
                input@,
                *final(inpos) as int,
                final(out)@,
            );
            match r {
                StepResult::Done => seq_sem(ex_spec(*statement), pre, fuel as nat)
                    == Outcome::Halt(post),
                StepResult::Starved => seq_sem(ex_spec(*statement), pre, fuel as nat)
                    == Outcome::Starve(post),
                StepResult::Spun => seq_sem(ex_spec(*statement), pre, fuel as nat)
                    == Outcome::Spin,
            }
        }),
    decreases statement, 0int,
{
    let ghost pre = abs_state(mem@, *pointer as int, input@, *inpos as int, out@);
    proof {
        vstd::arithmetic::div_mod::lemma_small_mod(*pointer as nat, MEM_SIZE as nat);
    }
    let p: usize = *pointer;
    match statement {
        ExStatement::Inc => {
            let old_val = mem[p];
            mem.set(p, old_val.wrapping_add(1));
            proof {
                lemma_wrap_u8_add(old_val, 1);
                lemma_seq_sem_singleton(ex_spec(*statement)[0], pre, fuel as nat);
                assert(ex_spec(*statement) =~= seq![ex_spec(*statement)[0]]);
                assert(abs_state(mem@, p as int, input@, *inpos as int, out@) =~= add_at(
                    pre,
                    0,
                    1,
                ));
            }
            StepResult::Done
        },
        ExStatement::Dec => {
            let old_val = mem[p];
            mem.set(p, old_val.wrapping_sub(1));
            proof {
                lemma_wrap_u8_sub(old_val, 1);
                lemma_seq_sem_singleton(ex_spec(*statement)[0], pre, fuel as nat);
                assert(ex_spec(*statement) =~= seq![ex_spec(*statement)[0]]);
                assert(abs_state(mem@, p as int, input@, *inpos as int, out@) =~= add_at(
                    pre,
                    0,
                    -1,
                ));
            }
            StepResult::Done
        },
        ExStatement::R => {
            let np = crate::tape::cell_index(p, 1, MEM_SIZE);
            *pointer = np;
            proof {
                lemma_seq_sem_singleton(ex_spec(*statement)[0], pre, fuel as nat);
                assert(ex_spec(*statement) =~= seq![ex_spec(*statement)[0]]);
                assert(abs_state(mem@, *pointer as int, input@, *inpos as int, out@)
                    =~= move_ptr(pre, 1));
            }
            StepResult::Done
        },
        ExStatement::L => {
            let np = crate::tape::cell_index(p, -1, MEM_SIZE);
            *pointer = np;
            proof {
                lemma_seq_sem_singleton(ex_spec(*statement)[0], pre, fuel as nat);
                assert(ex_spec(*statement) =~= seq![ex_spec(*statement)[0]]);
                assert(abs_state(mem@, *pointer as int, input@, *inpos as int, out@)
                    =~= move_ptr(pre, -1));
            }
            StepResult::Done
        },
        ExStatement::Out => {
            let b = mem[p];
            out.push(b);
            proof {
                lemma_seq_sem_singleton(ex_spec(*statement)[0], pre, fuel as nat);
                assert(ex_spec(*statement) =~= seq![ex_spec(*statement)[0]]);
                assert(abs_state(mem@, p as int, input@, *inpos as int, out@) =~= ExecState {
                    output: pre.output.push(pre.tape[pre.ptr]),
                    ..pre
                });
            }
            StepResult::Done
        },
        ExStatement::DOut => {
            let b = mem[p];
            out.push(b);
            proof {
                lemma_seq_sem_singleton(ex_spec(*statement)[0], pre, fuel as nat);
                assert(ex_spec(*statement) =~= seq![ex_spec(*statement)[0]]);
                assert(abs_state(mem@, p as int, input@, *inpos as int, out@) =~= ExecState {
                    output: pre.output.push(pre.tape[pre.ptr]),
                    ..pre
                });
            }
            StepResult::Done
        },
        ExStatement::In => {
            proof {
                lemma_seq_sem_singleton(ex_spec(*statement)[0], pre, fuel as nat);
                assert(ex_spec(*statement) =~= seq![ex_spec(*statement)[0]]);
            }
            if *inpos >= input.len() {
                proof {
                    assert(pre.input =~= Seq::<u8>::empty());
                }
                StepResult::Starved
            } else {
                let b = input[*inpos];
                mem.set(p, b);
                *inpos = *inpos + 1;
                proof {
                    assert(pre.input[0] == input@[*inpos - 1]);
                    assert(input@.skip(*inpos as int) =~= pre.input.drop_first());
                    assert(abs_state(mem@, p as int, input@, *inpos as int, out@) =~= ExecState {
                        tape: pre.tape.update(pre.ptr, pre.input[0]),
                        input: pre.input.drop_first(),
                        ..pre
                    });
                }
                StepResult::Done
            }
        },
        ExStatement::SetNull => {
            mem.set(p, 0);
            proof {
                lemma_seq_sem_singleton(ex_spec(*statement)[0], pre, fuel as nat);
                assert(ex_spec(*statement) =~= seq![ex_spec(*statement)[0]]);
                assert(abs_state(mem@, p as int, input@, *inpos as int, out@) =~= set_cell(
                    pre,
                    0,
                ));
            }
            StepResult::Done
        },
        ExStatement::_ForLoop(_, _) => {
            // inert: stands for no statements at all
            StepResult::Done
        },
        ExStatement::Loop(body) => {
            let ghost the_loop = SpecStmt {
                kind: SpecKind::Loop(ex_seq_spec(body@)),
                span: Span { start: 0, len: 0 },
            };
            let mut fl: u64 = fuel;
            loop
                invariant
                    statement matches ExStatement::Loop(bb) && bb == body,
                    the_loop == (SpecStmt {
                        kind: SpecKind::Loop(ex_seq_spec(body@)),
                        span: Span { start: 0, len: 0 },
                    }),
                    ex_spec(*statement) == seq![the_loop],
                    pre == abs_state(
                        old(mem)@,
                        *old(pointer) as int,
                        input@,
                        *old(inpos) as int,
                        old(out)@,
                    ),
                    mem@.len() == MEM_SIZE,
                    *pointer < MEM_SIZE,
                    *inpos <= input@.len(),
                    fl <= fuel,
                    ({
                        let cur = abs_state(mem@, *pointer as int, input@, *inpos as int, out@);
                        stmt_sem(the_loop, pre, fuel as nat) == stmt_sem(the_loop, cur, fl as nat)
                    }),
                decreases fl,
            {
                let ghost cur = abs_state(mem@, *pointer as int, input@, *inpos as int, out@);
                if mem[*pointer] == 0 {
                    proof {
                        assert(stmt_sem(the_loop, cur, fl as nat) == Outcome::Halt(cur));
                        lemma_seq_sem_singleton(the_loop, pre, fuel as nat);
                    }
                    return StepResult::Done;
                }
                if fl == 0 {
                    proof {
                        assert(stmt_sem(the_loop, cur, fl as nat) == Outcome::Spin);
                        lemma_seq_sem_singleton(the_loop, pre, fuel as nat);
                    }
                    return StepResult::Spun;
                }
                fl = fl - 1;
                let st = run_ex_stmts(body, mem, pointer, out, input, inpos, fl);
                proof {
                    let nxt = abs_state(mem@, *pointer as int, input@, *inpos as int, out@);
                    match st {
                        StepResult::Done => {
                            assert(seq_sem(ex_seq_spec(body@), cur, fl as nat) == Outcome::Halt(
                                nxt,
                            ));
                            assert(stmt_sem(the_loop, cur, (fl + 1) as nat) == stmt_sem(
                                the_loop,
                                nxt,
                                fl as nat,
                            ));
                        },
                        StepResult::Starved => {
                            assert(seq_sem(ex_seq_spec(body@), cur, fl as nat)
                                == Outcome::Starve(nxt));
                            lemma_seq_sem_singleton(the_loop, pre, fuel as nat);
                        },
                        StepResult::Spun => {
                            assert(seq_sem(ex_seq_spec(body@), cur, fl as nat) == Outcome::Spin);
                            lemma_seq_sem_singleton(the_loop, pre, fuel as nat);
                        },
                    }
                }
                match st {
                    StepResult::Done => {},
                    other => {
                        return other;
                    },
                }
            }
        },
        ExStatement::Repeat(b, n) => {
            let count = *n;
            let mut k: usize = 0;
            proof {
                assert(ex_spec(*statement) == repeat_flat(ex_spec(**b), count as nat));
            }
            while k < count
                invariant
                    k <= count,
                    statement matches ExStatement::Repeat(bb, nn) && bb == b && nn == n,
                    count == *n,
                    pre == abs_state(
                        old(mem)@,
                        *old(pointer) as int,
                        input@,
                        *old(inpos) as int,
                        old(out)@,
                    ),
                    mem@.len() == MEM_SIZE,
                    *pointer < MEM_SIZE,
                    *inpos <= input@.len(),
                    ({
                        let cur = abs_state(mem@, *pointer as int, input@, *inpos as int, out@);
                        seq_sem(repeat_flat(ex_spec(**b), count as nat), pre, fuel as nat)
                            == seq_sem(
                            repeat_flat(ex_spec(**b), (count - k) as nat),
                            cur,
                            fuel as nat,
                        )
                    }),
                decreases count - k,
            {
                let ghost cur = abs_state(mem@, *pointer as int, input@, *inpos as int, out@);
                proof {
                    assert(repeat_flat(ex_spec(**b), (count - k) as nat) == ex_spec(**b)
                        + repeat_flat(ex_spec(**b), (count - k - 1) as nat));
                    lemma_seq_sem_append(
                        ex_spec(**b),
                        repeat_flat(ex_spec(**b), (count - k - 1) as nat),
                        cur,
                        fuel as nat,
                    );
                }
                let st = execute(&**b, mem, pointer, out, input, inpos, fuel);
                match st {
                    StepResult::Done => {},
                    other => {
                        return other;
                    },
                }
                k = k + 1;
            }
            proof {
                let cur = abs_state(mem@, *pointer as int, input@, *inpos as int, out@);
                assert(repeat_flat(ex_spec(**b), 0) == Seq::<SpecStmt>::empty());
                assert(seq_sem(Seq::<SpecStmt>::empty(), cur, fuel as nat) == Outcome::Halt(cur));
            }
            StepResult::Done
        },
    }
}

/// Execute an optimized statement sequence left to right.
pub fn run_ex_stmts(
    stmts: &Vec<ExStatement>,
    mem: &mut Vec<u8>,
    pointer: &mut usize,
    out: &mut Vec<u8>,
    input: &[u8],
    inpos: &mut usize,
    fuel: u64,
) -> (r: StepResult)
    requires
        old(mem)@.len() == MEM_SIZE,
        *old(pointer) < MEM_SIZE,
        *old(inpos) <= input@.len(),
    ensures
        final(mem)@.len() == MEM_SIZE,
        *final(pointer) < MEM_SIZE,
        *final(inpos) <= input@.len(),
        ({
            let pre = abs_state(
                old(mem)@,
                *old(pointer) as int,
                input@,
                *old(inpos) as int,
                old(out)@,
            );
            let post = abs_state(
                final(mem)@,
                *final(pointer) as int,
                input@,
                *final(inpos) as int,
                final(out)@,
            );
            match r {
                StepResult::Done => seq_sem(ex_seq_spec(stmts@), pre, fuel as nat)
                    == Outcome::Halt(post),
                StepResult::Starved => seq_sem(ex_seq_spec(stmts@), pre, fuel as nat)
                    == Outcome::Starve(post),
                StepResult::Spun => seq_sem(ex_seq_spec(stmts@), pre, fuel as nat)
                    == Outcome::Spin,
            }
        }),
    decreases stmts, 1int,
{
    let ghost pre = abs_state(mem@, *pointer as int, input@, *inpos as int, out@);
    let n = stmts.len();
    let ghost whole = ex_seq_spec(stmts@);
    proof {
        assert(stmts@.subrange(0int, n as int) =~= stmts@);
    }
    let mut i: usize = 0;
    while i < n
        invariant
            i <= n,
            n == stmts@.len(),
            whole == ex_seq_spec(stmts@),
            pre == abs_state(
                old(mem)@,
                *old(pointer) as int,
                input@,
                *old(inpos) as int,
                old(out)@,
            ),
            mem@.len() == MEM_SIZE,
            *pointer < MEM_SIZE,
            *inpos <= input@.len(),
            ({
                let cur = abs_state(mem@, *pointer as int, input@, *inpos as int, out@);
                seq_sem(ex_seq_spec(stmts@), pre, fuel as nat) == seq_sem(
                    ex_seq_spec(stmts@.subrange(i as int, n as int)),
                    cur,
                    fuel as nat,
                )
            }),
        decreases n - i,
    {
        let ghost cur = abs_state(mem@, *pointer as int, input@, *inpos as int, out@);
        let ghost tail = stmts@.subrange(i as int, n as int);
        proof {
            lemma_ex_seq_spec_first(tail);
            assert(tail[0] == stmts@[i as int]);
            assert(tail.drop_first() =~= stmts@.subrange(i + 1, n as int));
            lemma_seq_sem_append(
                ex_spec(stmts@[i as int]),
                ex_seq_spec(stmts@.subrange(i + 1, n as int)),
                cur,
                fuel as nat,
            );
        }
        let st = execute(&stmts[i], mem, pointer, out, input, inpos, fuel);
        match st {
            StepResult::Done => {},
            other => {
                return other;
            },
        }
        i = i + 1;
    }
    proof {
        assert(stmts@.subrange(n as int, n as int) =~= Seq::<ExStatement>::empty());
    }
    StepResult::Done
}

/// Interpret an optimized statement sequence from a zeroed tape,
/// collecting the output as a string. A run that fails for want of input,
/// or hits the step bound, yields the output written so far.
pub fn interpret(pgm: &Vec<ExStatement>, input: &[u8], fuel: u64) -> (r: String)
    ensures
        match seq_sem(ex_seq_spec(pgm@), init_state(MEM_SIZE as int, input@), fuel as nat) {
            Outcome::Halt(st) => r@ == bytes_as_chars(st.output),
            Outcome::Starve(st) => r@ == bytes_as_chars(st.output),
            Outcome::Spin => true,
        },
{
    let mut mem: Vec<u8> = vec![0u8; MEM_SIZE];
    let mut out: Vec<u8> = Vec::new();
    let mut pointer: usize = 0;
    let mut inpos: usize = 0;
    proof {
        assert(input@.skip(0) =~= input@);
        assert(mem@ =~= init_state(MEM_SIZE as int, input@).tape);
        assert(abs_state(mem@, 0, input@, 0, out@) =~= init_state(MEM_SIZE as int, input@));
    }
    let st = run_ex_stmts(pgm, &mut mem, &mut pointer, &mut out, input, &mut inpos, fuel);
    let r = bytes_to_string(&out);
    proof {
        match st {
            StepResult::Done => {},
            StepResult::Starved => {},
            StepResult::Spun => {},
        }
    }
    r
}

/// A statement always prints back as at least one character.
proof fn lemma_stmt_text_nonempty(v: Seq<Statement>)
    requires
        v.len() >= 1,
    ensures
        crate::interpreter::stmts_text(v).len() >= 1,
    decreases v,
{
    if v.len() == 1 {
        assert(v.drop_last() =~= Seq::<Statement>::empty());
        assert(crate::interpreter::stmts_text(v.drop_last()) == Seq::<char>::empty());
        assert(crate::interpreter::stmts_text(v).len()
            == crate::interpreter::stmt_text(v.last()).len());
        match v.last() {
            Statement::Loop(b) => {
                assert(crate::interpreter::stmt_text(v.last()).len() >= 1);
            },
            _ => {
                assert(crate::interpreter::stmt_text(v.last()).len() >= 1);
            },
        }
    } else {
        lemma_stmt_text_nonempty(v.drop_last());
    }
}

/// Minify, parse, optimize and interpret a program against the given
/// input. Fails exactly on a source with no significant characters; on
/// success the result is what some refinement of the tree whose text is
/// the source's significant characters prints, as the shared semantics
/// give it. The source must be bracket-balanced.
pub fn run(pgm: &str, direct_print: bool, input: &[u8], fuel: u64) -> (r: Result<String, BfErr>)
    requires
        chars_balanced(sig_chars(pgm@)),
    ensures
        r is Err <==> sig_chars(pgm@).len() == 0,
        r matches Err(e) ==> e.msg@ == "no program found"@,
        r matches Ok(sout) ==> exists|t: Seq<Statement>, u: Seq<ExStatement>|
            {
                &&& #[trigger] crate::interpreter::stmts_text(t) == sig_chars(pgm@)
                &&& crate::interpreter::prints_as(t, direct_print)
                &&& #[trigger] optimize_rel(t, u)
                &&& equiv_seqs(stmt_seq_spec(t), ex_seq_spec(u))
                &&& match seq_sem(
                    ex_seq_spec(u),
                    init_state(MEM_SIZE as int, input@),
                    fuel as nat,
                ) {
                    Outcome::Halt(st) => sout@ == bytes_as_chars(st.output),
                    Outcome::Starve(st) => sout@ == bytes_as_chars(st.output),
                    Outcome::Spin => true,
                }
            },
{
    let minified = minify(pgm);
    proof {
        crate::interpreter::lemma_sig_idempotent(pgm@);
    }
    let parsed = parse(minified, direct_print);
    if parsed.is_empty() {
        proof {
            assert(crate::interpreter::stmts_text(parsed@) =~= Seq::<char>::empty());
        }
        return Err(BfErr::new("no program found"));
    }
    proof {
        lemma_stmt_text_nonempty(parsed@);
    }
    let opt = optimize(&parsed);
    let sout = interpret(&opt, input, fuel);
    proof {
        let ghost t = parsed@;
        let ghost u = opt@;
        assert(crate::interpreter::stmts_text(t) == sig_chars(pgm@) && optimize_rel(t, u)
            && equiv_seqs(stmt_seq_spec(t), ex_seq_spec(u)));
    }
    Ok(sout)
}

} // verus!
