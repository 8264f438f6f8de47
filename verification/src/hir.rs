use vstd::prelude::*;

use crate::parse::{Ast, Instr};
use crate::semantics::{deep, deep_seq, lemma_deep_seq_push, SpecKind, SpecStmt};
use crate::span::Span;

pub mod interpreter;
pub mod opts;

verus! {

/// The high-level intermediate representation: a tree of statements carrying
/// a richer payload than the syntax tree (signed offsets and run lengths) so
/// that the optimization passes have something to rewrite into.
#[derive(Debug, PartialEq, Eq)]
pub struct Hir {
    pub stmts: Vec<Stmt>,
}

#[derive(Debug, PartialEq, Eq)]
pub struct Stmt {
    pub kind: StmtKind,
    pub span: Span,
}

#[derive(Debug, PartialEq, Eq)]
pub enum StmtKind {
    /// Add `n` (mod 256) to the cell at `offset` from the pointer.
    Add(i32, u8),
    /// Subtract `n` (mod 256) from the cell at `offset` from the pointer.
    Sub(i32, u8),
    /// Set the current cell to 0 and add its prior value to the cell at
    /// `offset`.
    MoveAddTo { offset: i32 },
    /// Move the pointer right by `n`, wrapping at the end of the tape.
    Right(usize),
    /// Move the pointer left by `n`, wrapping at the start of the tape.
    Left(usize),
    /// Repeat the body while the current cell is nonzero.
    Loop(Hir),
    /// Emit the current cell as one output byte.
    Out,
    /// Read one input byte into the current cell.
    In,
    /// Set the current cell to `n`.
    SetN(u8),
}

impl Stmt {
    pub fn new(kind: StmtKind, span: Span) -> (r: Stmt)
        ensures
            r.kind == kind,
            r.span == span,
    {
        Stmt { kind, span }
    }

    pub fn kind(&self) -> (r: &StmtKind)
        ensures
            r == &self.kind,
    {
        &self.kind
    }
}

/// The statement a syntax tree node maps to: each primitive becomes the
/// corresponding statement with run length 1, loops map recursively, spans
/// carry over unchanged.
pub open spec fn build_stmt(instr: Instr, span: Span) -> SpecStmt
    decreases instr,
{
    let kind = match instr {
        Instr::Add => SpecKind::Add(0, 1),
        Instr::Sub => SpecKind::Sub(0, 1),
        Instr::Right => SpecKind::Right(1),
        Instr::Left => SpecKind::Left(1),
        Instr::Out => SpecKind::Out,
        Instr::In => SpecKind::In,
        Instr::Loop(body) => SpecKind::Loop(build_seq(body@)),
    };
    SpecStmt { kind, span }
}

/// The statement sequence a syntax tree maps to.
pub open spec fn build_seq(ast: Seq<(Instr, Span)>) -> Seq<SpecStmt>
    decreases ast,
{
    if ast.len() == 0 {
        Seq::empty()
    } else {
        build_seq(ast.drop_last()).push(build_stmt(ast.last().0, ast.last().1))
    }
}

fn ast_to_ir(ast: &Ast) -> (r: Hir)
    ensures
        deep_seq(r.stmts@) == build_seq(ast@),
    decreases ast,
{
    let mut stmts: Vec<Stmt> = Vec::new();
    let n = ast.len();
    for i in 0..n
        invariant
            n == ast.len(),
            deep_seq(stmts@) == build_seq(ast@.take(i as int)),
    {
        let (instr, span) = &ast[i];
        let kind = match instr {
            Instr::Add => StmtKind::Add(0, 1),
            Instr::Sub => StmtKind::Sub(0, 1),
            Instr::Right => StmtKind::Right(1),
            Instr::Left => StmtKind::Left(1),
            Instr::Out => StmtKind::Out,
            Instr::In => StmtKind::In,
            Instr::Loop(body) => {
                let ir_body = ast_to_ir(body);
                StmtKind::Loop(ir_body)
            }
        };
        let s = Stmt { kind, span: *span };
        let ghost old_stmts = stmts@;
        let ghost pushed = s;
        stmts.push(s);
        proof {
            lemma_deep_seq_push(old_stmts, pushed);
            assert(ast@.take(i + 1).drop_last() =~= ast@.take(i as int));
            assert(ast@.take(i + 1).last() == ast@[i as int]);
            assert(deep(pushed) == build_stmt(ast@[i as int].0, ast@[i as int].1));
        }
    }
    proof {
        assert(ast@.take(n as int) =~= ast@);
    }
    Hir { stmts }
}

/// The built tree flattens to exactly one opcode per source character
/// (a loop's two brackets to its two jumps), and every run length is the
/// representable 1.
pub proof fn lemma_build_seq_flat(ast: Seq<(Instr, Span)>)
    ensures
        crate::lir::flat_len(build_seq(ast)) == crate::parse::ast_weight(ast),
        crate::lir::fits(build_seq(ast)),
    decreases ast,
{
    if ast.len() > 0 {
        lemma_build_seq_flat(ast.drop_last());
        lemma_build_stmt_flat(ast.last().0, ast.last().1);
        crate::lir::lemma_flat_len_push(
            build_seq(ast.drop_last()),
            build_stmt(ast.last().0, ast.last().1),
        );
        crate::lir::lemma_fits_push(
            build_seq(ast.drop_last()),
            build_stmt(ast.last().0, ast.last().1),
        );
    }
}

proof fn lemma_build_stmt_flat(instr: Instr, span: Span)
    ensures
        crate::lir::flat_len_stmt(build_stmt(instr, span)) == crate::parse::instr_weight(instr),
        crate::lir::fits_stmt(build_stmt(instr, span)),
    decreases instr,
{
    match instr {
        Instr::Loop(body) => {
            lemma_build_seq_flat(body@);
        },
        _ => {},
    }
}

/// Build the HIR for a syntax tree and run the whole optimizer pass
/// pipeline over it. The result is exactly the pipeline's rewriting of
/// the built tree, and it refines the unoptimized statement-by-statement
/// reading: wherever that reading comes to an answer within some step
/// bound, the optimized program comes to the same answer.
pub fn optimized_hir(ast: &Ast) -> (r: Hir)
    ensures
        crate::semantics::deep_seq(r.stmts@) == crate::hir::opts::optimize_spec(build_seq(ast@)),
        crate::semantics::equiv_seqs(build_seq(ast@), crate::semantics::deep_seq(r.stmts@)),
{
    let mut hir = ast_to_ir(ast);
    crate::hir::opts::optimize(&mut hir);
    hir
}

} // verus!
