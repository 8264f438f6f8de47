//! Flattening of the optimized statement tree into one linear opcode array.
//!
//! A loop compiles to a conditional jump over its flattened body and a
//! conditional jump back to the body's first opcode; the forward target is
//! backpatched once the body's extent is known. The array always ends with
//! the `End` sentinel, and every jump target is an index into the array:
//! the interpreter relies on both.

use vstd::prelude::*;

use crate::hir::{Hir, Stmt as HirStmt, StmtKind as HirStmtKind};
use crate::span::Span;

pub mod correctness;
pub mod interpreter;

verus! {

/// One flat opcode.
#[derive(Debug, Clone, Copy, PartialEq, Eq, Structural)]
pub enum Stmt {
    /// Add `n` (mod 256) to the current cell.
    Add(u8),
    /// Subtract `n` (mod 256) from the current cell.
    Sub(u8),
    /// Add `n` (mod 256) to the cell at `offset` from the pointer.
    AddOffset { offset: i32, n: u8 },
    /// Subtract `n` (mod 256) from the cell at `offset` from the pointer.
    SubOffset { offset: i32, n: u8 },
    /// Zero the current cell and add its prior value at `offset`.
    MoveAddTo { offset: i32 },
    /// Move the pointer right by `n`, wrapping.
    Right(u32),
    /// Move the pointer left by `n`, wrapping.
    Left(u32),
    /// Emit the current cell as one output byte.
    Out,
    /// Read one input byte into the current cell.
    In,
    /// Set the current cell to `n`.
    SetN(u8),
    /// Jump to `target` when the current cell is zero.
    JmpIfZero(u32),
    /// Jump to `target` when the current cell is nonzero.
    JmpIfNonZero(u32),
    /// Halt.
    End,
}

/// The flat program: the opcodes and, in parallel, the source span each
/// opcode came from, for profiling attribution.
#[derive(Debug, PartialEq, Eq)]
pub struct Lir {
    stmts: Vec<Stmt>,
    debug: Vec<Span>,
}

impl Lir {
    /// The opcode array.
    pub closed spec fn code(&self) -> Seq<Stmt> {
        self.stmts@
    }

    /// The parallel span array.
    pub closed spec fn spans(&self) -> Seq<Span> {
        self.debug@
    }

    pub fn stmts(&self) -> (r: &[Stmt])
        ensures
            r@ == self.code(),
    {
        self.stmts.as_slice()
    }

    pub fn debug(&self) -> (r: &[Span])
        ensures
            r@ == self.spans(),
    {
        self.debug.as_slice()
    }
}

/// The number of opcodes one statement flattens to.
pub open spec fn flat_count_stmt(s: HirStmt) -> int
    decreases s,
{
    match s.kind {
        HirStmtKind::Loop(h) => 2 + flat_count(h.stmts@),
        _ => 1,
    }
}

/// The number of opcodes a statement sequence flattens to.
pub open spec fn flat_count(ss: Seq<HirStmt>) -> int
    decreases ss,
{
    if ss.len() == 0 {
        0
    } else {
        flat_count(ss.drop_last()) + flat_count_stmt(ss.last())
    }
}

pub proof fn lemma_flat_count_nonneg(ss: Seq<HirStmt>)
    ensures
        flat_count(ss) >= 0,
    decreases ss,
{
    if ss.len() > 0 {
        lemma_flat_count_nonneg(ss.drop_last());
        lemma_flat_count_stmt_pos(ss.last());
    }
}

pub proof fn lemma_flat_count_stmt_pos(s: HirStmt)
    ensures
        flat_count_stmt(s) >= 1,
    decreases s,
{
    match s.kind {
        HirStmtKind::Loop(h) => lemma_flat_count_nonneg(h.stmts@),
        _ => {},
    }
}

/// `flat_count` of one more statement.
proof fn lemma_flat_count_take_step(v: Seq<HirStmt>, i: int)
    requires
        0 <= i < v.len(),
    ensures
        flat_count(v.take(i + 1)) == flat_count(v.take(i)) + flat_count_stmt(v[i]),
{
    let t1 = v.take(i + 1);
    assert(t1.drop_last() =~= v.take(i));
    assert(t1.last() == v[i]);
}

/// Every run length fits the opcode's count field.
pub open spec fn counts_fit_stmt(s: HirStmt) -> bool
    decreases s,
{
    match s.kind {
        HirStmtKind::Right(n) => n <= u32::MAX,
        HirStmtKind::Left(n) => n <= u32::MAX,
        HirStmtKind::Loop(h) => counts_fit(h.stmts@),
        _ => true,
    }
}

pub open spec fn counts_fit(ss: Seq<HirStmt>) -> bool
    decreases ss,
{
    if ss.len() == 0 {
        true
    } else {
        counts_fit(ss.drop_last()) && counts_fit_stmt(ss.last())
    }
}

/// Every jump target is an index into the array.
pub open spec fn jumps_in_bounds(code: Seq<Stmt>) -> bool {
    forall|i: int|
        0 <= i < code.len() ==> match #[trigger] code[i] {
            Stmt::JmpIfZero(t) => t < code.len(),
            Stmt::JmpIfNonZero(t) => t < code.len(),
            _ => true,
        }
}

/// A well-formed flat program: nonempty, `End`-terminated, every jump
/// in bounds, and one span per opcode. The interpreter's fetch loop is
/// safe exactly because of this.
pub open spec fn lir_wf(l: Lir) -> bool {
    &&& l.code().len() >= 1
    &&& l.code().last() == Stmt::End
    &&& jumps_in_bounds(l.code())
    &&& l.spans().len() == l.code().len()
}

/// Every jump target in `code` is at most `bound`.
spec fn jumps_at_most(code: Seq<Stmt>, bound: int) -> bool {
    forall|i: int|
        0 <= i < code.len() ==> match #[trigger] code[i] {
            Stmt::JmpIfZero(t) => t <= bound,
            Stmt::JmpIfNonZero(t) => t <= bound,
            _ => true,
        }
}

/// The opcode a non-loop statement flattens to.
pub open spec fn opcode_for(s: crate::semantics::SpecStmt) -> Stmt {
    match s.kind {
        crate::semantics::SpecKind::Add(off, n) => if off == 0 {
            Stmt::Add(n)
        } else {
            Stmt::AddOffset { offset: off, n }
        },
        crate::semantics::SpecKind::Sub(off, n) => if off == 0 {
            Stmt::Sub(n)
        } else {
            Stmt::SubOffset { offset: off, n }
        },
        crate::semantics::SpecKind::MoveAddTo(off) => Stmt::MoveAddTo { offset: off },
        crate::semantics::SpecKind::Right(n) => Stmt::Right(n as u32),
        crate::semantics::SpecKind::Left(n) => Stmt::Left(n as u32),
        crate::semantics::SpecKind::Out => Stmt::Out,
        crate::semantics::SpecKind::In => Stmt::In,
        crate::semantics::SpecKind::SetN(n) => Stmt::SetN(n),
        crate::semantics::SpecKind::Loop(_) => Stmt::End,
    }
}

/// How many opcodes a statement occupies in the flat code.
pub open spec fn flat_len_stmt(s: crate::semantics::SpecStmt) -> int
    decreases s,
{
    match s.kind {
        crate::semantics::SpecKind::Loop(b) => 2 + flat_len(b),
        _ => 1,
    }
}

pub open spec fn flat_len(ss: Seq<crate::semantics::SpecStmt>) -> int
    decreases ss,
{
    if ss.len() == 0 {
        0
    } else {
        flat_len(ss.drop_last()) + flat_len_stmt(ss.last())
    }
}

pub proof fn lemma_flat_len_nonneg(ss: Seq<crate::semantics::SpecStmt>)
    ensures
        flat_len(ss) >= 0,
    decreases ss,
{
    if ss.len() > 0 {
        lemma_flat_len_nonneg(ss.drop_last());
        lemma_flat_len_stmt_pos(ss.last());
    }
}

pub proof fn lemma_flat_len_stmt_pos(s: crate::semantics::SpecStmt)
    ensures
        flat_len_stmt(s) >= 1,
    decreases s,
{
    match s.kind {
        crate::semantics::SpecKind::Loop(b) => lemma_flat_len_nonneg(b),
        _ => {},
    }
}

/// `flat_len` measured from the front.
pub proof fn lemma_flat_len_first(v: Seq<crate::semantics::SpecStmt>)
    requires
        v.len() >= 1,
    ensures
        flat_len(v) == flat_len_stmt(v[0]) + flat_len(v.drop_first()),
    decreases v,
{
    if v.len() == 1 {
        assert(v.drop_first() =~= Seq::<crate::semantics::SpecStmt>::empty());
        assert(v.drop_last() =~= Seq::<crate::semantics::SpecStmt>::empty());
    } else {
        lemma_flat_len_first(v.drop_last());
        assert(v.drop_last().drop_first() =~= v.drop_first().drop_last());
        assert(v.drop_last()[0] == v[0]);
        assert(v.drop_first().last() == v.last());
    }
}

/// The statement occupies the code from `base` on: a primitive is its
/// one opcode; a loop is a forward conditional jump over its flattened
/// body to just past the backward conditional jump that re-enters the
/// body. Run lengths fit their opcode fields and jump targets their
/// encoding. This relation reads only the statement's own region, so it
/// survives any change elsewhere in the code.
pub open spec fn compiles_stmt(code: Seq<Stmt>, base: int, s: crate::semantics::SpecStmt) -> bool
    decreases s,
{
    match s.kind {
        crate::semantics::SpecKind::Loop(b) => {
            let back = base + 1 + flat_len(b);
            &&& 0 <= base
            &&& back + 1 <= code.len()
            &&& back + 1 <= u32::MAX
            &&& code[base] == Stmt::JmpIfZero((back + 1) as u32)
            &&& code[back] == Stmt::JmpIfNonZero((base + 1) as u32)
            &&& compiles(code, base + 1, b)
        },
        crate::semantics::SpecKind::Right(n) => 0 <= base < code.len() && n <= u32::MAX && code[base]
            == opcode_for(s),
        crate::semantics::SpecKind::Left(n) => 0 <= base < code.len() && n <= u32::MAX && code[base]
            == opcode_for(s),
        _ => 0 <= base < code.len() && code[base] == opcode_for(s),
    }
}

/// The statement sequence occupies the code from `base` on, one
/// statement's region after another.
pub open spec fn compiles(code: Seq<Stmt>, base: int, ss: Seq<crate::semantics::SpecStmt>) -> bool
    decreases ss,
{
    if ss.len() == 0 {
        true
    } else {
        compiles_stmt(code, base, ss[0]) && compiles(
            code,
            base + flat_len_stmt(ss[0]),
            ss.drop_first(),
        )
    }
}

/// `compiles` reads only the occupied region, so equal regions compile
/// the same statements.
pub proof fn lemma_compiles_stable(
    code1: Seq<Stmt>,
    code2: Seq<Stmt>,
    base: int,
    ss: Seq<crate::semantics::SpecStmt>,
)
    requires
        compiles(code1, base, ss),
        code1.len() <= code2.len(),
        code1 == code2.subrange(0, code1.len() as int),
    ensures
        compiles(code2, base, ss),
    decreases ss, 1int,
{
    if ss.len() > 0 {
        lemma_compiles_stmt_stable(code1, code2, base, ss[0]);
        lemma_compiles_stable(code1, code2, base + flat_len_stmt(ss[0]), ss.drop_first());
    }
}

pub proof fn lemma_compiles_stmt_stable(
    code1: Seq<Stmt>,
    code2: Seq<Stmt>,
    base: int,
    s: crate::semantics::SpecStmt,
)
    requires
        compiles_stmt(code1, base, s),
        code1.len() <= code2.len(),
        code1 == code2.subrange(0, code1.len() as int),
    ensures
        compiles_stmt(code2, base, s),
    decreases s, 0int,
{
    match s.kind {
        crate::semantics::SpecKind::Loop(b) => {
            let back = base + 1 + flat_len(b);
            lemma_flat_len_nonneg(b);
            assert(code1[base] == code2.subrange(0, code1.len() as int)[base]);
            assert(code1[back] == code2.subrange(0, code1.len() as int)[back]);
            assert(code2.subrange(0, code1.len() as int)[base] == code2[base]);
            assert(code2.subrange(0, code1.len() as int)[back] == code2[back]);
            lemma_compiles_stable(code1, code2, base + 1, b);
            assert(code2[base] == Stmt::JmpIfZero((back + 1) as u32));
            assert(code2[back] == Stmt::JmpIfNonZero((base + 1) as u32));
            assert(compiles_stmt(code2, base, s));
        },
        _ => {
            assert(code1[base] == code2.subrange(0, code1.len() as int)[base]);
        },
    }
}

/// `compiles` reads only the occupied region itself: any code agreeing
/// there compiles the same statements, whatever changed before or after
/// the region (as the backpatch changes the slot before a loop body).
pub proof fn lemma_compiles_region_stable(
    code1: Seq<Stmt>,
    code2: Seq<Stmt>,
    base: int,
    ss: Seq<crate::semantics::SpecStmt>,
)
    requires
        compiles(code1, base, ss),
        code1.len() <= code2.len(),
        forall|k: int| base <= k < base + flat_len(ss) ==> code1[k] == #[trigger] code2[k],
    ensures
        compiles(code2, base, ss),
    decreases ss, 1int,
{
    if ss.len() > 0 {
        lemma_flat_len_first(ss);
        lemma_flat_len_stmt_pos(ss[0]);
        lemma_flat_len_nonneg(ss.drop_first());
        lemma_compiles_stmt_region_stable(code1, code2, base, ss[0]);
        assert forall|k: int|
            base + flat_len_stmt(ss[0]) <= k < base + flat_len_stmt(ss[0]) + flat_len(
                ss.drop_first(),
            ) implies code1[k] == #[trigger] code2[k] by {
            assert(base <= k < base + flat_len(ss));
        }
        lemma_compiles_region_stable(code1, code2, base + flat_len_stmt(ss[0]), ss.drop_first());
    }
}

pub proof fn lemma_compiles_stmt_region_stable(
    code1: Seq<Stmt>,
    code2: Seq<Stmt>,
    base: int,
    s: crate::semantics::SpecStmt,
)
    requires
        compiles_stmt(code1, base, s),
        code1.len() <= code2.len(),
        forall|k: int| base <= k < base + flat_len_stmt(s) ==> code1[k] == #[trigger] code2[k],
    ensures
        compiles_stmt(code2, base, s),
    decreases s, 0int,
{
    match s.kind {
        crate::semantics::SpecKind::Loop(b) => {
            let back = base + 1 + flat_len(b);
            lemma_flat_len_nonneg(b);
            assert(code2[base] == code1[base]);
            assert(code2[back] == code1[back]);
            assert forall|k: int|
                base + 1 <= k < base + 1 + flat_len(b) implies code1[k] == #[trigger] code2[k] by {
                assert(base <= k < base + flat_len_stmt(s));
            }
            lemma_compiles_region_stable(code1, code2, base + 1, b);
        },
        _ => {
            assert(code2[base] == code1[base]);
        },
    }
}

/// Appending one more compiled statement extends a compiled sequence.
pub proof fn lemma_compiles_snoc(
    code: Seq<Stmt>,
    base: int,
    ss: Seq<crate::semantics::SpecStmt>,
    x: crate::semantics::SpecStmt,
)
    requires
        compiles(code, base, ss),
        compiles_stmt(code, base + flat_len(ss), x),
    ensures
        compiles(code, base, ss.push(x)),
    decreases ss,
{
    if ss.len() == 0 {
        assert(ss.push(x)[0] == x);
        assert(ss.push(x).drop_first() =~= Seq::<crate::semantics::SpecStmt>::empty());
        assert(flat_len(ss) == 0);
        assert(compiles_stmt(code, base, ss.push(x)[0]));
        assert(compiles(code, base + flat_len_stmt(x), ss.push(x).drop_first()));
        assert(compiles(code, base, ss.push(x)));
    } else {
        assert(ss.push(x)[0] == ss[0]);
        assert(ss.push(x).drop_first() =~= ss.drop_first().push(x));
        lemma_flat_len_first(ss);
        lemma_compiles_snoc(code, base + flat_len_stmt(ss[0]), ss.drop_first(), x);
        assert(compiles(code, base + flat_len_stmt(ss.push(x)[0]), ss.push(x).drop_first()));
        assert(compiles(code, base, ss.push(x)));
    }
}

/// The flattened extent of the mathematical statements is the flattened
/// extent of the executable ones.
pub proof fn lemma_flat_len_deep(v: Seq<HirStmt>)
    ensures
        flat_len(crate::semantics::deep_seq(v)) == flat_count(v),
    decreases v,
{
    crate::semantics::lemma_deep_seq_len(v);
    if v.len() > 0 {
        lemma_flat_len_deep(v.drop_last());
        lemma_flat_len_stmt_deep(v.last());
        assert(crate::semantics::deep_seq(v).drop_last() =~= crate::semantics::deep_seq(
            v.drop_last(),
        )) by {
            assert(crate::semantics::deep_seq(v) == crate::semantics::deep_seq(
                v.drop_last(),
            ).push(crate::semantics::deep(v.last())));
        }
        assert(crate::semantics::deep_seq(v).last() == crate::semantics::deep(v.last()));
    }
}

proof fn lemma_flat_len_stmt_deep(s: HirStmt)
    ensures
        flat_len_stmt(crate::semantics::deep(s)) == flat_count_stmt(s),
    decreases s,
{
    match s.kind {
        HirStmtKind::Loop(h) => {
            lemma_flat_len_deep(h.stmts@);
        },
        _ => {},
    }
}

/// Every run length in the mathematical statements fits the opcode's
/// count field.
pub open spec fn fits_stmt(s: crate::semantics::SpecStmt) -> bool
    decreases s,
{
    match s.kind {
        crate::semantics::SpecKind::Right(n) => n <= u32::MAX,
        crate::semantics::SpecKind::Left(n) => n <= u32::MAX,
        crate::semantics::SpecKind::Loop(b) => fits(b),
        _ => true,
    }
}

pub open spec fn fits(ss: Seq<crate::semantics::SpecStmt>) -> bool
    decreases ss,
{
    if ss.len() == 0 {
        true
    } else {
        fits(ss.drop_last()) && fits_stmt(ss.last())
    }
}

/// Representable run lengths carry from the mathematical statements back
/// to the executable ones.
pub proof fn lemma_fits_deep(v: Seq<HirStmt>)
    requires
        fits(crate::semantics::deep_seq(v)),
    ensures
        counts_fit(v),
    decreases v,
{
    crate::semantics::lemma_deep_seq_len(v);
    if v.len() > 0 {
        assert(crate::semantics::deep_seq(v).drop_last() =~= crate::semantics::deep_seq(
            v.drop_last(),
        )) by {
            assert(crate::semantics::deep_seq(v) == crate::semantics::deep_seq(
                v.drop_last(),
            ).push(crate::semantics::deep(v.last())));
        }
        assert(crate::semantics::deep_seq(v).last() == crate::semantics::deep(v.last()));
        lemma_fits_deep(v.drop_last());
        lemma_fits_stmt_deep(v.last());
    }
}

proof fn lemma_fits_stmt_deep(s: HirStmt)
    requires
        fits_stmt(crate::semantics::deep(s)),
    ensures
        counts_fit_stmt(s),
    decreases s,
{
    match s.kind {
        HirStmtKind::Loop(h) => {
            lemma_fits_deep(h.stmts@);
        },
        _ => {},
    }
}

/// `flat_len` of one more statement.
pub proof fn lemma_flat_len_push(v: Seq<crate::semantics::SpecStmt>, x: crate::semantics::SpecStmt)
    ensures
        flat_len(v.push(x)) == flat_len(v) + flat_len_stmt(x),
{
    assert(v.push(x).drop_last() =~= v);
}

/// `fits` of one more statement.
pub proof fn lemma_fits_push(v: Seq<crate::semantics::SpecStmt>, x: crate::semantics::SpecStmt)
    ensures
        fits(v.push(x)) == (fits(v) && fits_stmt(x)),
{
    assert(v.push(x).drop_last() =~= v);
}

/// The span each opcode of a compiled statement carries: a primitive's
/// opcode carries the statement's span, and both of a loop's jumps carry
/// the loop's span, its body recursively — the attribution the profiler
/// maps execution counts back through.
pub open spec fn spans_for(spans: Seq<Span>, base: int, s: crate::semantics::SpecStmt) -> bool
    decreases s,
{
    match s.kind {
        crate::semantics::SpecKind::Loop(b) => {
            let back = base + 1 + flat_len(b);
            &&& 0 <= base
            &&& back < spans.len()
            &&& spans[base] == s.span
            &&& spans[back] == s.span
            &&& spans_for_seq(spans, base + 1, b)
        },
        _ => 0 <= base < spans.len() && spans[base] == s.span,
    }
}

pub open spec fn spans_for_seq(spans: Seq<Span>, base: int, ss: Seq<crate::semantics::SpecStmt>) -> bool
    decreases ss,
{
    if ss.len() == 0 {
        true
    } else {
        spans_for(spans, base, ss[0]) && spans_for_seq(
            spans,
            base + flat_len_stmt(ss[0]),
            ss.drop_first(),
        )
    }
}

/// `spans_for_seq` reads only the occupied region, so a longer span array
/// agreeing on its prefix attributes the same statements.
pub proof fn lemma_spans_for_stable(
    sp1: Seq<Span>,
    sp2: Seq<Span>,
    base: int,
    ss: Seq<crate::semantics::SpecStmt>,
)
    requires
        spans_for_seq(sp1, base, ss),
        sp1.len() <= sp2.len(),
        sp1 == sp2.subrange(0, sp1.len() as int),
    ensures
        spans_for_seq(sp2, base, ss),
    decreases ss, 1int,
{
    if ss.len() > 0 {
        lemma_spans_for_stmt_stable(sp1, sp2, base, ss[0]);
        lemma_spans_for_stable(sp1, sp2, base + flat_len_stmt(ss[0]), ss.drop_first());
    }
}

pub proof fn lemma_spans_for_stmt_stable(
    sp1: Seq<Span>,
    sp2: Seq<Span>,
    base: int,
    s: crate::semantics::SpecStmt,
)
    requires
        spans_for(sp1, base, s),
        sp1.len() <= sp2.len(),
        sp1 == sp2.subrange(0, sp1.len() as int),
    ensures
        spans_for(sp2, base, s),
    decreases s, 0int,
{
    match s.kind {
        crate::semantics::SpecKind::Loop(b) => {
            let back = base + 1 + flat_len(b);
            lemma_flat_len_nonneg(b);
            assert(sp1[base] == sp2.subrange(0, sp1.len() as int)[base]);
            assert(sp1[back] == sp2.subrange(0, sp1.len() as int)[back]);
            lemma_spans_for_stable(sp1, sp2, base + 1, b);
        },
        _ => {
            assert(sp1[base] == sp2.subrange(0, sp1.len() as int)[base]);
        },
    }
}

/// Appending one more attributed statement extends an attributed sequence.
pub proof fn lemma_spans_for_snoc(
    spans: Seq<Span>,
    base: int,
    ss: Seq<crate::semantics::SpecStmt>,
    x: crate::semantics::SpecStmt,
)
    requires
        spans_for_seq(spans, base, ss),
        spans_for(spans, base + flat_len(ss), x),
    ensures
        spans_for_seq(spans, base, ss.push(x)),
    decreases ss,
{
    if ss.len() == 0 {
        assert(ss.push(x)[0] == x);
        assert(ss.push(x).drop_first() =~= Seq::<crate::semantics::SpecStmt>::empty());
        assert(flat_len(ss) == 0);
        assert(spans_for(spans, base, ss.push(x)[0]));
        assert(spans_for_seq(spans, base + flat_len_stmt(x), ss.push(x).drop_first()));
        assert(spans_for_seq(spans, base, ss.push(x)));
    } else {
        assert(ss.push(x)[0] == ss[0]);
        assert(ss.push(x).drop_first() =~= ss.drop_first().push(x));
        lemma_flat_len_first(ss);
        lemma_spans_for_snoc(spans, base + flat_len_stmt(ss[0]), ss.drop_first(), x);
        assert(spans_for_seq(spans, base + flat_len_stmt(ss.push(x)[0]), ss.push(x).drop_first()));
        assert(spans_for_seq(spans, base, ss.push(x)));
    }
}

/// Emit the opcodes for `stmts` at the end of `lir`.
fn emit_stmts(lir: &mut Lir, stmts: &Vec<HirStmt>)
    requires
        old(lir).code().len() == old(lir).spans().len(),
        old(lir).code().len() + flat_count(stmts@) <= u32::MAX,
        counts_fit(stmts@),
        jumps_at_most(old(lir).code(), old(lir).code().len() as int),
    ensures
        final(lir).code().len() == old(lir).code().len() + flat_count(stmts@),
        final(lir).spans().len() == final(lir).code().len(),
        final(lir).code().take(old(lir).code().len() as int) == old(lir).code(),
        final(lir).spans().take(old(lir).code().len() as int) == old(lir).spans(),
        jumps_at_most(final(lir).code(), final(lir).code().len() as int),
        compiles(final(lir).code(), old(lir).code().len() as int, crate::semantics::deep_seq(stmts@)),
        spans_for_seq(
            final(lir).spans(),
            old(lir).code().len() as int,
            crate::semantics::deep_seq(stmts@),
        ),
    decreases stmts,
{
    let n = stmts.len();
    let ghost base = lir.stmts@.len() as int;
    proof {
        assert(stmts@.take(0int) =~= Seq::<HirStmt>::empty());
        lemma_flat_count_nonneg(stmts@);
    }
    for i in 0..n
        invariant
            n == stmts.len(),
            counts_fit(stmts@),
            base == old(lir).code().len(),
            base == old(lir).spans().len(),
            base + flat_count(stmts@) <= u32::MAX,
            lir.stmts@.len() == base + flat_count(stmts@.take(i as int)),
            lir.debug@.len() == lir.stmts@.len(),
            lir.stmts@.take(base) == old(lir).code(),
            lir.debug@.take(base) == old(lir).spans(),
            jumps_at_most(lir.stmts@, lir.stmts@.len() as int),
            compiles(lir.stmts@, base, crate::semantics::deep_seq(stmts@.take(i as int))),
            spans_for_seq(lir.debug@, base, crate::semantics::deep_seq(stmts@.take(i as int))),
    {
        proof {
            lemma_counts_fit_index(stmts@, i as int);
            lemma_flat_count_take_step(stmts@, i as int);
            crate::semantics::lemma_deep_seq_len(stmts@.take(i as int));
            lemma_flat_len_deep(stmts@.take(i as int));
            lemma_flat_count_split(stmts@, i as int);
            let rest = stmts@.subrange(i as int, n as int);
            lemma_flat_count_first(rest);
            assert(rest[0] == stmts@[i as int]);
            assert(rest.drop_first() =~= stmts@.subrange(i + 1, n as int));
            lemma_flat_count_nonneg(rest.drop_first());
            lemma_flat_count_nonneg(stmts@.take(i as int));
            lemma_flat_count_stmt_pos(stmts@[i as int]);
        }
        let ghost code_start = lir.stmts@;
        let ghost spans_start = lir.debug@;
        let s = &stmts[i];
        match &s.kind {
            HirStmtKind::Loop(h) => {
                proof {
                    lemma_flat_count_nonneg(h.stmts@);
                }
                let skip_jmp_idx = lir.stmts.len();
                let ghost code_before = lir.stmts@;
                lir.stmts.push(Stmt::JmpIfZero(0));
                lir.debug.push(s.span);
                proof {
                    assert forall|j: int| 0 <= j < lir.stmts@.len() implies match #[trigger] lir.stmts@[j] {
                        Stmt::JmpIfZero(t) => t <= lir.stmts@.len(),
                        Stmt::JmpIfNonZero(t) => t <= lir.stmts@.len(),
                        _ => true,
                    } by {
                        if j < code_before.len() {
                            assert(lir.stmts@[j] == code_before[j]);
                        }
                    }
                }
                let ghost code_mid = lir.stmts@;
                let ghost spans_mid = lir.debug@;
                emit_stmts(lir, &h.stmts);
                let ghost ce = lir.stmts@;
                let ghost se = lir.debug@;
                let first_loop_body_idx = skip_jmp_idx + 1;
                lir.stmts.push(Stmt::JmpIfNonZero(first_loop_body_idx as u32));
                lir.debug.push(s.span);
                let after_loop_idx = lir.stmts.len();
                lir.stmts.set(skip_jmp_idx, Stmt::JmpIfZero(after_loop_idx as u32));
                proof {
                    let cur = lir.stmts@;
                    assert(cur == ce.push(Stmt::JmpIfNonZero(first_loop_body_idx as u32)).update(
                        skip_jmp_idx as int,
                        Stmt::JmpIfZero(after_loop_idx as u32),
                    ));
                    assert(ce.take(code_mid.len() as int) == code_mid);
                    assert(se.take(spans_mid.len() as int) == spans_mid);
                    assert(base == old(lir).code().len());
                    assert forall|j: int| 0 <= j < base implies lir.stmts@.take(base)[j] == old(
                        lir,
                    ).code()[j] by {
                        assert(lir.stmts@.take(base)[j] == cur[j]);
                        assert(cur[j] == ce[j]);
                        assert(ce[j] == ce.take(code_mid.len() as int)[j]);
                        assert(code_mid[j] == code_before[j]);
                        assert(code_before.take(base)[j] == code_before[j]);
                        assert(old(lir).code()[j] == code_before.take(base)[j]);
                    }
                    assert(lir.stmts@.take(base) =~= old(lir).code());
                    assert forall|j: int| 0 <= j < base implies lir.debug@.take(base)[j] == old(
                        lir,
                    ).spans()[j] by {
                        assert(lir.debug@.take(base)[j] == lir.debug@[j]);
                        assert(lir.debug@[j] == se[j]);
                        assert(se[j] == se.take(spans_mid.len() as int)[j]);
                        assert(spans_mid.take(base)[j] == spans_mid[j]);
                        assert(spans_mid.take(base)[j] == old(lir).spans()[j]);
                    }
                    assert(lir.debug@.take(base) =~= old(lir).spans());
                    assert forall|j: int| 0 <= j < cur.len() implies match #[trigger] cur[j] {
                        Stmt::JmpIfZero(t) => t <= cur.len(),
                        Stmt::JmpIfNonZero(t) => t <= cur.len(),
                        _ => true,
                    } by {
                        if j != skip_jmp_idx && j < ce.len() {
                            assert(cur[j] == ce[j]);
                        }
                    }
                    // the loop statement's region now compiles it
                    let dtake = crate::semantics::deep_seq(stmts@.take(i as int));
                    let dbody = crate::semantics::deep_seq(h.stmts@);
                    let ds = crate::semantics::deep(stmts@[i as int]);
                    assert(ds.kind == crate::semantics::SpecKind::Loop(dbody));
                    lemma_flat_len_deep(h.stmts@);
                    let back = skip_jmp_idx + 1 + flat_len(dbody);
                    assert(back == ce.len());
                    assert forall|k: int|
                        skip_jmp_idx + 1 <= k < skip_jmp_idx + 1 + flat_len(dbody) implies ce[k]
                        == #[trigger] cur[k] by {}
                    lemma_compiles_region_stable(ce, cur, skip_jmp_idx + 1, dbody);
                    assert(cur[back as int] == Stmt::JmpIfNonZero(first_loop_body_idx as u32));
                    assert(cur[skip_jmp_idx as int] == Stmt::JmpIfZero(after_loop_idx as u32));
                    assert(after_loop_idx == back + 1);
                    assert(back + 1 <= u32::MAX);
                    assert(compiles_stmt(cur, skip_jmp_idx as int, ds));
                    // and the already-emitted prefix still compiles
                    assert(flat_len(dtake) == skip_jmp_idx - base);
                    assert forall|k: int|
                        base <= k < base + flat_len(dtake) implies code_start[k]
                        == #[trigger] cur[k] by {
                        assert(cur[k] == ce[k]);
                        assert(ce[k] == ce.take(code_mid.len() as int)[k]);
                        assert(code_mid[k] == code_start[k]);
                    }
                    lemma_compiles_region_stable(code_start, cur, base, dtake);
                    lemma_compiles_snoc(cur, base, dtake, ds);
                    assert(stmts@.take(i + 1).drop_last() =~= stmts@.take(i as int));
                    assert(stmts@.take(i + 1).last() == stmts@[i as int]);
                    assert(crate::semantics::deep_seq(stmts@.take(i + 1)) == dtake.push(ds));
                    assert(compiles(
                        lir.stmts@,
                        base,
                        crate::semantics::deep_seq(stmts@.take(i + 1)),
                    ));
                    // both jumps carry the loop's span, the body its own
                    let spans_now = lir.debug@;
                    assert(spans_now == se.push(s.span));
                    assert(se == spans_now.subrange(0, se.len() as int)) by {
                        assert(spans_now.subrange(0, se.len() as int) =~= se);
                    }
                    lemma_spans_for_stable(se, spans_now, skip_jmp_idx + 1, dbody);
                    assert(se.take(spans_mid.len() as int) == spans_mid);
                    assert forall|k: int|
                        0 <= k < spans_mid.len() implies spans_now[k] == spans_mid[k] by {
                        assert(se[k] == se.take(spans_mid.len() as int)[k]);
                    }
                    assert(spans_now[skip_jmp_idx as int] == s.span);
                    assert(spans_now[back as int] == s.span);
                    assert(spans_for(spans_now, skip_jmp_idx as int, ds));
                    assert forall|k: int|
                        0 <= k < base implies spans_now[k] == spans_start[k] by {
                        assert(spans_mid[k] == spans_start[k]);
                    }
                    assert(spans_start == spans_now.subrange(0, spans_start.len() as int)) by {
                        assert forall|k: int|
                            0 <= k < spans_start.len() implies spans_now.subrange(
                            0,
                            spans_start.len() as int,
                        )[k] == spans_start[k] by {
                            assert(spans_now.subrange(0, spans_start.len() as int)[k]
                                == spans_now[k]);
                            assert(spans_mid[k] == spans_start[k]);
                            assert(se[k] == se.take(spans_mid.len() as int)[k]);
                        }
                        assert(spans_now.subrange(0, spans_start.len() as int) =~= spans_start);
                    }
                    lemma_spans_for_stable(spans_start, spans_now, base, dtake);
                    lemma_spans_for_snoc(spans_now, base, dtake, ds);
                    assert(spans_for_seq(
                        spans_now,
                        base,
                        crate::semantics::deep_seq(stmts@.take(i + 1)),
                    ));
                }
            },
            _ => {
                let opcode = match &s.kind {
                    HirStmtKind::Add(off, v) => if *off == 0 {
                        Stmt::Add(*v)
                    } else {
                        Stmt::AddOffset { offset: *off, n: *v }
                    },
                    HirStmtKind::Sub(off, v) => if *off == 0 {
                        Stmt::Sub(*v)
                    } else {
                        Stmt::SubOffset { offset: *off, n: *v }
                    },
                    HirStmtKind::MoveAddTo { offset } => Stmt::MoveAddTo { offset: *offset },
                    HirStmtKind::Right(v) => Stmt::Right(*v as u32),
                    HirStmtKind::Left(v) => Stmt::Left(*v as u32),
                    HirStmtKind::Out => Stmt::Out,
                    HirStmtKind::In => Stmt::In,
                    HirStmtKind::SetN(v) => Stmt::SetN(*v),
                    HirStmtKind::Loop(_) => Stmt::End,
                };
                lir.stmts.push(opcode);
                lir.debug.push(s.span);
                proof {
                    assert(lir.stmts@.take(base) =~= old(lir).code());
                    assert(lir.debug@.take(base) =~= old(lir).spans());
                    let dtake = crate::semantics::deep_seq(stmts@.take(i as int));
                    let ds = crate::semantics::deep(stmts@[i as int]);
                    assert(code_start == lir.stmts@.subrange(0, code_start.len() as int)) by {
                        assert(lir.stmts@.subrange(0, code_start.len() as int) =~= code_start);
                    }
                    lemma_compiles_stable(code_start, lir.stmts@, base, dtake);
                    let pos = base + flat_len(dtake);
                    assert(pos == code_start.len());
                    assert(lir.stmts@[pos] == opcode);
                    assert(opcode == opcode_for(ds));
                    assert(flat_len_stmt(ds) == 1);
                    assert(compiles_stmt(lir.stmts@, pos, ds));
                    lemma_compiles_snoc(lir.stmts@, base, dtake, ds);
                    assert(stmts@.take(i + 1).drop_last() =~= stmts@.take(i as int));
                    assert(stmts@.take(i + 1).last() == stmts@[i as int]);
                    assert(crate::semantics::deep_seq(stmts@.take(i + 1)) == dtake.push(ds));
                    assert(compiles(
                        lir.stmts@,
                        base,
                        crate::semantics::deep_seq(stmts@.take(i + 1)),
                    ));
                    // the pushed opcode carries the statement's span
                    assert(spans_start == lir.debug@.subrange(0, spans_start.len() as int)) by {
                        assert(lir.debug@.subrange(0, spans_start.len() as int) =~= spans_start);
                    }
                    lemma_spans_for_stable(spans_start, lir.debug@, base, dtake);
                    assert(lir.debug@[pos] == s.span);
                    assert(ds.span == s.span);
                    assert(spans_for(lir.debug@, pos, ds));
                    lemma_spans_for_snoc(lir.debug@, base, dtake, ds);
                    assert(spans_for_seq(
                        lir.debug@,
                        base,
                        crate::semantics::deep_seq(stmts@.take(i + 1)),
                    ));
                }
            },
        }
    }
    proof {
        assert(stmts@.take(n as int) =~= stmts@);
    }
}

proof fn lemma_counts_fit_index(v: Seq<HirStmt>, i: int)
    requires
        counts_fit(v),
        0 <= i < v.len(),
    ensures
        counts_fit_stmt(v[i]),
    decreases v,
{
    if i == v.len() - 1 {
    } else {
        lemma_counts_fit_index(v.drop_last(), i);
    }
}

/// Splitting `flat_count` at a position.
proof fn lemma_flat_count_split(v: Seq<HirStmt>, i: int)
    requires
        0 <= i <= v.len(),
    ensures
        flat_count(v.take(i)) + flat_count(v.subrange(i, v.len() as int)) == flat_count(v),
    decreases v.len() - i,
{
    if i == v.len() {
        assert(v.take(i) =~= v);
        assert(v.subrange(i, v.len() as int) =~= Seq::<HirStmt>::empty());
    } else {
        lemma_flat_count_split(v, i + 1);
        lemma_flat_count_take_step(v, i);
        let rest = v.subrange(i, v.len() as int);
        let rest1 = v.subrange(i + 1, v.len() as int);
        assert(rest.drop_first() =~= rest1);
        assert(rest[0] == v[i]);
        lemma_flat_count_first(rest);
    }
}

/// `flat_count` measured from the front.
proof fn lemma_flat_count_first(v: Seq<HirStmt>)
    requires
        v.len() >= 1,
    ensures
        flat_count(v) == flat_count_stmt(v[0]) + flat_count(v.drop_first()),
    decreases v,
{
    if v.len() == 1 {
        assert(v.drop_first() =~= Seq::<HirStmt>::empty());
        assert(v.drop_last() =~= Seq::<HirStmt>::empty());
    } else {
        lemma_flat_count_first(v.drop_last());
        assert(v.drop_last().drop_first() =~= v.drop_first().drop_last());
        assert(v.drop_last()[0] == v[0]);
        assert(v.drop_first().last() == v.last());
    }
}

/// Flatten an optimized program into one opcode array with one span per
/// opcode, ending with the `End` sentinel. Every loop becomes a forward
/// conditional jump over its body and a backward conditional jump to the
/// body's start; an empty body jumps to itself, a deliberate infinite
/// loop matching the source language. The result is well formed: `End`
/// is last and no jump leaves the array.
pub fn generate(ir: &Hir) -> (r: Lir)
    requires
        flat_count(ir.stmts@) + 1 <= u32::MAX,
        counts_fit(ir.stmts@),
    ensures
        lir_wf(r),
        r.code().len() == flat_count(ir.stmts@) + 1,
        compiles(r.code(), 0, crate::semantics::deep_seq(ir.stmts@)),
        spans_for_seq(r.spans(), 0, crate::semantics::deep_seq(ir.stmts@)),
        r.spans()[r.spans().len() - 1] == (Span { start: 0, len: 0 }),
{
    let mut lir = Lir { stmts: Vec::new(), debug: Vec::new() };
    proof {
        assert(lir.stmts@.take(0int) =~= Seq::<Stmt>::empty());
        lemma_flat_count_nonneg(ir.stmts@);
    }
    emit_stmts(&mut lir, &ir.stmts);
    let ghost len_before = lir.stmts@.len() as int;
    let ghost emitted = lir.stmts@;
    let ghost emitted_spans = lir.debug@;
    lir.stmts.push(Stmt::End);
    lir.debug.push(Span::default());
    proof {
        assert(emitted == lir.stmts@.subrange(0, emitted.len() as int)) by {
            assert(lir.stmts@.subrange(0, emitted.len() as int) =~= emitted);
        }
        lemma_compiles_stable(emitted, lir.stmts@, 0, crate::semantics::deep_seq(ir.stmts@));
        assert(emitted_spans == lir.debug@.subrange(0, emitted_spans.len() as int)) by {
            assert(lir.debug@.subrange(0, emitted_spans.len() as int) =~= emitted_spans);
        }
        lemma_spans_for_stable(
            emitted_spans,
            lir.debug@,
            0,
            crate::semantics::deep_seq(ir.stmts@),
        );
        assert forall|j: int| 0 <= j < lir.stmts@.len() implies match #[trigger] lir.stmts@[j] {
            Stmt::JmpIfZero(t) => t < lir.stmts@.len(),
            Stmt::JmpIfNonZero(t) => t < lir.stmts@.len(),
            _ => true,
        } by {
            if j < len_before {
                assert(lir.stmts@[j] == lir.stmts@.take(len_before)[j]);
            }
        }
    }
    lir
}

} // verus!
