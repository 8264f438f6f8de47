//! An optimizing compiler pipeline and execution engine for a minimal
//! pointer-and-tape language with eight primitive operations.
//!
//! Source text is parsed into a span-annotated syntax tree, lifted into a
//! high-level intermediate representation (HIR), rewritten by a fixed sequence
//! of peephole passes, flattened into a jump-resolved low-level representation
//! (LIR), and executed by a bytecode interpreter over a fixed-size wraparound
//! tape. Each rewrite is proved to refine the unoptimized reading of the
//! program; the flat code is proved well formed, and the interpreter is proved
//! to compute exactly what the flat-code machine semantics yields.

use vstd::prelude::*;

pub mod hir;
pub mod interpreter;
pub mod lir;
pub mod mir;
pub mod naive_interpreter;
pub mod parse;
pub mod repl;
pub mod semantics;
pub mod span;
mod tape;

use crate::lir::interpreter::{lir_run, RunStatus};
use crate::lir::{counts_fit, counts_fit_stmt, flat_count, flat_count_stmt, lir_wf, Lir};
use crate::parse::{parse_ok, ParseError};
use crate::semantics::{init_state, Outcome};
use crate::span::Span;

verus! {

/// The pipeline's configuration, as handed in by the caller: whether to
/// record per-instruction execution counts, whether to dump an
/// intermediate representation instead of executing, whether to run the
/// experimental mid-level analysis, and the source file's name.
pub struct Args {
    /// Record how often each source byte's code ran.
    pub profile: bool,
    /// Dump one intermediate representation instead of executing.
    pub dump: Option<DumpKind>,
    /// Run the experimental mid-level memory-state analysis.
    pub mir: bool,
    /// The file to run.
    pub file: String,
}

impl Default for Args {
    fn default() -> (r: Args)
        ensures
            !r.profile,
            r.dump is None,
            !r.mir,
    {
        Args { profile: false, dump: None, mir: false, file: String::new() }
    }
}

/// Which intermediate representation to dump.
#[derive(Debug, Clone, Copy, PartialEq, Eq, Structural)]
pub enum DumpKind {
    Ast,
    Hir,
    Mir,
    Lir,
}

impl core::str::FromStr for DumpKind {
    type Err = String;

    fn from_str(s: &str) -> Result<DumpKind, String> {
        if s == "ast" {
            Ok(DumpKind::Ast)
        } else if s == "hir" {
            Ok(DumpKind::Hir)
        } else if s == "mir" {
            Ok(DumpKind::Mir)
        } else if s == "lir" {
            Ok(DumpKind::Lir)
        } else {
            Err(String::new())
        }
    }
}

/// Whether a run should collect profiling counts.
pub enum UseProfile {
    Yes,
    No,
}

/// Why a run could not be carried out.
#[derive(Debug, PartialEq, Eq)]
pub enum RunError {
    /// The source has unbalanced brackets or nests too deep.
    Parse(ParseError),
    /// The program flattens to more opcodes than a jump target can name.
    TooLarge,
}

/// A completed (or bounded) run: how it ended, the bytes it wrote, the
/// flat code it compiled to, and the per-source-byte execution counts
/// when profiling was asked for.
pub struct RunOutput {
    pub status: RunStatus,
    pub output: Vec<u8>,
    pub lir: Lir,
    pub profile: Option<Vec<u64>>,
}

/// The flattened length of a statement sequence, checked against the
/// jump-target range; `None` exactly when some run length or the total
/// flattened size cannot be encoded.
fn flat_len_checked(stmts: &Vec<crate::hir::Stmt>) -> (r: Option<u32>)
    ensures
        match r {
            Some(c) => c == flat_count(stmts@) && counts_fit(stmts@) && c < u32::MAX,
            None => !(counts_fit(stmts@) && flat_count(stmts@) < u32::MAX),
        },
    decreases stmts,
{
    let n = stmts.len();
    let mut total: u32 = 0;
    proof {
        assert(stmts@.take(0int) =~= Seq::<crate::hir::Stmt>::empty());
    }
    let mut i: usize = 0;
    while i < n
        invariant
            i <= n,
            n == stmts@.len(),
            total == flat_count(stmts@.take(i as int)),
            total < u32::MAX,
            counts_fit(stmts@.take(i as int)),
        decreases n - i,
    {
        let ghost prefix = stmts@.take(i as int);
        let s = &stmts[i];
        let here: u32 = match &s.kind {
            crate::hir::StmtKind::Right(v) => {
                if *v > u32::MAX as usize {
                    proof {
                        lemma_prefix_refutes(stmts@, i as int);
                    }
                    return None;
                }
                1
            },
            crate::hir::StmtKind::Left(v) => {
                if *v > u32::MAX as usize {
                    proof {
                        lemma_prefix_refutes(stmts@, i as int);
                    }
                    return None;
                }
                1
            },
            crate::hir::StmtKind::Loop(h) => {
                match flat_len_checked(&h.stmts) {
                    None => {
                        proof {
                            lemma_prefix_refutes(stmts@, i as int);
                            crate::lir::lemma_flat_count_nonneg(h.stmts@);
                        }
                        return None;
                    },
                    Some(c) => {
                        if c >= u32::MAX - 2 {
                            proof {
                                lemma_prefix_refutes(stmts@, i as int);
                            }
                            return None;
                        }
                        c + 2
                    },
                }
            },
            _ => 1,
        };
        if total >= u32::MAX - here {
            proof {
                lemma_prefix_refutes(stmts@, i as int);
                crate::lir::lemma_flat_count_stmt_pos(stmts@[i as int]);
            }
            return None;
        }
        total = total + here;
        proof {
            assert(here == flat_count_stmt(stmts@[i as int]));
            assert(counts_fit_stmt(stmts@[i as int]));
            assert(stmts@.take(i + 1).drop_last() =~= prefix);
            assert(stmts@.take(i + 1).last() == stmts@[i as int]);
            assert(counts_fit(stmts@.take(i + 1)));
            assert(flat_count(stmts@.take(i + 1)) == flat_count(prefix) + here);
        }
        i = i + 1;
    }
    proof {
        assert(stmts@.take(n as int) =~= stmts@);
    }
    Some(total)
}

/// If a prefix already breaks the encoding bound, the whole sequence does:
/// flattened counts only grow, and an unencodable run length stays one.
proof fn lemma_prefix_refutes(v: Seq<crate::hir::Stmt>, i: int)
    requires
        0 <= i < v.len(),
        !(counts_fit_stmt(v[i]) && flat_count(v.take(i)) + flat_count_stmt(v[i]) < u32::MAX),
    ensures
        !(counts_fit(v) && flat_count(v) < u32::MAX),
    decreases v.len() - i,
{
    if i == v.len() - 1 {
        assert(v.take(i as int) =~= v.drop_last());
        if counts_fit(v) {
            assert(counts_fit_stmt(v.last()));
        }
    } else {
        assert(v.drop_last().take(i as int) =~= v.take(i as int));
        assert(v.drop_last()[i] == v[i]);
        lemma_prefix_refutes(v.drop_last(), i);
        crate::lir::lemma_flat_count_stmt_pos(v.last());
    }
}

/// Whether the span covers source byte `b`.
pub open spec fn covers(sp: Span, b: int) -> bool {
    sp.start <= b < sp.start + sp.len
}

/// The number of executions attributed to source byte `b` by the first
/// `i` opcodes: each execution of an opcode counts once for every byte
/// its span covers.
pub open spec fn byte_hits(spans: Seq<Span>, counts: Seq<u64>, b: int, i: int) -> int
    decreases i,
{
    if i <= 0 {
        0
    } else {
        byte_hits(spans, counts, b, i - 1) + if covers(spans[i - 1], b) {
            counts[i - 1] as int
        } else {
            0int
        }
    }
}

/// Attribute per-opcode execution counts back to the source: each source
/// byte receives one count for every execution of every opcode whose span
/// covers it, saturating at `u64::MAX`.
pub fn profile_by_source(lir: &Lir, counts: &Vec<u64>, src_len: usize) -> (r: Vec<u64>)
    requires
        counts@.len() == lir.code().len(),
        lir_wf(*lir),
    ensures
        r@.len() == src_len,
        forall|b: int|
            0 <= b < src_len ==> #[trigger] r@[b] as int == if byte_hits(
                lir.spans(),
                counts@,
                b,
                lir.spans().len() as int,
            ) <= u64::MAX {
                byte_hits(lir.spans(), counts@, b, lir.spans().len() as int)
            } else {
                u64::MAX as int
            },
{
    let spans = lir.debug();
    let m = spans.len();
    let mut r: Vec<u64> = Vec::new();
    let mut b: usize = 0;
    while b < src_len
        invariant
            b <= src_len,
            m == lir.spans().len(),
            spans@ == lir.spans(),
            counts@.len() == m,
            r@.len() == b,
            forall|x: int|
                0 <= x < b ==> #[trigger] r@[x] as int == if byte_hits(
                    lir.spans(),
                    counts@,
                    x,
                    m as int,
                ) <= u64::MAX {
                    byte_hits(lir.spans(), counts@, x, m as int)
                } else {
                    u64::MAX as int
                },
        decreases src_len - b,
    {
        let mut acc: u128 = 0;
        let mut i: usize = 0;
        while i < m
            invariant
                i <= m,
                m == lir.spans().len(),
                spans@ == lir.spans(),
                counts@.len() == m,
                acc == byte_hits(lir.spans(), counts@, b as int, i as int),
                acc <= i * (u64::MAX as int),
            decreases m - i,
        {
            let sp = spans[i];
            let e = sp.start as u64 + sp.len as u64;
            if (sp.start as u64) <= b as u64 && (b as u64) < e {
                acc = acc + counts[i] as u128;
            }
            proof {
                assert((i + 1) * (u64::MAX as int) == i * (u64::MAX as int) + u64::MAX);
            }
            i = i + 1;
        }
        if acc > u64::MAX as u128 {
            r.push(u64::MAX);
        } else {
            r.push(acc as u64);
        }
        b = b + 1;
    }
    r
}

/// Compile and execute a source program: parse it, optimize the HIR,
/// flatten to LIR, and interpret the LIR against the given input for at
/// most `fuel` opcodes, profiling per source byte when asked. Fails with
/// a parse error exactly on ill-bracketed or too deeply nested sources,
/// and succeeds on every parseable source whose significant characters
/// leave the flattened program inside the jump-target range (the
/// optimizer never grows a program, so the source's own size bounds it).
/// The returned flat code compiles some statement sequence exactly, and
/// the run's result is exactly what the flat-code machine yields on it.
pub fn run(src: &[u8], input: &[u8], fuel: u64, config: &Args) -> (r: Result<RunOutput, RunError>)
    requires
        src@.len() <= u32::MAX,
    ensures
        (r matches Err(e) && e is Parse) <==> !parse_ok(src@),
        r matches Err(e) && e is TooLarge ==> parse_ok(src@),
        parse_ok(src@) && crate::parse::sig_count(src@, src@.len() as int) + 1 < u32::MAX
            ==> r is Ok,
        r matches Ok(o) ==> {
            &&& lir_wf(o.lir)
            &&& exists|t: Seq<(crate::parse::Instr, Span)>|
                {
                    let opt = crate::hir::opts::optimize_spec(crate::hir::build_seq(t));
                    &&& #[trigger] crate::parse::ast_text(t) == crate::parse::sig_bytes(src@)
                    &&& crate::parse::spans_match(t, src@)
                    &&& crate::semantics::equiv_seqs(crate::hir::build_seq(t), opt)
                    &&& crate::lir::compiles(o.lir.code(), 0, opt)
                    &&& o.lir.code().len() == crate::lir::flat_len(opt) + 1
                    &&& o.lir.code()[crate::lir::flat_len(opt)] == crate::lir::Stmt::End
                }
            &&& match lir_run(
                o.lir.code(),
                init_state(crate::lir::interpreter::MEM_SIZE as int, input@),
                0,
                fuel as nat,
            ) {
                Outcome::Halt(st) => o.status == RunStatus::Halted && o.output@ == st.output,
                Outcome::Starve(st) => o.status == RunStatus::OutOfInput && o.output@
                    == st.output,
                Outcome::Spin => o.status == RunStatus::OutOfSteps,
            }
            &&& (o.profile is Some <==> config.profile)
            &&& (o.profile matches Some(p) ==> p@.len() == src@.len())
        },
{
    let ast = match crate::parse::parse(src) {
        Err(e) => {
            return Err(RunError::Parse(e));
        },
        Ok(a) => a,
    };
    let hir = crate::hir::optimized_hir(&ast);
    proof {
        // the source's significant size bounds the optimized program
        crate::hir::lemma_build_seq_flat(ast@);
        crate::hir::opts::lemma_optimize_spec_shrinks(crate::hir::build_seq(ast@));
        crate::lir::lemma_flat_len_deep(hir.stmts@);
        crate::lir::lemma_fits_deep(hir.stmts@);
    }
    if config.mir {
        let _ = crate::mir::optimized_mir(&hir);
    }
    match flat_len_checked(&hir.stmts) {
        None => {
            proof {
                assert(!(crate::parse::sig_count(src@, src@.len() as int) + 1 < u32::MAX));
            }
            Err(RunError::TooLarge)
        },
        Some(_) => {
            let lir = crate::lir::generate(&hir);
            proof {
                let opt = crate::semantics::deep_seq(hir.stmts@);
                assert(opt == crate::hir::opts::optimize_spec(crate::hir::build_seq(ast@)));
                assert(crate::parse::ast_text(ast@) == crate::parse::sig_bytes(src@)
                    && crate::parse::spans_match(ast@, src@));
                assert(crate::lir::compiles(lir.code(), 0, opt) && lir.code().len()
                    == crate::lir::flat_len(opt) + 1 && lir.code()[crate::lir::flat_len(opt)]
                    == crate::lir::Stmt::End);
            }
            if config.profile {
                let (res, counts) = crate::lir::interpreter::run_profile(&lir, input, fuel);
                let prof = profile_by_source(&lir, &counts, src.len());
                Ok(
                    RunOutput {
                        status: res.status,
                        output: res.output,
                        lir,
                        profile: Some(prof),
                    },
                )
            } else {
                let res = crate::lir::interpreter::run(&lir, input, fuel);
                Ok(RunOutput { status: res.status, output: res.output, lir, profile: None })
            }
        },
    }
}

} // verus!
