//! Flattening preserves behaviour: running the flat code of a compiled
//! statement sequence reaches exactly the state the tree semantics
//! assigns to it. Together with the optimizer's refinement ensures, this
//! closes the loop from the unoptimized reading of a program to the
//! bytes its compiled form prints.

use vstd::prelude::*;

use crate::lir::interpreter::{lir_run, op_step};
use crate::lir::{compiles, compiles_stmt, flat_len, flat_len_stmt, lemma_flat_len_first, lemma_flat_len_nonneg, opcode_for, Stmt};
use crate::semantics::{equiv_seqs, seq_sem, settled, stmt_sem, st_wf, ExecState, Outcome, SpecKind, SpecStmt};

verus! {

/// One machine step: execute the opcode at `ip` and say where the
/// machine stands next; `None` when it cannot step (it halted at `End`,
/// left the code, or needs input that is not there).
pub open spec fn lstep(code: Seq<Stmt>, st: ExecState, ip: int) -> Option<(ExecState, int)> {
    if !(0 <= ip < code.len()) {
        None
    } else {
        match code[ip] {
            Stmt::End => None,
            Stmt::JmpIfZero(t) => if st.tape[st.ptr] == 0 {
                Some((st, t as int))
            } else {
                Some((st, ip + 1))
            },
            Stmt::JmpIfNonZero(t) => if st.tape[st.ptr] != 0 {
                Some((st, t as int))
            } else {
                Some((st, ip + 1))
            },
            op => match op_step(op, st) {
                Outcome::Halt(st1) => Some((st1, ip + 1)),
                _ => None,
            },
        }
    }
}

/// Where the machine stands after exactly `n` steps, if it can make them.
pub open spec fn stepn(code: Seq<Stmt>, st: ExecState, ip: int, n: nat) -> Option<(ExecState, int)>
    decreases n,
{
    if n == 0 {
        Some((st, ip))
    } else {
        match lstep(code, st, ip) {
            Some(next) => stepn(code, next.0, next.1, (n - 1) as nat),
            None => None,
        }
    }
}

/// The machine can walk from one configuration to another.
pub open spec fn reaches(code: Seq<Stmt>, st: ExecState, ip: int, st2: ExecState, ip2: int) -> bool {
    exists|n: nat| stepn(code, st, ip, n) == Some((st2, ip2))
}

pub proof fn lemma_reaches_refl(code: Seq<Stmt>, st: ExecState, ip: int)
    ensures
        reaches(code, st, ip, st, ip),
{
    assert(stepn(code, st, ip, 0) == Some((st, ip)));
}

/// A possible step is a reach of length one.
pub proof fn lemma_reaches_step(code: Seq<Stmt>, st: ExecState, ip: int, st2: ExecState, ip2: int)
    requires
        lstep(code, st, ip) == Some((st2, ip2)),
    ensures
        reaches(code, st, ip, st2, ip2),
{
    assert(stepn(code, st2, ip2, 0) == Some((st2, ip2)));
    assert(stepn(code, st, ip, 1) == stepn(code, st2, ip2, 0));
}

proof fn lemma_stepn_add(code: Seq<Stmt>, st: ExecState, ip: int, n: nat, m: nat)
    requires
        stepn(code, st, ip, n) is Some,
    ensures
        stepn(code, st, ip, n + m) == stepn(
            code,
            stepn(code, st, ip, n).unwrap().0,
            stepn(code, st, ip, n).unwrap().1,
            m,
        ),
    decreases n,
{
    if n == 0 {
    } else {
        let next = lstep(code, st, ip).unwrap();
        lemma_stepn_add(code, next.0, next.1, (n - 1) as nat, m);
        assert(n + m - 1 == (n - 1) + m);
    }
}

pub proof fn lemma_reaches_trans(
    code: Seq<Stmt>,
    st: ExecState,
    ip: int,
    st2: ExecState,
    ip2: int,
    st3: ExecState,
    ip3: int,
)
    requires
        reaches(code, st, ip, st2, ip2),
        reaches(code, st2, ip2, st3, ip3),
    ensures
        reaches(code, st, ip, st3, ip3),
{
    let n = choose|n: nat| stepn(code, st, ip, n) == Some((st2, ip2));
    let m = choose|m: nat| stepn(code, st2, ip2, m) == Some((st3, ip3));
    lemma_stepn_add(code, st, ip, n, m);
    assert(stepn(code, st, ip, n + m) == Some((st3, ip3)));
}

/// Enough step bound turns a reach into a run: after the walked steps the
/// bounded machine continues from where the walk ended.
pub proof fn lemma_stepn_run(code: Seq<Stmt>, st: ExecState, ip: int, n: nat, fuel: nat)
    requires
        stepn(code, st, ip, n) is Some,
        n <= fuel,
    ensures
        lir_run(code, st, ip, fuel) == lir_run(
            code,
            stepn(code, st, ip, n).unwrap().0,
            stepn(code, st, ip, n).unwrap().1,
            (fuel - n) as nat,
        ),
    decreases n,
{
    if n == 0 {
    } else {
        let next = lstep(code, st, ip).unwrap();
        assert(lir_run(code, st, ip, fuel) == lir_run(code, next.0, next.1, (fuel - 1) as nat));
        lemma_stepn_run(code, next.0, next.1, (n - 1) as nat, (fuel - 1) as nat);
    }
}

/// How often each opcode executes in a bounded run: every step ticks the
/// opcode it executed; a run that halts, starves or exhausts its bound
/// adds nothing more.
pub open spec fn zero_counts(n: nat) -> Seq<int> {
    Seq::new(n, |i: int| 0)
}

pub open spec fn lir_counts(code: Seq<Stmt>, st: ExecState, ip: int, fuel: nat) -> Seq<int>
    decreases fuel,
{
    if fuel == 0 {
        zero_counts(code.len())
    } else {
        match lstep(code, st, ip) {
            Some(next) => {
                let rest = lir_counts(code, next.0, next.1, (fuel - 1) as nat);
                rest.update(ip, rest[ip] + 1)
            },
            None => zero_counts(code.len()),
        }
    }
}

pub proof fn lemma_lir_counts_len(code: Seq<Stmt>, st: ExecState, ip: int, fuel: nat)
    ensures
        lir_counts(code, st, ip, fuel).len() == code.len(),
    decreases fuel,
{
    if fuel == 0 {
    } else {
        match lstep(code, st, ip) {
            Some(next) => {
                lemma_lir_counts_len(code, next.0, next.1, (fuel - 1) as nat);
            },
            None => {},
        }
    }
}

/// A compiled statement walks the machine across its region, to exactly
/// the state the statement semantics assigns, whenever those semantics
/// come to a halt within the given iteration bound.
pub proof fn lemma_sim_stmt(code: Seq<Stmt>, base: int, s: SpecStmt, st: ExecState, fuel: nat, st2: ExecState)
    requires
        compiles_stmt(code, base, s),
        stmt_sem(s, st, fuel) == Outcome::Halt(st2),
    ensures
        reaches(code, st, base, st2, base + flat_len_stmt(s)),
    decreases fuel, s, 1int,
{
    match s.kind {
        SpecKind::Loop(b) => {
            let back = base + 1 + flat_len(b);
            lemma_flat_len_nonneg(b);
            if st.tape[st.ptr] == 0 {
                assert(lstep(code, st, base) == Some((st, back + 1)));
                lemma_reaches_step(code, st, base, st, back + 1);
            } else {
                assert(lstep(code, st, base) == Some((st, base + 1)));
                lemma_reaches_step(code, st, base, st, base + 1);
                lemma_sim_loop_iters(code, base, s, b, st, fuel, st2);
                lemma_reaches_trans(code, st, base, st, base + 1, st2, back + 1);
            }
        },
        _ => {
            assert(code[base] == opcode_for(s));
            assert(op_step(opcode_for(s), st) == Outcome::Halt(st2));
            assert(lstep(code, st, base) == Some((st2, base + 1)));
            lemma_reaches_step(code, st, base, st2, base + 1);
        },
    }
}

/// From the first opcode of a compiled loop's body, with the loop's cell
/// nonzero, the machine walks the body and the back jump as often as the
/// loop iterates, ending just past the loop.
proof fn lemma_sim_loop_iters(
    code: Seq<Stmt>,
    base: int,
    s: SpecStmt,
    b: Seq<SpecStmt>,
    st: ExecState,
    fuel: nat,
    st2: ExecState,
)
    requires
        s.kind == SpecKind::Loop(b),
        compiles_stmt(code, base, s),
        st.tape[st.ptr] != 0,
        stmt_sem(s, st, fuel) == Outcome::Halt(st2),
    ensures
        reaches(code, st, base + 1, st2, base + 1 + flat_len(b) + 1),
    decreases fuel, s, 0int,
{
    let back = base + 1 + flat_len(b);
    lemma_flat_len_nonneg(b);
    // the loop halted, so it had an iteration to spend and its body halted
    assert(fuel > 0);
    let st1 = match seq_sem(b, st, (fuel - 1) as nat) {
        Outcome::Halt(st1) => st1,
        _ => st,
    };
    assert(seq_sem(b, st, (fuel - 1) as nat) == Outcome::Halt(st1));
    lemma_sim_seq(code, base + 1, b, st, (fuel - 1) as nat, st1);
    assert(stmt_sem(s, st1, (fuel - 1) as nat) == Outcome::Halt(st2));
    if st1.tape[st1.ptr] == 0 {
        assert(st2 == st1);
        assert(lstep(code, st1, back) == Some((st1, back + 1)));
        lemma_reaches_step(code, st1, back, st1, back + 1);
        lemma_reaches_trans(code, st, base + 1, st1, back, st2, back + 1);
    } else {
        assert(lstep(code, st1, back) == Some((st1, base + 1)));
        lemma_reaches_step(code, st1, back, st1, base + 1);
        lemma_sim_loop_iters(code, base, s, b, st1, (fuel - 1) as nat, st2);
        lemma_reaches_trans(code, st1, back, st1, base + 1, st2, back + 1);
        lemma_reaches_trans(code, st, base + 1, st1, back, st2, back + 1);
    }
}

/// A compiled statement sequence walks the machine across its whole
/// region whenever its semantics halt.
pub proof fn lemma_sim_seq(
    code: Seq<Stmt>,
    base: int,
    ss: Seq<SpecStmt>,
    st: ExecState,
    fuel: nat,
    st2: ExecState,
)
    requires
        compiles(code, base, ss),
        seq_sem(ss, st, fuel) == Outcome::Halt(st2),
    ensures
        reaches(code, st, base, st2, base + flat_len(ss)),
    decreases fuel, ss, 2int,
{
    if ss.len() == 0 {
        lemma_reaches_refl(code, st, base);
    } else {
        lemma_flat_len_first(ss);
        let st1 = match stmt_sem(ss[0], st, fuel) {
            Outcome::Halt(st1) => st1,
            _ => st,
        };
        assert(stmt_sem(ss[0], st, fuel) == Outcome::Halt(st1));
        lemma_sim_stmt(code, base, ss[0], st, fuel, st1);
        lemma_sim_seq(code, base + flat_len_stmt(ss[0]), ss.drop_first(), st1, fuel, st2);
        lemma_reaches_trans(
            code,
            st,
            base,
            st1,
            base + flat_len_stmt(ss[0]),
            st2,
            base + flat_len(ss),
        );
    }
}

/// A configuration that is about to fail for want of input: the machine
/// stands on an input opcode with nothing left to read.
pub open spec fn starving(code: Seq<Stmt>, st: ExecState, ip: int) -> bool {
    &&& 0 <= ip < code.len()
    &&& code[ip] == Stmt::In
    &&& st.input.len() == 0
}

/// A compiled statement whose semantics fail for want of input walks the
/// machine to a starving configuration in the same state.
pub proof fn lemma_sim_stmt_starve(
    code: Seq<Stmt>,
    base: int,
    s: SpecStmt,
    st: ExecState,
    fuel: nat,
    st2: ExecState,
)
    requires
        compiles_stmt(code, base, s),
        stmt_sem(s, st, fuel) == Outcome::Starve(st2),
    ensures
        exists|ip: int| reaches(code, st, base, st2, ip) && #[trigger] starving(code, st2, ip),
    decreases fuel, s, 1int,
{
    match s.kind {
        SpecKind::Loop(b) => {
            let back = base + 1 + flat_len(b);
            lemma_flat_len_nonneg(b);
            // a loop only starves inside an iteration of its body
            assert(st.tape[st.ptr] != 0 && fuel > 0);
            assert(lstep(code, st, base) == Some((st, base + 1)));
            lemma_reaches_step(code, st, base, st, base + 1);
            lemma_sim_loop_iters_starve(code, base, s, b, st, fuel, st2);
            let ips = choose|ip: int|
                reaches(code, st, base + 1, st2, ip) && #[trigger] starving(code, st2, ip);
            lemma_reaches_trans(code, st, base, st, base + 1, st2, ips);
        },
        SpecKind::In => {
            assert(st2 == st && st.input.len() == 0);
            lemma_reaches_refl(code, st, base);
            assert(starving(code, st2, base));
        },
        _ => {},
    }
}

/// As `lemma_sim_loop_iters`, for an iteration that fails for want of
/// input.
proof fn lemma_sim_loop_iters_starve(
    code: Seq<Stmt>,
    base: int,
    s: SpecStmt,
    b: Seq<SpecStmt>,
    st: ExecState,
    fuel: nat,
    st2: ExecState,
)
    requires
        s.kind == SpecKind::Loop(b),
        compiles_stmt(code, base, s),
        st.tape[st.ptr] != 0,
        stmt_sem(s, st, fuel) == Outcome::Starve(st2),
    ensures
        exists|ip: int| reaches(code, st, base + 1, st2, ip) && #[trigger] starving(code, st2, ip),
    decreases fuel, s, 0int,
{
    let back = base + 1 + flat_len(b);
    lemma_flat_len_nonneg(b);
    assert(fuel > 0);
    match seq_sem(b, st, (fuel - 1) as nat) {
        Outcome::Starve(stm) => {
            assert(stm == st2);
            lemma_sim_seq_starve(code, base + 1, b, st, (fuel - 1) as nat, st2);
        },
        Outcome::Halt(st1) => {
            lemma_sim_seq(code, base + 1, b, st, (fuel - 1) as nat, st1);
            assert(stmt_sem(s, st1, (fuel - 1) as nat) == Outcome::Starve(st2));
            assert(st1.tape[st1.ptr] != 0);
            assert(lstep(code, st1, back) == Some((st1, base + 1)));
            lemma_reaches_step(code, st1, back, st1, base + 1);
            lemma_sim_loop_iters_starve(code, base, s, b, st1, (fuel - 1) as nat, st2);
            let ips = choose|ip: int|
                reaches(code, st1, base + 1, st2, ip) && #[trigger] starving(code, st2, ip);
            lemma_reaches_trans(code, st1, back, st1, base + 1, st2, ips);
            lemma_reaches_trans(code, st, base + 1, st1, back, st2, ips);
        },
        Outcome::Spin => {
            assert(false);
        },
    }
}

/// A compiled statement sequence whose semantics fail for want of input
/// walks the machine to a starving configuration in the same state.
pub proof fn lemma_sim_seq_starve(
    code: Seq<Stmt>,
    base: int,
    ss: Seq<SpecStmt>,
    st: ExecState,
    fuel: nat,
    st2: ExecState,
)
    requires
        compiles(code, base, ss),
        seq_sem(ss, st, fuel) == Outcome::Starve(st2),
    ensures
        exists|ip: int| reaches(code, st, base, st2, ip) && #[trigger] starving(code, st2, ip),
    decreases fuel, ss, 2int,
{
    assert(ss.len() > 0);
    lemma_flat_len_first(ss);
    match stmt_sem(ss[0], st, fuel) {
        Outcome::Starve(stm) => {
            assert(stm == st2);
            lemma_sim_stmt_starve(code, base, ss[0], st, fuel, st2);
        },
        Outcome::Halt(st1) => {
            lemma_sim_stmt(code, base, ss[0], st, fuel, st1);
            lemma_sim_seq_starve(
                code,
                base + flat_len_stmt(ss[0]),
                ss.drop_first(),
                st1,
                fuel,
                st2,
            );
            let ips = choose|ip: int|
                reaches(code, st1, base + flat_len_stmt(ss[0]), st2, ip) && #[trigger] starving(
                    code,
                    st2,
                    ip,
                );
            lemma_reaches_trans(
                code,
                st,
                base,
                st1,
                base + flat_len_stmt(ss[0]),
                st2,
                ips,
            );
        },
        Outcome::Spin => {
            assert(false);
        },
    }
}

/// Flattening preserves every halting run: if the statement semantics
/// halt within some iteration bound, the flat code halts in the same
/// state within some step bound.
pub proof fn lemma_codegen_preserves_halting(
    code: Seq<Stmt>,
    ss: Seq<SpecStmt>,
    st: ExecState,
    fuel: nat,
    st2: ExecState,
)
    requires
        compiles(code, 0, ss),
        code.len() == flat_len(ss) + 1,
        code[flat_len(ss)] == Stmt::End,
        seq_sem(ss, st, fuel) == Outcome::Halt(st2),
    ensures
        exists|big: nat| lir_run(code, st, 0, big) == Outcome::Halt(st2),
{
    lemma_sim_seq(code, 0, ss, st, fuel, st2);
    let n = choose|n: nat| stepn(code, st, 0, n) == Some((st2, flat_len(ss)));
    lemma_stepn_run(code, st, 0, n, n);
    assert(lir_run(code, st2, flat_len(ss), 0) == Outcome::Halt(st2));
    assert(lir_run(code, st, 0, n) == Outcome::Halt(st2));
}

/// Flattening also preserves every run that fails for want of input:
/// the flat code reaches the failing input opcode with the same state.
pub proof fn lemma_codegen_preserves_starving(
    code: Seq<Stmt>,
    ss: Seq<SpecStmt>,
    st: ExecState,
    fuel: nat,
    st2: ExecState,
)
    requires
        compiles(code, 0, ss),
        seq_sem(ss, st, fuel) == Outcome::Starve(st2),
    ensures
        exists|big: nat| lir_run(code, st, 0, big) == Outcome::Starve(st2),
{
    lemma_sim_seq_starve(code, 0, ss, st, fuel, st2);
    let ips = choose|ip: int|
        reaches(code, st, 0, st2, ip) && #[trigger] starving(code, st2, ip);
    let n = choose|n: nat| stepn(code, st, 0, n) == Some((st2, ips));
    lemma_stepn_run(code, st, 0, n, (n + 1) as nat);
    assert(lir_run(code, st2, ips, 1) == Outcome::Starve(st2));
    assert(lir_run(code, st, 0, (n + 1) as nat) == Outcome::Starve(st2));
}

/// The whole pipeline preserves every run that comes to an answer:
/// wherever the naive, statement-by-statement reading of a program halts
/// or fails for want of input, the flat code the optimized program
/// compiles to comes, within some step bound, to the same answer — the
/// same output bytes, tape and pointer. The premises are what the
/// pipeline's own contracts supply: `optimize` ensures the refinement,
/// and `generate` ensures the compilation relation, the length and the
/// terminal sentinel.
pub proof fn lemma_pipeline_round_trip(
    naive: Seq<SpecStmt>,
    optimized: Seq<SpecStmt>,
    code: Seq<Stmt>,
    st: ExecState,
    fuel: nat,
)
    requires
        equiv_seqs(naive, optimized),
        compiles(code, 0, optimized),
        code.len() == flat_len(optimized) + 1,
        code[flat_len(optimized)] == Stmt::End,
        st_wf(st),
        settled(seq_sem(naive, st, fuel)),
    ensures
        exists|big: nat| lir_run(code, st, 0, big) == seq_sem(naive, st, fuel),
{
    assert(seq_sem(optimized, st, fuel) == seq_sem(naive, st, fuel));
    match seq_sem(naive, st, fuel) {
        Outcome::Halt(st2) => {
            lemma_codegen_preserves_halting(code, optimized, st, fuel, st2);
        },
        Outcome::Starve(st2) => {
            lemma_codegen_preserves_starving(code, optimized, st, fuel, st2);
        },
        Outcome::Spin => {},
    }
}

} // verus!
