use vstd::prelude::*;

use crate::lir::correctness::{lemma_lir_counts_len, lir_counts, lstep};
use crate::lir::{lir_wf, Lir, Stmt};
use crate::semantics::{
    add_at, cell_idx, init_state, lemma_wrap_u8_add, lemma_wrap_u8_sub, move_add, move_ptr,
    set_cell, ExecState, Outcome,
};

verus! {

/// The tape length of the flat-code interpreter.
pub const MEM_SIZE: usize = 32_000;

/// The effect of one non-jump opcode on the machine state.
pub open spec fn op_step(op: Stmt, st: ExecState) -> Outcome {
    match op {
        Stmt::Add(n) => Outcome::Halt(add_at(st, 0, n as int)),
        Stmt::Sub(n) => Outcome::Halt(add_at(st, 0, -(n as int))),
        Stmt::AddOffset { offset, n } => Outcome::Halt(add_at(st, offset as int, n as int)),
        Stmt::SubOffset { offset, n } => Outcome::Halt(add_at(st, offset as int, -(n as int))),
        Stmt::MoveAddTo { offset } => Outcome::Halt(move_add(st, offset as int)),
        Stmt::Right(n) => Outcome::Halt(move_ptr(st, n as int)),
        Stmt::Left(n) => Outcome::Halt(move_ptr(st, -(n as int))),
        Stmt::Out => Outcome::Halt(ExecState { output: st.output.push(st.tape[st.ptr]), ..st }),
        Stmt::In => if st.input.len() == 0 {
            Outcome::Starve(st)
        } else {
            Outcome::Halt(
                ExecState {
                    tape: st.tape.update(st.ptr, st.input[0]),
                    input: st.input.drop_first(),
                    ..st
                },
            )
        },
        Stmt::SetN(n) => Outcome::Halt(set_cell(st, n)),
        _ => Outcome::Halt(st),
    }
}

/// The flat-code machine: execute the opcode at `ip` and continue, one
/// unit of `fuel` per opcode. `End` halts; an input opcode with no input
/// left fails. The machine is only ever run on well-formed code, where
/// `ip` can never leave the array.
pub open spec fn lir_run(code: Seq<Stmt>, st: ExecState, ip: int, fuel: nat) -> Outcome
    decreases fuel,
{
    if !(0 <= ip < code.len()) {
        Outcome::Spin
    } else if code[ip] == Stmt::End {
        Outcome::Halt(st)
    } else if fuel == 0 {
        Outcome::Spin
    } else {
        let f = (fuel - 1) as nat;
        match code[ip] {
            Stmt::JmpIfZero(t) => if st.tape[st.ptr] == 0 {
                lir_run(code, st, t as int, f)
            } else {
                lir_run(code, st, ip + 1, f)
            },
            Stmt::JmpIfNonZero(t) => if st.tape[st.ptr] != 0 {
                lir_run(code, st, t as int, f)
            } else {
                lir_run(code, st, ip + 1, f)
            },
            op => match op_step(op, st) {
                Outcome::Halt(st1) => lir_run(code, st1, ip + 1, f),
                o => o,
            },
        }
    }
}

/// How a bounded run ended.
#[derive(Debug, Clone, Copy, PartialEq, Eq, Structural)]
pub enum RunStatus {
    /// The program reached `End`.
    Halted,
    /// An input opcode found no input left; this is the defined
    /// input-exhaustion failure, not a crash.
    OutOfInput,
    /// The step bound ran out first.
    OutOfSteps,
}

/// The observable result of a run: how it ended, the bytes written, and
/// the final tape and pointer.
#[derive(Debug, PartialEq, Eq)]
pub struct RunResult {
    pub status: RunStatus,
    pub output: Vec<u8>,
    pub tape: Vec<u8>,
    pub ptr: usize,
}

/// The machine state of the executable interpreter, viewed abstractly.
pub open spec fn abs_state(mem: Seq<u8>, ptr: int, input: Seq<u8>, inpos: int, out: Seq<u8>) -> ExecState {
    ExecState { tape: mem, ptr: ptr, input: input.skip(inpos), output: out }
}

/// Execute well-formed flat code against a zeroed wraparound tape for at
/// most `fuel` opcodes, reading from `input` and collecting the output.
/// The result is exactly what the flat-code machine yields.
pub fn run(lir: &Lir, input: &[u8], fuel: u64) -> (r: RunResult)
    requires
        lir_wf(*lir),
    ensures
        match lir_run(lir.code(), init_state(MEM_SIZE as int, input@), 0, fuel as nat) {
            Outcome::Halt(st) => r.status == RunStatus::Halted && r.output@ == st.output
                && r.tape@ == st.tape && r.ptr == st.ptr,
            Outcome::Starve(st) => r.status == RunStatus::OutOfInput && r.output@ == st.output
                && r.tape@ == st.tape && r.ptr == st.ptr,
            Outcome::Spin => r.status == RunStatus::OutOfSteps,
        },
{
    let (r, _) = run_inner(lir, input, fuel, false);
    r
}

/// As `run`, but also count how often each opcode executes: the returned
/// vector holds, for every opcode of the program, exactly the number of
/// times the bounded machine executed it.
pub fn run_profile(lir: &Lir, input: &[u8], fuel: u64) -> (rc: (RunResult, Vec<u64>))
    requires
        lir_wf(*lir),
    ensures
        match lir_run(lir.code(), init_state(MEM_SIZE as int, input@), 0, fuel as nat) {
            Outcome::Halt(st) => rc.0.status == RunStatus::Halted && rc.0.output@ == st.output
                && rc.0.tape@ == st.tape && rc.0.ptr == st.ptr,
            Outcome::Starve(st) => rc.0.status == RunStatus::OutOfInput && rc.0.output@
                == st.output && rc.0.tape@ == st.tape && rc.0.ptr == st.ptr,
            Outcome::Spin => rc.0.status == RunStatus::OutOfSteps,
        },
        rc.1@.len() == lir.code().len(),
        forall|j: int|
            0 <= j < rc.1@.len() ==> #[trigger] rc.1@[j] as int == lir_counts(
                lir.code(),
                init_state(MEM_SIZE as int, input@),
                0,
                fuel as nat,
            )[j],
{
    run_inner(lir, input, fuel, true)
}

/// Execute one non-jump, non-`End` opcode against the machine's
/// concrete state. Returns false exactly when the opcode needed input
/// and none was left, leaving the state unchanged.
fn exec_op(
    op: Stmt,
    mem: &mut Vec<u8>,
    ptr: &mut usize,
    out: &mut Vec<u8>,
    input: &[u8],
    inpos: &mut usize,
) -> (ok: bool)
    requires
        !(op is JmpIfZero),
        !(op is JmpIfNonZero),
        !(op is End),
        old(mem)@.len() == MEM_SIZE,
        *old(ptr) < MEM_SIZE,
        *old(inpos) <= input@.len(),
    ensures
        final(mem)@.len() == MEM_SIZE,
        *final(ptr) < MEM_SIZE,
        *final(inpos) <= input@.len(),
        ok ==> op_step(
            op,
            abs_state(old(mem)@, *old(ptr) as int, input@, *old(inpos) as int, old(out)@),
        ) == Outcome::Halt(
            abs_state(final(mem)@, *final(ptr) as int, input@, *final(inpos) as int, final(out)@),
        ),
        !ok ==> op_step(
            op,
            abs_state(old(mem)@, *old(ptr) as int, input@, *old(inpos) as int, old(out)@),
        ) is Starve && final(mem)@ == old(mem)@ && *final(ptr) == *old(ptr) && *final(inpos)
            == *old(inpos) && final(out)@ == old(out)@,
{
    let ghost cur = abs_state(mem@, *ptr as int, input@, *inpos as int, out@);
    proof {
        vstd::arithmetic::div_mod::lemma_small_mod(*ptr as nat, MEM_SIZE as nat);
    }
    let p: usize = *ptr;
    match op {
        Stmt::Add(v) => {
            let old_val = mem[p];
            mem.set(p, old_val.wrapping_add(v));
            proof {
                lemma_wrap_u8_add(old_val, v);
                assert(abs_state(mem@, p as int, input@, *inpos as int, out@) =~= add_at(
                    cur,
                    0,
                    v as int,
                ));
            }
            true
        },
        Stmt::Sub(v) => {
            let old_val = mem[p];
            mem.set(p, old_val.wrapping_sub(v));
            proof {
                lemma_wrap_u8_sub(old_val, v);
                assert(abs_state(mem@, p as int, input@, *inpos as int, out@) =~= add_at(
                    cur,
                    0,
                    -(v as int),
                ));
            }
            true
        },
        Stmt::AddOffset { offset, n: v } => {
            let idx = crate::tape::cell_index(p, offset as i64, MEM_SIZE);
            let old_val = mem[idx];
            mem.set(idx, old_val.wrapping_add(v));
            proof {
                lemma_wrap_u8_add(old_val, v);
                assert(idx as int == cell_idx(cur, offset as int));
                assert(abs_state(mem@, p as int, input@, *inpos as int, out@) =~= add_at(
                    cur,
                    offset as int,
                    v as int,
                ));
            }
            true
        },
        Stmt::SubOffset { offset, n: v } => {
            let idx = crate::tape::cell_index(p, offset as i64, MEM_SIZE);
            let old_val = mem[idx];
            mem.set(idx, old_val.wrapping_sub(v));
            proof {
                lemma_wrap_u8_sub(old_val, v);
                assert(idx as int == cell_idx(cur, offset as int));
                assert(abs_state(mem@, p as int, input@, *inpos as int, out@) =~= add_at(
                    cur,
                    offset as int,
                    -(v as int),
                ));
            }
            true
        },
        Stmt::MoveAddTo { offset } => {
            let v = mem[p];
            mem.set(p, 0);
            let idx = crate::tape::cell_index(p, offset as i64, MEM_SIZE);
            let old_val = mem[idx];
            mem.set(idx, old_val.wrapping_add(v));
            proof {
                lemma_wrap_u8_add(old_val, v);
                let mid = set_cell(cur, 0);
                assert(idx as int == cell_idx(mid, offset as int));
                assert(abs_state(mem@, p as int, input@, *inpos as int, out@) =~= move_add(
                    cur,
                    offset as int,
                ));
            }
            true
        },
        Stmt::Right(v) => {
            *ptr = crate::tape::cell_index(p, v as i64, MEM_SIZE);
            proof {
                assert(abs_state(mem@, *ptr as int, input@, *inpos as int, out@) =~= move_ptr(
                    cur,
                    v as int,
                ));
            }
            true
        },
        Stmt::Left(v) => {
            *ptr = crate::tape::cell_index(p, -(v as i64), MEM_SIZE);
            proof {
                assert(abs_state(mem@, *ptr as int, input@, *inpos as int, out@) =~= move_ptr(
                    cur,
                    -(v as int),
                ));
            }
            true
        },
        Stmt::Out => {
            let b = mem[p];
            out.push(b);
            proof {
                assert(abs_state(mem@, p as int, input@, *inpos as int, out@) =~= ExecState {
                    output: cur.output.push(cur.tape[cur.ptr]),
                    ..cur
                });
            }
            true
        },
        Stmt::In => {
            if *inpos >= input.len() {
                proof {
                    assert(cur.input =~= Seq::<u8>::empty());
                }
                false
            } else {
                let b = input[*inpos];
                mem.set(p, b);
                *inpos = *inpos + 1;
                proof {
                    assert(cur.input[0] == input@[*inpos - 1]);
                    assert(input@.skip(*inpos as int) =~= cur.input.drop_first());
                    assert(abs_state(mem@, p as int, input@, *inpos as int, out@) =~= ExecState {
                        tape: cur.tape.update(cur.ptr, cur.input[0]),
                        input: cur.input.drop_first(),
                        ..cur
                    });
                }
                true
            }
        },
        Stmt::SetN(v) => {
            mem.set(p, v);
            proof {
                assert(abs_state(mem@, p as int, input@, *inpos as int, out@) =~= set_cell(
                    cur,
                    v,
                ));
            }
            true
        },
        _ => true,
    }
}

#[verifier::rlimit(100)]
fn run_inner(lir: &Lir, input: &[u8], fuel: u64, profile: bool) -> (rc: (RunResult, Vec<u64>))
    requires
        lir_wf(*lir),
    ensures
        match lir_run(lir.code(), init_state(MEM_SIZE as int, input@), 0, fuel as nat) {
            Outcome::Halt(st) => rc.0.status == RunStatus::Halted && rc.0.output@ == st.output
                && rc.0.tape@ == st.tape && rc.0.ptr == st.ptr,
            Outcome::Starve(st) => rc.0.status == RunStatus::OutOfInput && rc.0.output@
                == st.output && rc.0.tape@ == st.tape && rc.0.ptr == st.ptr,
            Outcome::Spin => rc.0.status == RunStatus::OutOfSteps,
        },
        profile ==> rc.1@.len() == lir.code().len(),
        profile ==> forall|j: int|
            0 <= j < rc.1@.len() ==> #[trigger] rc.1@[j] as int == lir_counts(
                lir.code(),
                init_state(MEM_SIZE as int, input@),
                0,
                fuel as nat,
            )[j],
{
    let code = lir.stmts();
    let n = code.len();
    let mut mem: Vec<u8> = vec![0u8; MEM_SIZE];
    let mut out: Vec<u8> = Vec::new();
    let mut counts: Vec<u64> = if profile {
        vec![0u64; n]
    } else {
        Vec::new()
    };
    let mut ptr: usize = 0;
    let mut ip: usize = 0;
    let mut inpos: usize = 0;
    let mut steps: u64 = fuel;
    let ghost code_s = lir.code();
    let ghost st0 = init_state(MEM_SIZE as int, input@);
    proof {
        assert(input@.skip(0) =~= input@);
        assert(mem@ =~= st0.tape);
        assert(abs_state(mem@, ptr as int, input@, inpos as int, out@) =~= st0);
        lemma_lir_counts_len(code_s, st0, 0, fuel as nat);
    }
    loop
        invariant
            lir_wf(*lir),
            code_s == lir.code(),
            st0 == init_state(MEM_SIZE as int, input@),
            code@ == code_s,
            n == code_s.len(),
            ip < n,
            ptr < MEM_SIZE,
            mem@.len() == MEM_SIZE,
            inpos <= input@.len(),
            steps <= fuel,
            profile ==> counts@.len() == n,
            profile ==> forall|j: int| 0 <= j < counts@.len() ==> counts@[j] <= fuel - steps,
            profile ==> forall|j: int|
                0 <= j < n ==> #[trigger] lir_counts(code_s, st0, 0, fuel as nat)[j]
                    == counts@[j] + lir_counts(
                    code_s,
                    abs_state(mem@, ptr as int, input@, inpos as int, out@),
                    ip as int,
                    steps as nat,
                )[j],
            lir_run(code_s, st0, 0, fuel as nat) == lir_run(
                code_s,
                abs_state(mem@, ptr as int, input@, inpos as int, out@),
                ip as int,
                steps as nat,
            ),
        decreases steps,
    {
        let ghost cur = abs_state(mem@, ptr as int, input@, inpos as int, out@);
        let op = code[ip];
        if let Stmt::End = op {
            proof {
                assert(code_s[ip as int] == Stmt::End);
                assert(lir_run(code_s, cur, ip as int, steps as nat) == Outcome::Halt(cur));
                if profile {
                    assert(lstep(code_s, cur, ip as int) is None);
                    assert forall|j: int| 0 <= j < n implies #[trigger] lir_counts(
                        code_s,
                        cur,
                        ip as int,
                        steps as nat,
                    )[j] == 0 by {}
                }
            }
            return (
                RunResult { status: RunStatus::Halted, output: out, tape: mem, ptr },
                counts,
            );
        }
        if steps == 0 {
            proof {
                assert(lir_run(code_s, cur, ip as int, steps as nat) == Outcome::Spin);
                if profile {
                    assert forall|j: int| 0 <= j < n implies #[trigger] lir_counts(
                        code_s,
                        cur,
                        ip as int,
                        steps as nat,
                    )[j] == 0 by {}
                }
            }
            return (
                RunResult { status: RunStatus::OutOfSteps, output: out, tape: mem, ptr },
                counts,
            );
        }
        steps = steps - 1;
        let at: usize = ip;
        match op {
            Stmt::JmpIfZero(t) => {
                if mem[ptr] == 0 {
                    ip = t as usize;
                } else {
                    ip = at + 1;
                }
                proof {
                    assert(lir_run(code_s, cur, at as int, (steps + 1) as nat) == lir_run(
                        code_s,
                        cur,
                        ip as int,
                        steps as nat,
                    ));
                    assert(lstep(code_s, cur, at as int) == Some((
                        abs_state(mem@, ptr as int, input@, inpos as int, out@),
                        ip as int,
                    )));
                }
            },
            Stmt::JmpIfNonZero(t) => {
                if mem[ptr] != 0 {
                    ip = t as usize;
                } else {
                    ip = at + 1;
                }
                proof {
                    assert(lir_run(code_s, cur, at as int, (steps + 1) as nat) == lir_run(
                        code_s,
                        cur,
                        ip as int,
                        steps as nat,
                    ));
                    assert(lstep(code_s, cur, at as int) == Some((
                        abs_state(mem@, ptr as int, input@, inpos as int, out@),
                        ip as int,
                    )));
                }
            },
            _ => {
                let ok = exec_op(op, &mut mem, &mut ptr, &mut out, input, &mut inpos);
                if !ok {
                    proof {
                        assert(op_step(op, cur) == Outcome::Starve(cur));
                        assert(lir_run(code_s, cur, at as int, (steps + 1) as nat)
                            == Outcome::Starve(cur));
                        if profile {
                            assert(lstep(code_s, cur, at as int) is None);
                            assert forall|j: int| 0 <= j < n implies #[trigger] lir_counts(
                                code_s,
                                cur,
                                at as int,
                                (steps + 1) as nat,
                            )[j] == 0 by {}
                        }
                    }
                    return (
                        RunResult { status: RunStatus::OutOfInput, output: out, tape: mem, ptr },
                        counts,
                    );
                }
                ip = at + 1;
                proof {
                    assert(lir_run(code_s, cur, at as int, (steps + 1) as nat) == lir_run(
                        code_s,
                        abs_state(mem@, ptr as int, input@, inpos as int, out@),
                        ip as int,
                        steps as nat,
                    ));
                    assert(lstep(code_s, cur, at as int) == Some((
                        abs_state(mem@, ptr as int, input@, inpos as int, out@),
                        ip as int,
                    )));
                }
            },
        }
        if profile {
            // one tick for the opcode just executed; a count can never
            // exceed the total step bound, so it cannot overflow
            let c = counts[at];
            counts.set(at, c + 1);
            proof {
                let nxt = abs_state(mem@, ptr as int, input@, inpos as int, out@);
                lemma_lir_counts_len(code_s, nxt, ip as int, steps as nat);
                assert(lir_counts(code_s, cur, at as int, (steps + 1) as nat) == lir_counts(
                    code_s,
                    nxt,
                    ip as int,
                    steps as nat,
                ).update(
                    at as int,
                    lir_counts(code_s, nxt, ip as int, steps as nat)[at as int] + 1,
                ));
            }
        }
    }
}

} // verus!
