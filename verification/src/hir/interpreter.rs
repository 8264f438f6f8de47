use vstd::prelude::*;

use crate::hir::{Hir, Stmt, StmtKind};
use crate::lir::interpreter::{abs_state, RunResult, RunStatus, MEM_SIZE};
use crate::semantics::{
    add_at, cell_idx, deep, deep_seq, hir_sem, init_state, lemma_deep_seq_index,
    lemma_deep_seq_len, lemma_wrap_u8_add, lemma_wrap_u8_sub, move_add, move_ptr, seq_sem,
    set_cell, stmt_sem, ExecState, Outcome, SpecKind,
};

verus! {

/// How one step of the tree-walking interpreter ended.
#[derive(Debug, Clone, Copy, PartialEq, Eq, Structural)]
enum Step {
    Done,
    Starved,
    Spun,
}

/// Execute one statement, mirroring the statement semantics exactly: a
/// loop may iterate at most `fuel` times, handing `fuel - 1` to its body.
fn exec_stmt(
    s: &Stmt,
    mem: &mut Vec<u8>,
    ptr: &mut usize,
    out: &mut Vec<u8>,
    input: &[u8],
    inpos: &mut usize,
    fuel: u64,
) -> (r: Step)
    requires
        old(mem)@.len() == MEM_SIZE,
        *old(ptr) < MEM_SIZE,
        *old(inpos) <= input@.len(),
    ensures
        final(mem)@.len() == MEM_SIZE,
        *final(ptr) < MEM_SIZE,
        *final(inpos) <= input@.len(),
        ({
            let pre = abs_state(old(mem)@, *old(ptr) as int, input@, *old(inpos) as int, old(out)@);
            let post = abs_state(
                final(mem)@,
                *final(ptr) as int,
                input@,
                *final(inpos) as int,
                final(out)@,
            );
            match r {
                Step::Done => stmt_sem(deep(*s), pre, fuel as nat) == Outcome::Halt(post),
                Step::Starved => stmt_sem(deep(*s), pre, fuel as nat) == Outcome::Starve(post),
                Step::Spun => stmt_sem(deep(*s), pre, fuel as nat) == Outcome::Spin,
            }
        }),
    decreases s,
{
    let ghost pre = abs_state(mem@, *ptr as int, input@, *inpos as int, out@);
    proof {
        vstd::arithmetic::div_mod::lemma_small_mod(*ptr as nat, MEM_SIZE as nat);
    }
    let p: usize = *ptr;
    match &s.kind {
        StmtKind::Add(off, v) => {
            let idx = crate::tape::cell_index(p, *off as i64, MEM_SIZE);
            let old_val = mem[idx];
            mem.set(idx, old_val.wrapping_add(*v));
            proof {
                lemma_wrap_u8_add(old_val, *v);
                assert(idx as int == cell_idx(pre, *off as int));
                assert(abs_state(mem@, p as int, input@, *inpos as int, out@) =~= add_at(
                    pre,
                    *off as int,
                    *v as int,
                ));
            }
            Step::Done
        },
        StmtKind::Sub(off, v) => {
            let idx = crate::tape::cell_index(p, *off as i64, MEM_SIZE);
            let old_val = mem[idx];
            mem.set(idx, old_val.wrapping_sub(*v));
            proof {
                lemma_wrap_u8_sub(old_val, *v);
                assert(idx as int == cell_idx(pre, *off as int));
                assert(abs_state(mem@, p as int, input@, *inpos as int, out@) =~= add_at(
                    pre,
                    *off as int,
                    -(*v as int),
                ));
            }
            Step::Done
        },
        StmtKind::MoveAddTo { offset } => {
            let v = mem[p];
            mem.set(p, 0);
            let idx = crate::tape::cell_index(p, *offset as i64, MEM_SIZE);
            let old_val = mem[idx];
            mem.set(idx, old_val.wrapping_add(v));
            proof {
                lemma_wrap_u8_add(old_val, v);
                let mid = set_cell(pre, 0);
                assert(idx as int == cell_idx(mid, *offset as int));
                assert(abs_state(mem@, p as int, input@, *inpos as int, out@) =~= move_add(
                    pre,
                    *offset as int,
                ));
            }
            Step::Done
        },
        StmtKind::Right(v) => {
            let d: u64 = if *v > u32::MAX as usize {
                // counts above the tape bound wrap just the same
                (*v % MEM_SIZE) as u64
            } else {
                *v as u64
            };
            proof {
                if *v > u32::MAX as usize {
                    vstd::arithmetic::div_mod::lemma_mod_bound(*v as int, MEM_SIZE as int);
                }
            }
            let np = crate::tape::cell_index(p, d as i64, MEM_SIZE);
            *ptr = np;
            proof {
                if *v > u32::MAX as usize {
                    vstd::arithmetic::div_mod::lemma_add_mod_noop_right(
                        p as int,
                        *v as int,
                        MEM_SIZE as int,
                    );
                    vstd::arithmetic::div_mod::lemma_mod_twice(*v as int, MEM_SIZE as int);
                }
                assert(np as int == (p + *v as int) % (MEM_SIZE as int));
                assert(abs_state(mem@, *ptr as int, input@, *inpos as int, out@) =~= move_ptr(
                    pre,
                    *v as int,
                ));
            }
            Step::Done
        },
        StmtKind::Left(v) => {
            let d: u64 = if *v > u32::MAX as usize {
                (*v % MEM_SIZE) as u64
            } else {
                *v as u64
            };
            proof {
                if *v > u32::MAX as usize {
                    vstd::arithmetic::div_mod::lemma_mod_bound(*v as int, MEM_SIZE as int);
                }
            }
            let np = crate::tape::cell_index(p, -(d as i64), MEM_SIZE);
            *ptr = np;
            proof {
                if *v > u32::MAX as usize {
                    vstd::arithmetic::div_mod::lemma_sub_mod_noop_right(
                        p as int,
                        *v as int,
                        MEM_SIZE as int,
                    );
                    vstd::arithmetic::div_mod::lemma_mod_twice(*v as int, MEM_SIZE as int);
                }
                assert(np as int == (p - *v as int) % (MEM_SIZE as int));
                assert(abs_state(mem@, *ptr as int, input@, *inpos as int, out@) =~= move_ptr(
                    pre,
                    -(*v as int),
                ));
            }
            Step::Done
        },
        StmtKind::Out => {
            let b = mem[p];
            out.push(b);
            proof {
                assert(abs_state(mem@, p as int, input@, *inpos as int, out@) =~= ExecState {
                    output: pre.output.push(pre.tape[pre.ptr]),
                    ..pre
                });
            }
            Step::Done
        },
        StmtKind::In => {
            if *inpos >= input.len() {
                proof {
                    assert(pre.input =~= Seq::<u8>::empty());
                }
                Step::Starved
            } else {
                let b = input[*inpos];
                mem.set(p, b);
                *inpos = *inpos + 1;
                proof {
                    assert(pre.input[0] == input@[*inpos - 1]);
                    assert(input@.skip(*inpos as int) =~= pre.input.drop_first());
                    assert(abs_state(mem@, p as int, input@, *inpos as int, out@) =~= ExecState {
                        tape: pre.tape.update(pre.ptr, pre.input[0]),
                        input: pre.input.drop_first(),
                        ..pre
                    });
                }
                Step::Done
            }
        },
        StmtKind::SetN(v) => {
            mem.set(p, *v);
            proof {
                assert(abs_state(mem@, p as int, input@, *inpos as int, out@) =~= set_cell(
                    pre,
                    *v,
                ));
            }
            Step::Done
        },
        StmtKind::Loop(h) => {
            let mut fl: u64 = fuel;
            loop
                invariant
                    s.kind matches StmtKind::Loop(hh) && hh == *h,
                    deep(*s).kind == SpecKind::Loop(deep_seq(h.stmts@)),
                    pre == abs_state(
                        old(mem)@,
                        *old(ptr) as int,
                        input@,
                        *old(inpos) as int,
                        old(out)@,
                    ),
                    mem@.len() == MEM_SIZE,
                    *ptr < MEM_SIZE,
                    *inpos <= input@.len(),
                    fl <= fuel,
                    ({
                        let cur = abs_state(mem@, *ptr as int, input@, *inpos as int, out@);
                        stmt_sem(deep(*s), pre, fuel as nat) == stmt_sem(
                            deep(*s),
                            cur,
                            fl as nat,
                        )
                    }),
                decreases fl,
            {
                let ghost cur = abs_state(mem@, *ptr as int, input@, *inpos as int, out@);
                if mem[*ptr] == 0 {
                    proof {
                        assert(stmt_sem(deep(*s), cur, fl as nat) == Outcome::Halt(cur));
                    }
                    return Step::Done;
                }
                if fl == 0 {
                    proof {
                        assert(stmt_sem(deep(*s), cur, fl as nat) == Outcome::Spin);
                    }
                    return Step::Spun;
                }
                fl = fl - 1;
                proof {
                    assert(decreases_to!(*s => s.kind));
                }
                let st = exec_stmts(&h.stmts, mem, ptr, out, input, inpos, fl);
                proof {
                    let nxt = abs_state(mem@, *ptr as int, input@, *inpos as int, out@);
                    match st {
                        Step::Done => {
                            assert(seq_sem(deep_seq(h.stmts@), cur, fl as nat) == Outcome::Halt(
                                nxt,
                            ));
                            assert(stmt_sem(deep(*s), cur, (fl + 1) as nat) == stmt_sem(
                                deep(*s),
                                nxt,
                                fl as nat,
                            ));
                        },
                        Step::Starved => {
                            assert(seq_sem(deep_seq(h.stmts@), cur, fl as nat) == Outcome::Starve(
                                nxt,
                            ));
                            assert(stmt_sem(deep(*s), cur, (fl + 1) as nat) == Outcome::Starve(
                                nxt,
                            ));
                        },
                        Step::Spun => {
                            assert(seq_sem(deep_seq(h.stmts@), cur, fl as nat) == Outcome::Spin);
                            assert(stmt_sem(deep(*s), cur, (fl + 1) as nat) == Outcome::Spin);
                        },
                    }
                }
                match st {
                    Step::Done => {},
                    other => {
                        return other;
                    },
                }
            }
        },
    }
}

/// Execute a statement sequence left to right, mirroring the sequence
/// semantics exactly.
fn exec_stmts(
    stmts: &Vec<Stmt>,
    mem: &mut Vec<u8>,
    ptr: &mut usize,
    out: &mut Vec<u8>,
    input: &[u8],
    inpos: &mut usize,
    fuel: u64,
) -> (r: Step)
    requires
        old(mem)@.len() == MEM_SIZE,
        *old(ptr) < MEM_SIZE,
        *old(inpos) <= input@.len(),
    ensures
        final(mem)@.len() == MEM_SIZE,
        *final(ptr) < MEM_SIZE,
        *final(inpos) <= input@.len(),
        ({
            let pre = abs_state(old(mem)@, *old(ptr) as int, input@, *old(inpos) as int, old(out)@);
            let post = abs_state(
                final(mem)@,
                *final(ptr) as int,
                input@,
                *final(inpos) as int,
                final(out)@,
            );
            match r {
                Step::Done => seq_sem(deep_seq(stmts@), pre, fuel as nat) == Outcome::Halt(post),
                Step::Starved => seq_sem(deep_seq(stmts@), pre, fuel as nat) == Outcome::Starve(
                    post,
                ),
                Step::Spun => seq_sem(deep_seq(stmts@), pre, fuel as nat) == Outcome::Spin,
            }
        }),
    decreases stmts,
{
    let ghost pre = abs_state(mem@, *ptr as int, input@, *inpos as int, out@);
    let n = stmts.len();
    proof {
        lemma_deep_seq_len(stmts@);
    }
    proof {
        assert(deep_seq(stmts@).skip(0) =~= deep_seq(stmts@));
    }
    let mut i: usize = 0;
    while i < n
        invariant
            i <= n,
            n == stmts@.len(),
            pre == abs_state(
                old(mem)@,
                *old(ptr) as int,
                input@,
                *old(inpos) as int,
                old(out)@,
            ),
            mem@.len() == MEM_SIZE,
            *ptr < MEM_SIZE,
            *inpos <= input@.len(),
            ({
                let cur = abs_state(mem@, *ptr as int, input@, *inpos as int, out@);
                seq_sem(deep_seq(stmts@), pre, fuel as nat) == seq_sem(
                    deep_seq(stmts@).skip(i as int),
                    cur,
                    fuel as nat,
                )
            }),
        decreases n - i,
    {
        let ghost cur = abs_state(mem@, *ptr as int, input@, *inpos as int, out@);
        let ghost rest = deep_seq(stmts@).skip(i as int);
        proof {
            lemma_deep_seq_len(stmts@);
            lemma_deep_seq_index(stmts@, i as int);
            assert(rest[0] == deep_seq(stmts@)[i as int]);
            assert(rest[0] == deep(stmts@[i as int]));
            assert(rest.drop_first() =~= deep_seq(stmts@).skip(i + 1));
        }
        let st = exec_stmt(&stmts[i], mem, ptr, out, input, inpos, fuel);
        proof {
            let nxt = abs_state(mem@, *ptr as int, input@, *inpos as int, out@);
            match st {
                Step::Done => {
                    assert(stmt_sem(rest[0], cur, fuel as nat) == Outcome::Halt(nxt));
                    assert(seq_sem(rest, cur, fuel as nat) == seq_sem(
                        deep_seq(stmts@).skip(i + 1),
                        nxt,
                        fuel as nat,
                    ));
                },
                Step::Starved => {
                    assert(seq_sem(rest, cur, fuel as nat) == Outcome::Starve(nxt));
                },
                Step::Spun => {
                    assert(seq_sem(rest, cur, fuel as nat) == Outcome::Spin);
                },
            }
        }
        match st {
            Step::Done => {},
            other => {
                return other;
            },
        }
        i = i + 1;
    }
    proof {
        lemma_deep_seq_len(stmts@);
        assert(deep_seq(stmts@).skip(n as int) =~= Seq::<crate::semantics::SpecStmt>::empty());
    }
    Step::Done
}

/// Execute a statement tree against a zeroed wraparound tape, reading
/// from `input` and collecting the output; loops iterate at most `fuel`
/// times each, nested loops one less per level. The result is exactly
/// what the tree semantics yields.
pub fn run(hir: &Hir, input: &[u8], fuel: u64) -> (r: RunResult)
    ensures
        match hir_sem(*hir, init_state(MEM_SIZE as int, input@), fuel as nat) {
            Outcome::Halt(st) => r.status == RunStatus::Halted && r.output@ == st.output
                && r.tape@ == st.tape && r.ptr == st.ptr,
            Outcome::Starve(st) => r.status == RunStatus::OutOfInput && r.output@ == st.output
                && r.tape@ == st.tape && r.ptr == st.ptr,
            Outcome::Spin => r.status == RunStatus::OutOfSteps,
        },
{
    let mut mem: Vec<u8> = vec![0u8; MEM_SIZE];
    let mut out: Vec<u8> = Vec::new();
    let mut ptr: usize = 0;
    let mut inpos: usize = 0;
    proof {
        assert(input@.skip(0) =~= input@);
        assert(mem@ =~= init_state(MEM_SIZE as int, input@).tape);
        assert(abs_state(mem@, 0, input@, 0, out@) =~= init_state(MEM_SIZE as int, input@));
    }
    let st = exec_stmts(&hir.stmts, &mut mem, &mut ptr, &mut out, input, &mut inpos, fuel);
    let status = match st {
        Step::Done => RunStatus::Halted,
        Step::Starved => RunStatus::OutOfInput,
        Step::Spun => RunStatus::OutOfSteps,
    };
    RunResult { status, output: out, tape: mem, ptr }
}

} // verus!
