use vstd::prelude::*;

use crate::hir::{build_seq, build_stmt};
use crate::lir::interpreter::{abs_state, RunResult, RunStatus, MEM_SIZE};
use crate::parse::{Ast, Instr};
use crate::semantics::{
    add_at, init_state, lemma_wrap_u8_add, lemma_wrap_u8_sub, move_ptr, seq_sem, stmt_sem,
    ExecState, Outcome, SpecKind,
};
use crate::span::Span;

verus! {

#[derive(Debug, Clone, Copy, PartialEq, Eq, Structural)]
enum Step {
    Done,
    Starved,
    Spun,
}

/// Execute one syntax-tree instruction directly, without any lowering or
/// optimization: each primitive is a single step of one cell or one move.
fn exec_instr(
    instr: &Instr,
    span: Span,
    mem: &mut Vec<u8>,
    ptr: &mut usize,
    out: &mut Vec<u8>,
    input: &[u8],
    inpos: &mut usize,
    fuel: u64,
) -> (r: Step)
    requires
        old(mem)@.len() == MEM_SIZE,
        *old(ptr) < MEM_SIZE,
        *old(inpos) <= input@.len(),
    ensures
        final(mem)@.len() == MEM_SIZE,
        *final(ptr) < MEM_SIZE,
        *final(inpos) <= input@.len(),
        ({
            let pre = abs_state(old(mem)@, *old(ptr) as int, input@, *old(inpos) as int, old(out)@);
            let post = abs_state(
                final(mem)@,
                *final(ptr) as int,
                input@,
                *final(inpos) as int,
                final(out)@,
            );
            match r {
                Step::Done => stmt_sem(build_stmt(*instr, span), pre, fuel as nat)
                    == Outcome::Halt(post),
                Step::Starved => stmt_sem(build_stmt(*instr, span), pre, fuel as nat)
                    == Outcome::Starve(post),
                Step::Spun => stmt_sem(build_stmt(*instr, span), pre, fuel as nat)
                    == Outcome::Spin,
            }
        }),
    decreases instr,
{
    let ghost pre = abs_state(mem@, *ptr as int, input@, *inpos as int, out@);
    proof {
        vstd::arithmetic::div_mod::lemma_small_mod(*ptr as nat, MEM_SIZE as nat);
    }
    let p: usize = *ptr;
    match instr {
        Instr::Add => {
            let old_val = mem[p];
            mem.set(p, old_val.wrapping_add(1));
            proof {
                lemma_wrap_u8_add(old_val, 1);
                assert(abs_state(mem@, p as int, input@, *inpos as int, out@) =~= add_at(
                    pre,
                    0,
                    1,
                ));
            }
            Step::Done
        },
        Instr::Sub => {
            let old_val = mem[p];
            mem.set(p, old_val.wrapping_sub(1));
            proof {
                lemma_wrap_u8_sub(old_val, 1);
                assert(abs_state(mem@, p as int, input@, *inpos as int, out@) =~= add_at(
                    pre,
                    0,
                    -1,
                ));
            }
            Step::Done
        },
        Instr::Right => {
            let np = crate::tape::cell_index(p, 1, MEM_SIZE);
            *ptr = np;
            proof {
                assert(abs_state(mem@, *ptr as int, input@, *inpos as int, out@) =~= move_ptr(
                    pre,
                    1,
                ));
            }
            Step::Done
        },
        Instr::Left => {
            let np = crate::tape::cell_index(p, -1, MEM_SIZE);
            *ptr = np;
            proof {
                assert(abs_state(mem@, *ptr as int, input@, *inpos as int, out@) =~= move_ptr(
                    pre,
                    -1,
                ));
            }
            Step::Done
        },
        Instr::Out => {
            let b = mem[p];
            out.push(b);
            proof {
                assert(abs_state(mem@, p as int, input@, *inpos as int, out@) =~= ExecState {
                    output: pre.output.push(pre.tape[pre.ptr]),
                    ..pre
                });
            }
            Step::Done
        },
        Instr::In => {
            if *inpos >= input.len() {
                proof {
                    assert(pre.input =~= Seq::<u8>::empty());
                }
                Step::Starved
            } else {
                let b = input[*inpos];
                mem.set(p, b);
                *inpos = *inpos + 1;
                proof {
                    assert(pre.input[0] == input@[*inpos - 1]);
                    assert(input@.skip(*inpos as int) =~= pre.input.drop_first());
                    assert(abs_state(mem@, p as int, input@, *inpos as int, out@) =~= ExecState {
                        tape: pre.tape.update(pre.ptr, pre.input[0]),
                        input: pre.input.drop_first(),
                        ..pre
                    });
                }
                Step::Done
            }
        },
        Instr::Loop(body) => {
            let mut fl: u64 = fuel;
            loop
                invariant
                    instr matches Instr::Loop(bb) && bb == body,
                    build_stmt(*instr, span).kind == SpecKind::Loop(build_seq(body@)),
                    pre == abs_state(
                        old(mem)@,
                        *old(ptr) as int,
                        input@,
                        *old(inpos) as int,
                        old(out)@,
                    ),
                    mem@.len() == MEM_SIZE,
                    *ptr < MEM_SIZE,
                    *inpos <= input@.len(),
                    fl <= fuel,
                    ({
                        let cur = abs_state(mem@, *ptr as int, input@, *inpos as int, out@);
                        stmt_sem(build_stmt(*instr, span), pre, fuel as nat) == stmt_sem(
                            build_stmt(*instr, span),
                            cur,
                            fl as nat,
                        )
                    }),
                decreases fl,
            {
                let ghost cur = abs_state(mem@, *ptr as int, input@, *inpos as int, out@);
                if mem[*ptr] == 0 {
                    proof {
                        assert(stmt_sem(build_stmt(*instr, span), cur, fl as nat)
                            == Outcome::Halt(cur));
                    }
                    return Step::Done;
                }
                if fl == 0 {
                    proof {
                        assert(stmt_sem(build_stmt(*instr, span), cur, fl as nat)
                            == Outcome::Spin);
                    }
                    return Step::Spun;
                }
                fl = fl - 1;
                let st = exec_instrs(body, mem, ptr, out, input, inpos, fl);
                proof {
                    let nxt = abs_state(mem@, *ptr as int, input@, *inpos as int, out@);
                    match st {
                        Step::Done => {
                            assert(seq_sem(build_seq(body@), cur, fl as nat) == Outcome::Halt(
                                nxt,
                            ));
                            assert(stmt_sem(build_stmt(*instr, span), cur, (fl + 1) as nat)
                                == stmt_sem(build_stmt(*instr, span), nxt, fl as nat));
                        },
                        Step::Starved => {
                            assert(seq_sem(build_seq(body@), cur, fl as nat) == Outcome::Starve(
                                nxt,
                            ));
                        },
                        Step::Spun => {
                            assert(seq_sem(build_seq(body@), cur, fl as nat) == Outcome::Spin);
                        },
                    }
                }
                match st {
                    Step::Done => {},
                    other => {
                        return other;
                    },
                }
            }
        },
    }
}

fn exec_instrs(
    instrs: &Ast,
    mem: &mut Vec<u8>,
    ptr: &mut usize,
    out: &mut Vec<u8>,
    input: &[u8],
    inpos: &mut usize,
    fuel: u64,
) -> (r: Step)
    requires
        old(mem)@.len() == MEM_SIZE,
        *old(ptr) < MEM_SIZE,
        *old(inpos) <= input@.len(),
    ensures
        final(mem)@.len() == MEM_SIZE,
        *final(ptr) < MEM_SIZE,
        *final(inpos) <= input@.len(),
        ({
            let pre = abs_state(old(mem)@, *old(ptr) as int, input@, *old(inpos) as int, old(out)@);
            let post = abs_state(
                final(mem)@,
                *final(ptr) as int,
                input@,
                *final(inpos) as int,
                final(out)@,
            );
            match r {
                Step::Done => seq_sem(build_seq(instrs@), pre, fuel as nat) == Outcome::Halt(
                    post,
                ),
                Step::Starved => seq_sem(build_seq(instrs@), pre, fuel as nat)
                    == Outcome::Starve(post),
                Step::Spun => seq_sem(build_seq(instrs@), pre, fuel as nat) == Outcome::Spin,
            }
        }),
    decreases instrs,
{
    let ghost pre = abs_state(mem@, *ptr as int, input@, *inpos as int, out@);
    let n = instrs.len();
    proof {
        lemma_build_seq_len(instrs@);
        assert(build_seq(instrs@).skip(0) =~= build_seq(instrs@));
    }
    let mut i: usize = 0;
    while i < n
        invariant
            i <= n,
            n == instrs@.len(),
            pre == abs_state(
                old(mem)@,
                *old(ptr) as int,
                input@,
                *old(inpos) as int,
                old(out)@,
            ),
            mem@.len() == MEM_SIZE,
            *ptr < MEM_SIZE,
            *inpos <= input@.len(),
            ({
                let cur = abs_state(mem@, *ptr as int, input@, *inpos as int, out@);
                seq_sem(build_seq(instrs@), pre, fuel as nat) == seq_sem(
                    build_seq(instrs@).skip(i as int),
                    cur,
                    fuel as nat,
                )
            }),
        decreases n - i,
    {
        let ghost cur = abs_state(mem@, *ptr as int, input@, *inpos as int, out@);
        let ghost rest = build_seq(instrs@).skip(i as int);
        proof {
            lemma_build_seq_len(instrs@);
            lemma_build_seq_index(instrs@, i as int);
            assert(rest[0] == build_seq(instrs@)[i as int]);
            assert(rest[0] == build_stmt(instrs@[i as int].0, instrs@[i as int].1));
            assert(rest.drop_first() =~= build_seq(instrs@).skip(i + 1));
        }
        let (instr, span) = &instrs[i];
        let st = exec_instr(instr, *span, mem, ptr, out, input, inpos, fuel);
        proof {
            let nxt = abs_state(mem@, *ptr as int, input@, *inpos as int, out@);
            match st {
                Step::Done => {
                    assert(stmt_sem(rest[0], cur, fuel as nat) == Outcome::Halt(nxt));
                    assert(seq_sem(rest, cur, fuel as nat) == seq_sem(
                        build_seq(instrs@).skip(i + 1),
                        nxt,
                        fuel as nat,
                    ));
                },
                Step::Starved => {
                    assert(seq_sem(rest, cur, fuel as nat) == Outcome::Starve(nxt));
                },
                Step::Spun => {
                    assert(seq_sem(rest, cur, fuel as nat) == Outcome::Spin);
                },
            }
        }
        match st {
            Step::Done => {},
            other => {
                return other;
            },
        }
        i = i + 1;
    }
    proof {
        lemma_build_seq_len(instrs@);
        assert(build_seq(instrs@).skip(n as int) =~= Seq::<crate::semantics::SpecStmt>::empty());
    }
    Step::Done
}

pub broadcast proof fn lemma_build_seq_len(ast: Seq<(Instr, Span)>)
    ensures
        (#[trigger] build_seq(ast)).len() == ast.len(),
    decreases ast,
{
    if ast.len() > 0 {
        lemma_build_seq_len(ast.drop_last());
    }
}

pub proof fn lemma_build_seq_index(ast: Seq<(Instr, Span)>, i: int)
    requires
        0 <= i < ast.len(),
    ensures
        build_seq(ast)[i] == build_stmt(ast[i].0, ast[i].1),
    decreases ast,
{
    lemma_build_seq_len(ast);
    if ast.len() > 0 && i < ast.len() - 1 {
        lemma_build_seq_index(ast.drop_last(), i);
    }
}

/// Interpret a syntax tree directly, one primitive at a time, against a
/// zeroed wraparound tape: the unoptimized reading of the program that
/// every optimization stage must preserve.
pub fn run(instrs: &Ast, input: &[u8], fuel: u64) -> (r: RunResult)
    ensures
        match seq_sem(build_seq(instrs@), init_state(MEM_SIZE as int, input@), fuel as nat) {
            Outcome::Halt(st) => r.status == RunStatus::Halted && r.output@ == st.output
                && r.tape@ == st.tape && r.ptr == st.ptr,
            Outcome::Starve(st) => r.status == RunStatus::OutOfInput && r.output@ == st.output
                && r.tape@ == st.tape && r.ptr == st.ptr,
            Outcome::Spin => r.status == RunStatus::OutOfSteps,
        },
{
    let mut mem: Vec<u8> = vec![0u8; MEM_SIZE];
    let mut out: Vec<u8> = Vec::new();
    let mut ptr: usize = 0;
    let mut inpos: usize = 0;
    proof {
        assert(input@.skip(0) =~= input@);
        assert(mem@ =~= init_state(MEM_SIZE as int, input@).tape);
        assert(abs_state(mem@, 0, input@, 0, out@) =~= init_state(MEM_SIZE as int, input@));
    }
    let st = exec_instrs(instrs, &mut mem, &mut ptr, &mut out, input, &mut inpos, fuel);
    let status = match st {
        Step::Done => RunStatus::Halted,
        Step::Starved => RunStatus::OutOfInput,
        Step::Spun => RunStatus::OutOfSteps,
    };
    RunResult { status, output: out, tape: mem, ptr }
}

} // verus!
