//! The first-pass engine: interpret the parsed statement tree directly.

use vstd::prelude::*;

use crate::interpreter::{
    bytes_to_string, bytes_as_chars, chars_balanced, minify, parse, sig_chars, stmt_seq_spec,
    stmt_spec, Statement, MEM_SIZE,
};
use crate::lir::interpreter::abs_state;
use crate::semantics::{
    add_at, init_state, lemma_wrap_u8_add, lemma_wrap_u8_sub, move_ptr, seq_sem, stmt_sem,
    ExecState, Outcome, SpecKind,
};

verus! {

/// How one step of the tree-walking interpreter ended.
#[derive(Debug, Clone, Copy, PartialEq, Eq, Structural)]
pub enum StepResult {
    Done,
    Starved,
    Spun,
}

/// Execute one statement against the tape, mirroring the statement
/// semantics exactly; loops iterate at most `fuel` times, nested loops
/// one less per level.
pub fn execute(
    statement: &Statement,
    mem: &mut Vec<u8>,
    pointer: &mut usize,
    out: &mut Vec<u8>,
    input: &[u8],
    inpos: &mut usize,
    fuel: u64,
) -> (r: StepResult)
    requires
        old(mem)@.len() == MEM_SIZE,
        *old(pointer) < MEM_SIZE,
        *old(inpos) <= input@.len(),
    ensures
        final(mem)@.len() == MEM_SIZE,
        *final(pointer) < MEM_SIZE,
        *final(inpos) <= input@.len(),
        ({
            let pre = abs_state(
                old(mem)@,
                *old(pointer) as int,
                input@,
                *old(inpos) as int,
                old(out)@,
            );
            let post = abs_state(
                final(mem)@,
                *final(pointer) as int,
                input@,
                *final(inpos) as int,
                final(out)@,
            );
            match r {
                StepResult::Done => stmt_sem(stmt_spec(*statement), pre, fuel as nat)
                    == Outcome::Halt(post),
                StepResult::Starved => stmt_sem(stmt_spec(*statement), pre, fuel as nat)
                    == Outcome::Starve(post),
                StepResult::Spun => stmt_sem(stmt_spec(*statement), pre, fuel as nat)
                    == Outcome::Spin,
            }
        }),
    decreases statement,
{
    let ghost pre = abs_state(mem@, *pointer as int, input@, *inpos as int, out@);
    proof {
        vstd::arithmetic::div_mod::lemma_small_mod(*pointer as nat, MEM_SIZE as nat);
    }
    let p: usize = *pointer;
    match statement {
        Statement::Inc => {
            let old_val = mem[p];
            mem.set(p, old_val.wrapping_add(1));
            proof {
                lemma_wrap_u8_add(old_val, 1);
                assert(abs_state(mem@, p as int, input@, *inpos as int, out@) =~= add_at(
                    pre,
                    0,
                    1,
                ));
            }
            StepResult::Done
        },
        Statement::Dec => {
            let old_val = mem[p];
            mem.set(p, old_val.wrapping_sub(1));
            proof {
                lemma_wrap_u8_sub(old_val, 1);
                assert(abs_state(mem@, p as int, input@, *inpos as int, out@) =~= add_at(
                    pre,
                    0,
                    -1,
                ));
            }
            StepResult::Done
        },
        Statement::R => {
            let np = crate::tape::cell_index(p, 1, MEM_SIZE);
            *pointer = np;
            proof {
                assert(abs_state(mem@, *pointer as int, input@, *inpos as int, out@)
                    =~= move_ptr(pre, 1));
            }
            StepResult::Done
        },
        Statement::L => {
            let np = crate::tape::cell_index(p, -1, MEM_SIZE);
            *pointer = np;
            proof {
                assert(abs_state(mem@, *pointer as int, input@, *inpos as int, out@)
                    =~= move_ptr(pre, -1));
            }
            StepResult::Done
        },
        Statement::Out => {
            let b = mem[p];
            out.push(b);
            proof {
                assert(abs_state(mem@, p as int, input@, *inpos as int, out@) =~= ExecState {
                    output: pre.output.push(pre.tape[pre.ptr]),
                    ..pre
                });
            }
            StepResult::Done
        },
        Statement::DOut => {
            let b = mem[p];
            out.push(b);
            proof {
                assert(abs_state(mem@, p as int, input@, *inpos as int, out@) =~= ExecState {
                    output: pre.output.push(pre.tape[pre.ptr]),
                    ..pre
                });
            }
            StepResult::Done
        },
        Statement::In => {
            if *inpos >= input.len() {
                proof {
                    assert(pre.input =~= Seq::<u8>::empty());
                }
                StepResult::Starved
            } else {
                let b = input[*inpos];
                mem.set(p, b);
                *inpos = *inpos + 1;
                proof {
                    assert(pre.input[0] == input@[*inpos - 1]);
                    assert(input@.skip(*inpos as int) =~= pre.input.drop_first());
                    assert(abs_state(mem@, p as int, input@, *inpos as int, out@) =~= ExecState {
                        tape: pre.tape.update(pre.ptr, pre.input[0]),
                        input: pre.input.drop_first(),
                        ..pre
                    });
                }
                StepResult::Done
            }
        },
        Statement::Loop(body) => {
            let mut fl: u64 = fuel;
            loop
                invariant
                    statement matches Statement::Loop(bb) && bb == body,
                    stmt_spec(*statement).kind == SpecKind::Loop(stmt_seq_spec(body@)),
                    pre == abs_state(
                        old(mem)@,
                        *old(pointer) as int,
                        input@,
                        *old(inpos) as int,
                        old(out)@,
                    ),
                    mem@.len() == MEM_SIZE,
                    *pointer < MEM_SIZE,
                    *inpos <= input@.len(),
                    fl <= fuel,
                    ({
                        let cur = abs_state(mem@, *pointer as int, input@, *inpos as int, out@);
                        stmt_sem(stmt_spec(*statement), pre, fuel as nat) == stmt_sem(
                            stmt_spec(*statement),
                            cur,
                            fl as nat,
                        )
                    }),
                decreases fl,
            {
                let ghost cur = abs_state(mem@, *pointer as int, input@, *inpos as int, out@);
                if mem[*pointer] == 0 {
                    proof {
                        assert(stmt_sem(stmt_spec(*statement), cur, fl as nat) == Outcome::Halt(
                            cur,
                        ));
                    }
                    return StepResult::Done;
                }
                if fl == 0 {
                    proof {
                        assert(stmt_sem(stmt_spec(*statement), cur, fl as nat) == Outcome::Spin);
                    }
                    return StepResult::Spun;
                }
                fl = fl - 1;
                proof {
                    assert(decreases_to!(*statement => *body));
                }
                let st = run_stmts(body, mem, pointer, out, input, inpos, fl);
                proof {
                    let nxt = abs_state(mem@, *pointer as int, input@, *inpos as int, out@);
                    match st {
                        StepResult::Done => {
                            assert(seq_sem(stmt_seq_spec(body@), cur, fl as nat) == Outcome::Halt(
                                nxt,
                            ));
                            assert(stmt_sem(stmt_spec(*statement), cur, (fl + 1) as nat)
                                == stmt_sem(stmt_spec(*statement), nxt, fl as nat));
                        },
                        StepResult::Starved => {
                            assert(seq_sem(stmt_seq_spec(body@), cur, fl as nat)
                                == Outcome::Starve(nxt));
                        },
                        StepResult::Spun => {
                            assert(seq_sem(stmt_seq_spec(body@), cur, fl as nat)
                                == Outcome::Spin);
                        },
                    }
                }
                match st {
                    StepResult::Done => {},
                    other => {
                        return other;
                    },
                }
            }
        },
    }
}

/// Execute a statement sequence left to right.
pub fn run_stmts(
    stmts: &Vec<Statement>,
    mem: &mut Vec<u8>,
    pointer: &mut usize,
    out: &mut Vec<u8>,
    input: &[u8],
    inpos: &mut usize,
    fuel: u64,
) -> (r: StepResult)
    requires
        old(mem)@.len() == MEM_SIZE,
        *old(pointer) < MEM_SIZE,
        *old(inpos) <= input@.len(),
    ensures
        final(mem)@.len() == MEM_SIZE,
        *final(pointer) < MEM_SIZE,
        *final(inpos) <= input@.len(),
        ({
            let pre = abs_state(
                old(mem)@,
                *old(pointer) as int,
                input@,
                *old(inpos) as int,
                old(out)@,
            );
            let post = abs_state(
                final(mem)@,
                *final(pointer) as int,
                input@,
                *final(inpos) as int,
                final(out)@,
            );
            match r {
                StepResult::Done => seq_sem(stmt_seq_spec(stmts@), pre, fuel as nat)
                    == Outcome::Halt(post),
                StepResult::Starved => seq_sem(stmt_seq_spec(stmts@), pre, fuel as nat)
                    == Outcome::Starve(post),
                StepResult::Spun => seq_sem(stmt_seq_spec(stmts@), pre, fuel as nat)
                    == Outcome::Spin,
            }
        }),
    decreases stmts,
{
    let ghost pre = abs_state(mem@, *pointer as int, input@, *inpos as int, out@);
    let n = stmts.len();
    proof {
        crate::interpreter::lemma_stmt_seq_spec_len(stmts@);
        assert(stmt_seq_spec(stmts@).skip(0) =~= stmt_seq_spec(stmts@));
    }
    let mut i: usize = 0;
    while i < n
        invariant
            i <= n,
            n == stmts@.len(),
            pre == abs_state(
                old(mem)@,
                *old(pointer) as int,
                input@,
                *old(inpos) as int,
                old(out)@,
            ),
            mem@.len() == MEM_SIZE,
            *pointer < MEM_SIZE,
            *inpos <= input@.len(),
            ({
                let cur = abs_state(mem@, *pointer as int, input@, *inpos as int, out@);
                seq_sem(stmt_seq_spec(stmts@), pre, fuel as nat) == seq_sem(
                    stmt_seq_spec(stmts@).skip(i as int),
                    cur,
                    fuel as nat,
                )
            }),
        decreases n - i,
    {
        let ghost cur = abs_state(mem@, *pointer as int, input@, *inpos as int, out@);
        let ghost rest = stmt_seq_spec(stmts@).skip(i as int);
        proof {
            crate::interpreter::lemma_stmt_seq_spec_len(stmts@);
            crate::interpreter::lemma_stmt_seq_spec_index(stmts@, i as int);
            assert(rest[0] == stmt_seq_spec(stmts@)[i as int]);
            assert(rest[0] == stmt_spec(stmts@[i as int]));
            assert(rest.drop_first() =~= stmt_seq_spec(stmts@).skip(i + 1));
        }
        let st = execute(&stmts[i], mem, pointer, out, input, inpos, fuel);
        proof {
            let nxt = abs_state(mem@, *pointer as int, input@, *inpos as int, out@);
            match st {
                StepResult::Done => {
                    assert(stmt_sem(rest[0], cur, fuel as nat) == Outcome::Halt(nxt));
                    assert(seq_sem(rest, cur, fuel as nat) == seq_sem(
                        stmt_seq_spec(stmts@).skip(i + 1),
                        nxt,
                        fuel as nat,
                    ));
                },
                StepResult::Starved => {
                    assert(seq_sem(rest, cur, fuel as nat) == Outcome::Starve(nxt));
                },
                StepResult::Spun => {
                    assert(seq_sem(rest, cur, fuel as nat) == Outcome::Spin);
                },
            }
        }
        match st {
            StepResult::Done => {},
            other => {
                return other;
            },
        }
        i = i + 1;
    }
    proof {
        crate::interpreter::lemma_stmt_seq_spec_len(stmts@);
        assert(stmt_seq_spec(stmts@).skip(n as int) =~= Seq::<crate::semantics::SpecStmt>::empty());
    }
    StepResult::Done
}

/// Interpret a statement tree from a zeroed tape and collect its output
/// as a string, one character per output byte. A run that fails for want
/// of input, or hits the step bound, yields the output written so far.
pub fn interpret(pgm: &Vec<Statement>, input: &[u8], fuel: u64) -> (r: String)
    ensures
        match seq_sem(stmt_seq_spec(pgm@), init_state(MEM_SIZE as int, input@), fuel as nat) {
            Outcome::Halt(st) => r@ == bytes_as_chars(st.output),
            Outcome::Starve(st) => r@ == bytes_as_chars(st.output),
            Outcome::Spin => true,
        },
{
    let mut mem: Vec<u8> = vec![0u8; MEM_SIZE];
    let mut out: Vec<u8> = Vec::new();
    let mut pointer: usize = 0;
    let mut inpos: usize = 0;
    proof {
        assert(input@.skip(0) =~= input@);
        assert(mem@ =~= init_state(MEM_SIZE as int, input@).tape);
        assert(abs_state(mem@, 0, input@, 0, out@) =~= init_state(MEM_SIZE as int, input@));
    }
    let _ = run_stmts(pgm, &mut mem, &mut pointer, &mut out, input, &mut inpos, fuel);
    bytes_to_string(&out)
}

/// Minify, parse and interpret a program against the given input: the
/// result is what the tree whose text is the source's significant
/// characters prints, as the shared semantics give it. The source must
/// be bracket-balanced: this engine predates error handling.
pub fn run(pgm: &str, input: &[u8], fuel: u64) -> (r: String)
    requires
        chars_balanced(sig_chars(pgm@)),
    ensures
        exists|t: Seq<Statement>|
            {
                &&& #[trigger] crate::interpreter::stmts_text(t) == sig_chars(pgm@)
                &&& crate::interpreter::prints_as(t, false)
                &&& match seq_sem(
                    stmt_seq_spec(t),
                    init_state(MEM_SIZE as int, input@),
                    fuel as nat,
                ) {
                    Outcome::Halt(st) => r@ == bytes_as_chars(st.output),
                    Outcome::Starve(st) => r@ == bytes_as_chars(st.output),
                    Outcome::Spin => true,
                }
            },
{
    let minified = minify(pgm);
    proof {
        crate::interpreter::lemma_sig_idempotent(pgm@);
    }
    let parsed = parse(minified, false);
    let r = interpret(&parsed, input, fuel);
    proof {
        let ghost t = parsed@;
        assert(crate::interpreter::stmts_text(t) == sig_chars(pgm@));
    }
    r
}

} // verus!
