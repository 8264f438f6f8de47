use brainfuck::hir::{optimized_hir, StmtKind};
use brainfuck::lir::interpreter::RunStatus;
use brainfuck::lir::Stmt as LirStmt;
use brainfuck::parse::{parse, Instr, ParseError};
use brainfuck::span::Span;
use brainfuck::{run, Args, DumpKind, RunError};

const FUEL: u64 = 50_000_000;

fn run_pipeline(src: &str, input: &[u8]) -> Result<brainfuck::RunOutput, RunError> {
    run(src.as_bytes(), input, FUEL, &Args::default())
}

#[test]
fn single_output_byte_is_one_hundred() {
    let out = run_pipeline("++++++++++[>++++++++++<-]>.", &[]).unwrap();
    assert_eq!(out.status, RunStatus::Halted);
    assert_eq!(out.output, vec![100u8]);
}

#[test]
fn pipeline_hello_world() {
    let src = "++++++++[>++++[>++>+++>+++>+<<<<-]>+>+>->>+[<]<-]>>.>---.+++++++..+++.>>.<-.<.+++.------.--------.>>+.>++.";
    let out = run_pipeline(src, &[]).unwrap();
    assert_eq!(out.status, RunStatus::Halted);
    assert_eq!(String::from_utf8(out.output).unwrap(), "Hello World!\n");
}

#[test]
fn clear_loop_optimizes_to_one_set_zero() {
    let ast = parse("+[-]".as_bytes()).unwrap();
    let hir = optimized_hir(&ast);
    assert_eq!(hir.stmts.len(), 2);
    assert!(matches!(hir.stmts[0].kind, StmtKind::Add(0, 1)));
    assert!(matches!(hir.stmts[1].kind, StmtKind::SetN(0)));
}

#[test]
fn clear_loop_clears_any_cell_value() {
    let out = run_pipeline("+++++[-].", &[]).unwrap();
    assert_eq!(out.status, RunStatus::Halted);
    assert_eq!(out.output, vec![0u8]);
}

#[test]
fn empty_loop_with_zero_cell_terminates() {
    let out = run_pipeline("[]", &[]).unwrap();
    assert_eq!(out.status, RunStatus::Halted);
    assert_eq!(out.output, Vec::<u8>::new());
}

#[test]
fn nonzero_empty_loop_spins_to_the_step_bound() {
    let out = run("+[]".as_bytes(), &[], 10_000, &Args::default()).unwrap();
    assert_eq!(out.status, RunStatus::OutOfSteps);
}

#[test]
fn input_with_no_bytes_is_the_defined_failure() {
    let out = run_pipeline(",", &[]).unwrap();
    assert_eq!(out.status, RunStatus::OutOfInput);
}

#[test]
fn input_bytes_echo_back() {
    let out = run_pipeline(",.,.", b"hi").unwrap();
    assert_eq!(out.status, RunStatus::Halted);
    assert_eq!(out.output, b"hi".to_vec());
}

#[test]
fn unbalanced_close_is_a_parse_error() {
    let r = run_pipeline("+]", &[]);
    assert!(matches!(r, Err(RunError::Parse(ParseError))));
}

#[test]
fn unclosed_loop_is_a_parse_error() {
    assert!(parse("[".as_bytes()).is_err());
}

#[test]
fn nesting_up_to_the_bound_parses() {
    let mut src = String::new();
    for _ in 0..1001 {
        src.push('[');
    }
    for _ in 0..1001 {
        src.push(']');
    }
    assert!(parse(src.as_bytes()).is_ok());
    let deeper = format!("[{}]", src);
    assert!(parse(deeper.as_bytes()).is_err());
}

#[test]
fn simple() {
    let bf = ">+<++[-].";
    let instrs = parse(bf.as_bytes()).unwrap();
    assert_eq!(instrs.len(), 7);
    assert_eq!(instrs[0].0, Instr::Right);
    assert_eq!(instrs[0].1, Span { start: 0, len: 1 });
    assert_eq!(instrs[1].0, Instr::Add);
    assert_eq!(instrs[2].0, Instr::Left);
    assert_eq!(instrs[3].0, Instr::Add);
    assert_eq!(instrs[4].0, Instr::Add);
    match &instrs[5].0 {
        Instr::Loop(body) => {
            assert_eq!(body.len(), 1);
            assert_eq!(body[0].0, Instr::Sub);
            assert_eq!(body[0].1, Span { start: 6, len: 1 });
        }
        other => panic!("expected a loop, found {:?}", other),
    }
    assert_eq!(instrs[5].1, Span { start: 5, len: 3 });
    assert_eq!(instrs[6].0, Instr::Out);
}

#[test]
fn nested_loop() {
    let bf = "+[-[-[-]]+>>>]";
    let instrs = parse(bf.as_bytes()).unwrap();
    assert_eq!(instrs.len(), 2);
    assert_eq!(instrs[0].0, Instr::Add);
    match &instrs[1].0 {
        Instr::Loop(outer) => {
            assert_eq!(outer.len(), 6);
            assert_eq!(outer[0].0, Instr::Sub);
            assert!(matches!(outer[1].0, Instr::Loop(_)));
            assert_eq!(outer[2].0, Instr::Add);
            assert_eq!(outer[3].0, Instr::Right);
            assert_eq!(outer[4].0, Instr::Right);
            assert_eq!(outer[5].0, Instr::Right);
        }
        other => panic!("expected a loop, found {:?}", other),
    }
    assert_eq!(instrs[1].1, Span { start: 1, len: 13 });
}

#[test]
fn grouping_folds_runs_with_merged_spans() {
    let ast = parse("++++++".as_bytes()).unwrap();
    let hir = optimized_hir(&ast);
    assert_eq!(hir.stmts.len(), 1);
    assert!(matches!(hir.stmts[0].kind, StmtKind::Add(0, 6)));
    assert_eq!(hir.stmts[0].span, Span { start: 0, len: 6 });
}

#[test]
fn motion_cancellation_nets_out() {
    let ast = parse(">>><<+".as_bytes()).unwrap();
    let hir = optimized_hir(&ast);
    assert_eq!(hir.stmts.len(), 2);
    assert!(matches!(hir.stmts[0].kind, StmtKind::Right(1)));
    assert!(matches!(hir.stmts[1].kind, StmtKind::Add(0, 1)));
}

#[test]
fn offset_addressing_fuses() {
    let ast = parse(">>+++<<".as_bytes()).unwrap();
    let hir = optimized_hir(&ast);
    assert_eq!(hir.stmts.len(), 1);
    assert!(matches!(hir.stmts[0].kind, StmtKind::Add(2, 3)));
}

#[test]
fn move_accumulate_fuses() {
    let ast = parse("[->>+<<]".as_bytes()).unwrap();
    let hir = optimized_hir(&ast);
    assert_eq!(hir.stmts.len(), 1);
    assert!(matches!(hir.stmts[0].kind, StmtKind::MoveAddTo { offset: 2 }));
}

#[test]
fn set_folding_collapses_into_one_write() {
    let ast = parse("[-]+++.".as_bytes()).unwrap();
    let hir = optimized_hir(&ast);
    assert_eq!(hir.stmts.len(), 2);
    assert!(matches!(hir.stmts[0].kind, StmtKind::SetN(3)));
    assert!(matches!(hir.stmts[1].kind, StmtKind::Out));
}

#[test]
fn generated_code_ends_with_end_and_jumps_stay_inside() {
    let src = "++[>++[-]<-].";
    let out = run_pipeline(src, &[]).unwrap();
    let code = out.lir.stmts();
    assert!(!code.is_empty());
    assert_eq!(*code.last().unwrap(), LirStmt::End);
    for stmt in code {
        match stmt {
            LirStmt::JmpIfZero(t) | LirStmt::JmpIfNonZero(t) => {
                assert!((*t as usize) < code.len());
            }
            _ => {}
        }
    }
}

#[test]
fn profile_counts_every_source_byte_once_per_execution() {
    let config = Args {
        profile: true,
        ..Args::default()
    };
    let out = run("+++.".as_bytes(), &[], FUEL, &config).unwrap();
    let profile = out.profile.unwrap();
    // three increments grouped into one opcode that runs once, then one output
    assert_eq!(profile, vec![1, 1, 1, 1]);
}

#[test]
fn profile_counts_loop_bodies_per_iteration() {
    let config = Args {
        profile: true,
        ..Args::default()
    };
    let out = run("++[-]".as_bytes(), &[], FUEL, &config).unwrap();
    let profile = out.profile.unwrap();
    assert_eq!(profile.len(), 5);
    // the two increments run once; the clear loop is a single write
    assert_eq!(&profile[0..2], &[1, 1]);
}

#[test]
fn dump_kind_names_parse_back() {
    assert_eq!("ast".parse::<DumpKind>(), Ok(DumpKind::Ast));
    assert_eq!("hir".parse::<DumpKind>(), Ok(DumpKind::Hir));
    assert_eq!("mir".parse::<DumpKind>(), Ok(DumpKind::Mir));
    assert_eq!("lir".parse::<DumpKind>(), Ok(DumpKind::Lir));
    assert!("weird".parse::<DumpKind>().is_err());
}

#[test]
fn span_until_covers_both() {
    let a = Span { start: 2, len: 3 };
    let b = Span { start: 7, len: 4 };
    let merged = a.until(b);
    assert_eq!(merged.start(), 2);
    assert_eq!(merged.len(), 9);
    assert_eq!(merged.end(), 11);
}

#[test]
fn span_constructors_cover_their_range() {
    let s = Span { start: 4, len: 1 };
    assert_eq!(s.start(), 4);
    assert_eq!(s.len(), 1);
    assert_eq!(s.end(), 5);
}

#[test]
fn mir_analysis_runs_with_the_flag() {
    let config = Args {
        mir: true,
        ..Args::default()
    };
    let out = run("+[-],.".as_bytes(), b"a", FUEL, &config).unwrap();
    assert_eq!(out.status, RunStatus::Halted);
    assert_eq!(out.output, b"a".to_vec());
}
