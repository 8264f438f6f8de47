use brainfuck::interpreter::optimized::ExStatement::{Inc, Repeat, L, R};
use brainfuck::interpreter::optimized::{o_repeat, ExStatement};
use brainfuck::interpreter::parsed;
use brainfuck::interpreter::patterns::_for_loop;
use brainfuck::interpreter::Statement::{Dec, In, Inc as SInc, Loop, Out, L as SL, R as SR};
use brainfuck::interpreter::{minify, parse, Statement};

const FUEL: u64 = 1_000_000;

#[test]
fn minify_test() {
    let program = "sdahf+saga-46<sgbv>a[r]r.hr,e";
    let expected = "+-<>[].,";
    assert_eq!(String::from(expected), minify(program));
}

#[test]
fn parse_no_loop() {
    let program = "+-<>,.";
    let statements = vec![SInc, Dec, SL, SR, In, Out];
    let result = parse(program.chars().collect(), false);

    assert_eq!(statements, result);
}

#[test]
fn parse_simple_loop() {
    let program = "+[<<]-";
    let statements = vec![SInc, Loop(vec![SL, SL]), Dec];
    let result = parse(program.chars().collect(), false);

    assert_eq!(statements, result);
}

#[test]
fn parse_complex_loops() {
    let program = ">[<[][<[<]>]>[>]]";
    let statements = vec![
        SR,
        Loop(vec![
            SL,
            Loop(vec![]),
            Loop(vec![SL, Loop(vec![SL]), SR]),
            SR,
            Loop(vec![SR]),
        ]),
    ];
    let result = parse(program.chars().collect(), false);

    assert_eq!(statements, result);
}

#[test]
fn mod_run_loop() {
    let program = "++++++++++[>++++++++++<-]>.";
    let out = brainfuck::interpreter::optimized::run(program, false, &[], FUEL).unwrap();
    assert_eq!(out, String::from("d"));
}

#[test]
fn mod_hello_world() {
    let program = "++++++++[>++++[>++>+++>+++>+<<<<-]>+>+>->>+[<]<-]>>.>---.+++++++..+++.>>.<-.<.+++.------.--------.>>+.>++.";
    let out = brainfuck::interpreter::optimized::run(program, false, &[], FUEL).unwrap();
    assert_eq!(out, String::from("Hello World!\n"));
}

#[test]
fn o_repeat_simple() {
    let code = vec![Inc, Inc, Inc, R];
    let expected = vec![Repeat(Box::new(Inc), 3), R];
    println!("{}", code.len());
    assert_eq!(expected, o_repeat(code));
}

#[test]
fn o_repeat_long() {
    let code = vec![
        Inc,
        Inc,
        Inc,
        R,
        L,
        L,
        L,
        ExStatement::Dec,
        L,
        L,
        ExStatement::Dec,
    ];
    let expected = vec![
        Repeat(Box::new(Inc), 3),
        R,
        Repeat(Box::new(L), 3),
        ExStatement::Dec,
        Repeat(Box::new(L), 2),
        ExStatement::Dec,
    ];
    assert_eq!(expected, o_repeat(code));
}

#[test]
fn for_loop_false() {
    let statement = ExStatement::Loop(vec![ExStatement::Out, Inc]);
    let same = ExStatement::Loop(vec![ExStatement::Out, Inc]);
    assert_eq!(same, _for_loop(statement));
}

#[test]
fn for_loop_simplest() {
    let statement = ExStatement::Loop(vec![R, Inc, L, ExStatement::Dec]);
    assert_eq!(
        ExStatement::_ForLoop(1, Box::from(Inc)),
        _for_loop(statement)
    );
}

#[test]
fn parsed_run_loop() {
    let program = "++++++++++[>++++++++++<-]>.";
    let out = parsed::run(program, &[], FUEL);
    assert_eq!(out, String::from("d"));
}

#[test]
fn parsed_hello_world() {
    let program = "++++++++[>++++[>++>+++>+++>+<<<<-]>+>+>->>+[<]<-]>>.>---.+++++++..+++.>>.<-.<.+++.------.--------.>>+.>++.";
    let out = parsed::run(program, &[], FUEL);
    assert_eq!(out, String::from("Hello World!\n"));
}

#[test]
fn execute_simple() {
    let mut pointer: usize = 0;
    let mut mem: Vec<u8> = vec![0; 65535];
    let mut out: Vec<u8> = Vec::new();
    let mut inpos: usize = 0;

    parsed::execute(&Statement::R, &mut mem, &mut pointer, &mut out, &[], &mut inpos, FUEL);
    assert_eq!(pointer, 1);
    parsed::execute(&Statement::L, &mut mem, &mut pointer, &mut out, &[], &mut inpos, FUEL);
    assert_eq!(pointer, 0);
    parsed::execute(&Statement::Inc, &mut mem, &mut pointer, &mut out, &[], &mut inpos, FUEL);
    assert_eq!(mem[pointer], 1);
    parsed::execute(&Statement::Dec, &mut mem, &mut pointer, &mut out, &[], &mut inpos, FUEL);
    assert_eq!(mem[pointer], 0);
}

#[test]
fn execute_false_loop() {
    let statement = Statement::Loop(vec![Statement::Inc, Statement::Inc, Statement::R]);
    let mut pointer: usize = 0;
    let mut mem: Vec<u8> = vec![0; 65535];
    let mut out: Vec<u8> = Vec::new();
    let mut inpos: usize = 0;

    parsed::execute(&statement, &mut mem, &mut pointer, &mut out, &[], &mut inpos, FUEL);
    assert_eq!(mem[0], 0);
    assert_eq!(mem[1], 0);
}

#[test]
fn execute_loop() {
    let statement = Statement::Loop(vec![Statement::Inc, Statement::Inc, Statement::R]);
    let mut pointer: usize = 0;
    let mut mem: Vec<u8> = vec![0; 65535];
    let mut out: Vec<u8> = Vec::new();
    let mut inpos: usize = 0;
    mem[0] = 1;

    parsed::execute(&statement, &mut mem, &mut pointer, &mut out, &[], &mut inpos, FUEL);
    assert_eq!(mem[0], 3);
    assert_eq!(mem[1], 0);
}

#[test]
fn o0_runs_a_loop() {
    let program = "++++++++++[>++++++++++<-]>.";
    let out = brainfuck::interpreter::o0::run(program, &[], FUEL);
    assert_eq!(out, String::from("d"));
}

#[test]
fn optimized_empty_program_is_refused() {
    let r = brainfuck::interpreter::optimized::run("this has no code at all", false, &[], FUEL);
    assert!(r.is_err());
    assert_eq!(r.unwrap_err().message(), "no program found");
}

#[test]
fn direct_print_parse_picks_dout() {
    let result = parse(String::from(".."), true);
    assert_eq!(result, vec![Statement::DOut, Statement::DOut]);
}

#[test]
fn repl_state_persists_between_programs() {
    let mut state = brainfuck::repl::BrainfuckState::new();
    let out1 = brainfuck::repl::parse_input(String::from("+++"), &mut state, &[], FUEL);
    assert_eq!(out1, String::new());
    assert_eq!(state.memory[0], 3);
    let out2 = brainfuck::repl::parse_input(String::from("."), &mut state, &[], FUEL);
    assert_eq!(out2.as_bytes(), &[3u8]);
    brainfuck::repl::reset(&mut state);
    assert_eq!(state.memory[0], 0);
    assert_eq!(state.pointer, 0);
}
