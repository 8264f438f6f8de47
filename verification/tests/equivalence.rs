use brainfuck::hir::optimized_hir;
use brainfuck::interpreter::{o0, optimized, parsed};
use brainfuck::lir::interpreter::RunStatus;
use brainfuck::naive_interpreter;
use brainfuck::parse::parse;
use brainfuck::{run, Args};

const FUEL: u64 = 50_000_000;

const HELLO: &str = "++++++++[>++++[>++>+++>+++>+<<<<-]>+>+>->>+[<]<-]>>.>---.+++++++..+++.>>.<-.<.+++.------.--------.>>+.>++.";

/// The master check on concrete programs: the unoptimized statement-by-
/// statement reading and the fully optimized flat code print the same
/// bytes and halt the same way.
fn naive_and_optimized_agree(src: &str, input: &[u8]) {
    let ast = parse(src.as_bytes()).unwrap();
    let naive = naive_interpreter::run(&ast, input, FUEL);
    let piped = run(src.as_bytes(), input, FUEL, &Args::default()).unwrap();
    assert_eq!(naive.status, piped.status);
    assert_eq!(naive.output, piped.output);
}

#[test]
fn round_trip_hello_world() {
    naive_and_optimized_agree(HELLO, &[]);
}

#[test]
fn round_trip_with_input() {
    naive_and_optimized_agree(",>,<[->+<]>.", b"\x15\x20");
}

#[test]
fn round_trip_wrapping_arithmetic() {
    // 130 + 130 wraps past 255
    let mut src = String::new();
    for _ in 0..260 {
        src.push('+');
    }
    src.push('.');
    naive_and_optimized_agree(&src, &[]);
}

#[test]
fn round_trip_input_exhaustion() {
    naive_and_optimized_agree(",.,.", b"x");
}

#[test]
fn round_trip_final_tape_state() {
    let src = "++>+++[-<+>]";
    let ast = parse(src.as_bytes()).unwrap();
    let naive = naive_interpreter::run(&ast, &[], FUEL);
    let hir = optimized_hir(&ast);
    let tree = brainfuck::hir::interpreter::run(&hir, &[], FUEL);
    assert_eq!(naive.status, RunStatus::Halted);
    assert_eq!(tree.status, RunStatus::Halted);
    assert_eq!(naive.tape, tree.tape);
    assert_eq!(naive.ptr, tree.ptr);
}

#[test]
fn tree_engines_agree_on_hello_world() {
    let direct = o0::run(HELLO, &[], FUEL);
    let tree = parsed::run(HELLO, &[], FUEL);
    let rewritten = optimized::run(HELLO, false, &[], FUEL).unwrap();
    assert_eq!(direct, "Hello World!\n");
    assert_eq!(tree, "Hello World!\n");
    assert_eq!(rewritten, "Hello World!\n");
}
