//! The plainest engine: run a program character by character, with no
//! optimization at all. Here that is the direct interpretation of the
//! parsed statement tree, one primitive per significant character.

use vstd::prelude::*;

use crate::interpreter::parsed;
use crate::interpreter::{
    bytes_as_chars, chars_balanced, minify, parse, sig_chars, stmt_seq_spec, Statement, MEM_SIZE,
};
use crate::semantics::{init_state, seq_sem, Outcome};

verus! {

/// Minify a program and interpret it directly against the given input,
/// collecting the output as a string: the result is what the tree whose
/// text is the source's significant characters prints, as the shared
/// semantics give it. The source must be bracket-balanced. A run that
/// fails for want of input, or hits the step bound, yields the output
/// written so far.
pub fn run(program: &str, input: &[u8], fuel: u64) -> (r: String)
    requires
        chars_balanced(sig_chars(program@)),
    ensures
        exists|t: Seq<Statement>|
            {
                &&& #[trigger] crate::interpreter::stmts_text(t) == sig_chars(program@)
                &&& crate::interpreter::prints_as(t, false)
                &&& match seq_sem(
                    stmt_seq_spec(t),
                    init_state(MEM_SIZE as int, input@),
                    fuel as nat,
                ) {
                    Outcome::Halt(st) => r@ == bytes_as_chars(st.output),
                    Outcome::Starve(st) => r@ == bytes_as_chars(st.output),
                    Outcome::Spin => true,
                }
            },
{
    let minified = minify(program);
    proof {
        crate::interpreter::lemma_sig_idempotent(program@);
    }
    let parsed_stmts = parse(minified, false);
    let r = parsed::interpret(&parsed_stmts, input, fuel);
    proof {
        let ghost t = parsed_stmts@;
        assert(crate::interpreter::stmts_text(t) == sig_chars(program@));
    }
    r
}

} // verus!
