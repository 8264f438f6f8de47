//! The persistent machine state behind an interactive session: a tape and
//! pointer that survive from one entered program to the next. Reading
//! lines and rendering the tape live with the caller; here is the state
//! itself and the step that runs one program against it.

use vstd::prelude::*;

use crate::interpreter::parsed::run_stmts;
use crate::interpreter::{bytes_to_string, chars_balanced, minify, parse, sig_chars, MEM_SIZE};

verus! {

/// The session's tape and pointer.
#[derive(Debug, PartialEq, Eq)]
pub struct BrainfuckState {
    pub memory: Vec<u8>,
    pub pointer: usize,
}

/// A usable session state: a full-length tape with the pointer on it.
pub open spec fn state_wf(s: BrainfuckState) -> bool {
    &&& s.memory@.len() == MEM_SIZE
    &&& s.pointer < MEM_SIZE
}

impl BrainfuckState {
    /// A fresh session: a zeroed tape, the pointer at the first cell.
    pub fn new() -> (r: BrainfuckState)
        ensures
            state_wf(r),
            r.pointer == 0,
            forall|i: int| 0 <= i < MEM_SIZE ==> r.memory@[i] == 0,
    {
        BrainfuckState { memory: vec![0u8; MEM_SIZE], pointer: 0 }
    }
}

/// Clear the session: zero the tape and home the pointer.
pub fn reset(state: &mut BrainfuckState)
    ensures
        state_wf(*final(state)),
        final(state).pointer == 0,
        forall|i: int| 0 <= i < MEM_SIZE ==> final(state).memory@[i] == 0,
{
    state.pointer = 0;
    state.memory = vec![0u8; MEM_SIZE];
}

/// Run one entered program against the session state, keeping whatever
/// the program leaves on the tape, and hand back what it printed. The
/// program must be bracket-balanced.
pub fn parse_input(pgm: String, state: &mut BrainfuckState, input: &[u8], fuel: u64) -> (r: String)
    requires
        chars_balanced(sig_chars(pgm@)),
        state_wf(*old(state)),
    ensures
        state_wf(*final(state)),
{
    let minified = minify(pgm.as_str());
    proof {
        crate::interpreter::lemma_sig_idempotent(pgm@);
    }
    let parsed_stmts = parse(minified, true);
    let mut mem = Vec::new();
    core::mem::swap(&mut mem, &mut state.memory);
    let mut pointer = state.pointer;
    let mut out: Vec<u8> = Vec::new();
    let mut inpos: usize = 0;
    let _ = run_stmts(&parsed_stmts, &mut mem, &mut pointer, &mut out, input, &mut inpos, fuel);
    core::mem::swap(&mut mem, &mut state.memory);
    state.pointer = pointer;
    bytes_to_string(&out)
}

} // verus!
