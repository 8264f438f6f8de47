//! Pattern detection over optimized statements: find loop shapes that a
//! dedicated statement could replace. Experimental: nothing wires the
//! detected form into the optimizer yet.

use vstd::prelude::*;

use crate::interpreter::optimized::ExStatement;

verus! {

/// What the move-and-count loop shape `[>x<-]` detects to: the statement
/// sequence `R, x, L, Dec` as a loop becomes the inert counted form.
pub open spec fn for_loop_spec(s: ExStatement) -> ExStatement {
    match s {
        ExStatement::Loop(v) => if v@.len() == 4 && v@[0] is R && v@[1] is Inc && v@[2] is L
            && v@[3] is Dec {
            ExStatement::_ForLoop(1, Box::new(ExStatement::Inc))
        } else {
            ExStatement::Loop(v)
        },
        other => other,
    }
}

/// Replace the loop shape `[>+<-]` with the counted form; leave anything
/// else unchanged.
pub fn _for_loop(to_test: ExStatement) -> (r: ExStatement)
    ensures
        r == for_loop_spec(to_test),
{
    match to_test {
        ExStatement::Loop(v) => {
            let mut matches_shape = false;
            if v.len() == 4 {
                match (&v[0], &v[1], &v[2], &v[3]) {
                    (ExStatement::R, ExStatement::Inc, ExStatement::L, ExStatement::Dec) => {
                        matches_shape = true;
                    },
                    _ => {},
                }
            }
            if matches_shape {
                ExStatement::_ForLoop(1, Box::new(ExStatement::Inc))
            } else {
                ExStatement::Loop(v)
            }
        },
        other => other,
    }
}

} // verus!
