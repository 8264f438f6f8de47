//! The earlier, tree-walking execution engines: a minifier, a stack-based
//! parser without spans, and interpreters over the parsed statement tree.
//! The flat bytecode pipeline supersedes these; they are kept as the
//! simple reference engines, stated against the same execution semantics.

use vstd::prelude::*;
use vstd::std_specs::iter::IteratorSpec;

use crate::semantics::{SpecKind, SpecStmt};
use crate::span::Span;

pub mod o0;
pub mod optimized;
pub mod parsed;
pub mod patterns;

verus! {

broadcast use vstd::string::axiom_spec_iter, vstd::string::next_postcondition;

/// The tape length of the tree-walking interpreters.
pub const MEM_SIZE: usize = 0xFFFF;

/// One parsed statement: the eight primitives (output split into a
/// collected and a direct-print variant) and structural loops.
#[derive(Debug, PartialEq, Eq)]
pub enum Statement {
    Inc,
    Dec,
    R,
    L,
    Out,
    DOut,
    In,
    Loop(Vec<Statement>),
}

/// Whether a character is one of the eight significant ones.
pub open spec fn is_sig_char(c: char) -> bool {
    c == '+' || c == '-' || c == '<' || c == '>' || c == '.' || c == ',' || c == '[' || c == ']'
}

/// The significant characters of a text, in order.
pub open spec fn sig_chars(s: Seq<char>) -> Seq<char>
    decreases s,
{
    if s.len() == 0 {
        Seq::empty()
    } else {
        sig_chars(s.drop_last()) + if is_sig_char(s.last()) {
            seq![s.last()]
        } else {
            Seq::empty()
        }
    }
}

/// Relies on `String::push`: appends exactly the one character.
#[verifier::external_body]
pub(crate) fn push_char(s: &mut String, c: char)
    ensures
        final(s)@ == old(s)@.push(c),
{
    s.push(c);
}

/// A text as the string of the bytes it holds, one character per byte.
pub open spec fn bytes_as_chars(v: Seq<u8>) -> Seq<char> {
    Seq::new(v.len(), |i: int| v[i] as char)
}

/// Turn collected output bytes into a string, one character per byte.
pub(crate) fn bytes_to_string(v: &Vec<u8>) -> (r: String)
    ensures
        r@ == bytes_as_chars(v@),
{
    let mut r = String::new();
    let n = v.len();
    let mut i: usize = 0;
    while i < n
        invariant
            i <= n,
            n == v@.len(),
            r@ =~= bytes_as_chars(v@.take(i as int)),
        decreases n - i,
    {
        let b = v[i];
        push_char(&mut r, b as char);
        proof {
            assert(r@ =~= bytes_as_chars(v@.take(i + 1)));
        }
        i = i + 1;
    }
    proof {
        assert(v@.take(n as int) =~= v@);
    }
    r
}

/// Strip a program down to its significant characters.
pub fn minify(code: &str) -> (r: String)
    ensures
        r@ == sig_chars(code@),
{
    let mut out = String::new();
    let mut it = code.chars();
    let ghost full = code@;
    let ghost k: int = 0;
    proof {
        assert(full.skip(0) =~= full);
        assert(full.take(0) =~= Seq::<char>::empty());
    }
    loop
        invariant
            full == code@,
            0 <= k <= full.len(),
            it.remaining() == full.skip(k),
            out@ == sig_chars(full.take(k)),
        decreases full.len() - k,
    {
        let ghost old_it = it;
        let c_opt = it.next();
        proof {
            vstd::string::next_postcondition(&old_it, &it, c_opt);
        }
        match c_opt {
            None => {
                proof {
                    assert(full.skip(k).len() == 0);
                    assert(full.take(k) =~= full);
                }
                return out;
            },
            Some(c) => {
                proof {
                    assert(full.skip(k)[0] == full[k]);
                    assert(full.skip(k).drop_first() =~= full.skip(k + 1));
                }
                if c == '+' || c == '-' || c == '<' || c == '>' || c == '.' || c == ','
                    || c == '[' || c == ']' {
                    push_char(&mut out, c);
                }
                proof {
                    assert(full.take(k + 1).drop_last() =~= full.take(k));
                    assert(full.take(k + 1).last() == full[k]);
                    assert(out@ =~= sig_chars(full.take(k + 1)));
                }
                proof {
                    k = k + 1;
                }
            },
        }
    }
}

/// The mathematical statement a parsed statement stands for, on the
/// shared execution semantics; spans are empty, as no positions survive
/// this parser.
pub open spec fn stmt_spec(s: Statement) -> SpecStmt
    decreases s,
{
    let kind = match s {
        Statement::Inc => SpecKind::Add(0, 1),
        Statement::Dec => SpecKind::Sub(0, 1),
        Statement::R => SpecKind::Right(1),
        Statement::L => SpecKind::Left(1),
        Statement::Out => SpecKind::Out,
        Statement::DOut => SpecKind::Out,
        Statement::In => SpecKind::In,
        Statement::Loop(v) => SpecKind::Loop(stmt_seq_spec(v@)),
    };
    SpecStmt { kind, span: Span { start: 0, len: 0 } }
}

pub open spec fn stmt_seq_spec(v: Seq<Statement>) -> Seq<SpecStmt>
    decreases v,
{
    if v.len() == 0 {
        Seq::empty()
    } else {
        stmt_seq_spec(v.drop_last()).push(stmt_spec(v.last()))
    }
}

pub broadcast proof fn lemma_stmt_seq_spec_len(v: Seq<Statement>)
    ensures
        (#[trigger] stmt_seq_spec(v)).len() == v.len(),
    decreases v,
{
    if v.len() > 0 {
        lemma_stmt_seq_spec_len(v.drop_last());
    }
}

pub proof fn lemma_stmt_seq_spec_index(v: Seq<Statement>, i: int)
    requires
        0 <= i < v.len(),
    ensures
        stmt_seq_spec(v)[i] == stmt_spec(v[i]),
    decreases v,
{
    lemma_stmt_seq_spec_len(v);
    if v.len() > 0 && i < v.len() - 1 {
        lemma_stmt_seq_spec_index(v.drop_last(), i);
    }
}

/// What the statements print back as: the significant text they parsed
/// from, bracket pairs around loop bodies.
pub open spec fn stmt_text(s: Statement) -> Seq<char>
    decreases s,
{
    match s {
        Statement::Inc => seq!['+'],
        Statement::Dec => seq!['-'],
        Statement::R => seq!['>'],
        Statement::L => seq!['<'],
        Statement::Out => seq!['.'],
        Statement::DOut => seq!['.'],
        Statement::In => seq![','],
        Statement::Loop(v) => seq!['['] + stmts_text(v@) + seq![']'],
    }
}

pub open spec fn stmts_text(v: Seq<Statement>) -> Seq<char>
    decreases v,
{
    if v.len() == 0 {
        Seq::empty()
    } else {
        stmts_text(v.drop_last()) + stmt_text(v.last())
    }
}

/// Whether output statements all use the direct-print variant (`dp`) or
/// all the collected one, recursively.
pub open spec fn prints_as(v: Seq<Statement>, dp: bool) -> bool
    decreases v,
{
    if v.len() == 0 {
        true
    } else {
        &&& prints_as(v.drop_last(), dp)
        &&& (v.last() is Out ==> !dp)
        &&& (v.last() is DOut ==> dp)
        &&& match v.last() {
            Statement::Loop(b) => prints_as(b@, dp),
            _ => true,
        }
    }
}

/// The bracket nesting level just before position `i`.
pub open spec fn cnest(s: Seq<char>, i: int) -> int
    decreases i,
{
    if i <= 0 {
        0
    } else {
        cnest(s, i - 1) + if s[i - 1] == '[' {
            1int
        } else if s[i - 1] == ']' {
            -1int
        } else {
            0int
        }
    }
}

/// Brackets are balanced: every `]` closes an open loop and none stays
/// open at the end.
pub open spec fn chars_balanced(s: Seq<char>) -> bool {
    &&& forall|i: int| 0 <= i < s.len() && s[i] == ']' ==> cnest(s, i) >= 1
    &&& cnest(s, s.len() as int) == 0
}

/// The text the open loops on the parser's stack have consumed.
spec fn stack_text(st: Seq<Vec<Statement>>) -> Seq<char>
    decreases st,
{
    if st.len() == 0 {
        Seq::empty()
    } else {
        stack_text(st.drop_last()) + stmts_text(st.last()@) + seq!['[']
    }
}

spec fn stack_prints_as(st: Seq<Vec<Statement>>, dp: bool) -> bool {
    forall|k: int| 0 <= k < st.len() ==> prints_as(#[trigger] st[k]@, dp)
}

proof fn lemma_stmts_text_push(v: Seq<Statement>, x: Statement)
    ensures
        stmts_text(v.push(x)) == stmts_text(v) + stmt_text(x),
{
    assert(v.push(x).drop_last() =~= v);
}

proof fn lemma_prints_as_push(v: Seq<Statement>, x: Statement, dp: bool)
    requires
        prints_as(v, dp),
        (x is Out ==> !dp),
        (x is DOut ==> dp),
        match x {
            Statement::Loop(b) => prints_as(b@, dp),
            _ => true,
        },
    ensures
        prints_as(v.push(x), dp),
{
    assert(v.push(x).drop_last() =~= v);
}

/// Parse significant (and any comment) characters into a statement tree,
/// with `.` read as direct printing when `direct_print` holds. The tree
/// prints back as exactly the significant text, so it is the one tree the
/// text stands for. Bracket balance is required: this parser predates the
/// error reporting of the span-annotated one.
#[verifier::rlimit(100)]
pub fn parse(chars: String, direct_print: bool) -> (r: Vec<Statement>)
    requires
        chars_balanced(sig_chars(chars@)),
    ensures
        stmts_text(r@) == sig_chars(chars@),
        prints_as(r@, direct_print),
{
    let s = &chars;
    let ghost full = chars@;
    let ghost sig = sig_chars(chars@);
    let mut stack: Vec<Vec<Statement>> = Vec::new();
    let mut cur: Vec<Statement> = Vec::new();
    let mut it = s.chars();
    let ghost k: int = 0;
    proof {
        assert(full.skip(0) =~= full);
        assert(full.take(0) =~= Seq::<char>::empty());
    }
    loop
        invariant
            full == chars@,
            0 <= k <= full.len(),
            it.remaining() == full.skip(k),
            sig == sig_chars(full),
            chars_balanced(sig),
            stack@.len() == cnest(sig_chars(full.take(k)), sig_chars(full.take(k)).len() as int),
            sig_chars(full.take(k)).len() <= sig.len(),
            sig_chars(full.take(k)) == sig.take(sig_chars(full.take(k)).len() as int),
            stack_text(stack@) + stmts_text(cur@) == sig_chars(full.take(k)),
            prints_as(cur@, direct_print),
            stack_prints_as(stack@, direct_print),
        decreases full.len() - k,
    {
        let ghost old_it = it;
        let c_opt = it.next();
        proof {
            vstd::string::next_postcondition(&old_it, &it, c_opt);
        }
        let c = match c_opt {
            None => {
                proof {
                    assert(full.take(k) =~= full);
                    assert(stack@.len() == 0) by {
                        assert(cnest(sig, sig.len() as int) == 0);
                    }
                    assert(stack_text(stack@) =~= Seq::<char>::empty());
                    assert(stmts_text(cur@) =~= sig);
                }
                return cur;
            },
            Some(c) => c,
        };
        proof {
            assert(full.skip(k)[0] == full[k]);
            assert(full.skip(k).drop_first() =~= full.skip(k + 1));
            assert(full.take(k + 1).drop_last() =~= full.take(k));
            assert(full.take(k + 1).last() == full[k]);
        }
        let ghost old_cur = cur@;
        let ghost old_stack = stack@;
        let ghost p = sig_chars(full.take(k));
        if c == '+' {
            cur.push(Statement::Inc);
            proof {
                lemma_stmts_text_push(old_cur, Statement::Inc);
                lemma_prints_as_push(old_cur, Statement::Inc, direct_print);
            }
        } else if c == '-' {
            cur.push(Statement::Dec);
            proof {
                lemma_stmts_text_push(old_cur, Statement::Dec);
                lemma_prints_as_push(old_cur, Statement::Dec, direct_print);
            }
        } else if c == '>' {
            cur.push(Statement::R);
            proof {
                lemma_stmts_text_push(old_cur, Statement::R);
                lemma_prints_as_push(old_cur, Statement::R, direct_print);
            }
        } else if c == '<' {
            cur.push(Statement::L);
            proof {
                lemma_stmts_text_push(old_cur, Statement::L);
                lemma_prints_as_push(old_cur, Statement::L, direct_print);
            }
        } else if c == '.' {
            let stmt = if direct_print {
                Statement::DOut
            } else {
                Statement::Out
            };
            cur.push(stmt);
            proof {
                if direct_print {
                    lemma_stmts_text_push(old_cur, Statement::DOut);
                    lemma_prints_as_push(old_cur, Statement::DOut, direct_print);
                } else {
                    lemma_stmts_text_push(old_cur, Statement::Out);
                    lemma_prints_as_push(old_cur, Statement::Out, direct_print);
                }
            }
        } else if c == ',' {
            cur.push(Statement::In);
            proof {
                lemma_stmts_text_push(old_cur, Statement::In);
                lemma_prints_as_push(old_cur, Statement::In, direct_print);
            }
        } else if c == '[' {
            stack.push(cur);
            cur = Vec::new();
            proof {
                assert(stack@.drop_last() =~= old_stack);
                assert(stack_text(stack@) =~= stack_text(old_stack) + stmts_text(old_cur)
                    + seq!['[']);
                assert(stmts_text(cur@) =~= Seq::<char>::empty());
            }
        } else if c == ']' {
            proof {
                // the matching bracket is open: the prefix nesting is positive
                lemma_sig_step(full, k);
                lemma_sig_monotone(full, k + 1, full.len() as int);
                assert(full.take(full.len() as int) =~= full);
                assert(sig_chars(full.take(k + 1)) == p.push(']'));
                assert(p.len() + 1 <= sig.len());
                assert(p.push(']') == sig.take(p.len() as int + 1));
                assert(sig.take(p.len() as int + 1)[p.len() as int] == sig[p.len() as int]);
                assert(sig[p.len() as int] == ']');
                assert(cnest(sig, p.len() as int) >= 1);
                lemma_cnest_prefix(sig, p.len() as int);
                assert(cnest(p, p.len() as int) >= 1);
                assert(stack@.len() >= 1);
            }
            let parent = stack.pop().unwrap();
            let body = cur;
            cur = parent;
            let ghost parent_view = cur@;
            cur.push(Statement::Loop(body));
            proof {
                assert(old_stack.drop_last() =~= stack@);
                lemma_stmts_text_push(parent_view, Statement::Loop(body));
                assert(stmt_text(Statement::Loop(body)) == seq!['['] + stmts_text(old_cur)
                    + seq![']']);
                assert(stack_text(old_stack) =~= stack_text(stack@) + stmts_text(parent_view)
                    + seq!['[']);
                assert(stack_text(stack@) + stmts_text(cur@) =~= p.push(']'));
                lemma_prints_as_push(parent_view, Statement::Loop(body), direct_print);
            }
        } else {
            // a comment character
        }
        proof {
            let p1 = sig_chars(full.take(k + 1));
            if is_sig_char(full[k]) {
                lemma_sig_step(full, k);
                assert(p1 == p.push(full[k]));
                lemma_sig_monotone(full, k + 1, full.len() as int);
                assert(full.take(full.len() as int) =~= full);
                assert(p1 == sig.take(p1.len() as int));
                lemma_cnest_snoc(p1);
                assert(p1.drop_last() =~= p);
                lemma_cnest_prefix(sig, p.len() as int);
                lemma_cnest_prefix(sig, p1.len() as int);
                assert(cnest(p1, p1.len() as int) == cnest(sig, p1.len() as int)) by {
                    lemma_cnest_agree(sig, p1, p1.len() as int);
                }
            } else {
                assert(p1 =~= p);
            }
            k = k + 1;
        }
    }
}

/// Filtering to significant characters is idempotent.
pub proof fn lemma_sig_idempotent(s: Seq<char>)
    ensures
        sig_chars(sig_chars(s)) == sig_chars(s),
    decreases s,
{
    if s.len() > 0 {
        lemma_sig_idempotent(s.drop_last());
        if is_sig_char(s.last()) {
            assert(sig_chars(s) == sig_chars(s.drop_last()).push(s.last())) by {
                assert(sig_chars(s.drop_last()) + seq![s.last()] =~= sig_chars(
                    s.drop_last(),
                ).push(s.last()));
            }
            assert(sig_chars(s).drop_last() =~= sig_chars(s.drop_last()));
            assert(sig_chars(sig_chars(s)) == sig_chars(sig_chars(s.drop_last())).push(
                s.last(),
            )) by {
                assert(sig_chars(sig_chars(s.drop_last()).push(s.last())) =~= sig_chars(
                    sig_chars(s.drop_last()),
                ).push(s.last()));
            }
            assert(sig_chars(sig_chars(s)) =~= sig_chars(s));
        } else {
            assert(sig_chars(s) =~= sig_chars(s.drop_last()));
        }
    }
}

/// One more significant character extends the significant prefix by it.
proof fn lemma_sig_step(full: Seq<char>, k: int)
    requires
        0 <= k < full.len(),
        is_sig_char(full[k]),
    ensures
        sig_chars(full.take(k + 1)) == sig_chars(full.take(k)).push(full[k]),
{
    assert(full.take(k + 1).drop_last() =~= full.take(k));
    assert(full.take(k + 1).last() == full[k]);
    assert(sig_chars(full.take(k + 1)) =~= sig_chars(full.take(k)).push(full[k]));
}

/// Significant prefixes extend each other: the significant characters of
/// a longer prefix start with those of a shorter one.
proof fn lemma_sig_monotone(full: Seq<char>, a: int, b: int)
    requires
        0 <= a <= b <= full.len(),
    ensures
        sig_chars(full.take(a)).len() <= sig_chars(full.take(b)).len(),
        sig_chars(full.take(a)) == sig_chars(full.take(b)).take(
            sig_chars(full.take(a)).len() as int,
        ),
    decreases b - a,
{
    if a == b {
        assert(sig_chars(full.take(a)) =~= sig_chars(full.take(b)).take(
            sig_chars(full.take(a)).len() as int,
        ));
    } else {
        lemma_sig_monotone(full, a, b - 1);
        assert(full.take(b).drop_last() =~= full.take(b - 1));
        assert(full.take(b).last() == full[b - 1]);
        if is_sig_char(full[b - 1]) {
            assert(sig_chars(full.take(b)) =~= sig_chars(full.take(b - 1)).push(full[b - 1]));
        } else {
            assert(sig_chars(full.take(b)) =~= sig_chars(full.take(b - 1)));
        }
        assert(sig_chars(full.take(a)) =~= sig_chars(full.take(b)).take(
            sig_chars(full.take(a)).len() as int,
        ));
    }
}

/// Nesting after one more character.
proof fn lemma_cnest_snoc(s: Seq<char>)
    requires
        s.len() >= 1,
    ensures
        cnest(s, s.len() as int) == cnest(s.drop_last(), s.len() as int - 1) + if s.last() == '[' {
            1int
        } else if s.last() == ']' {
            -1int
        } else {
            0int
        },
{
    lemma_cnest_agree(s, s.drop_last(), s.len() as int - 1);
}

/// Nesting depends only on the first `i` characters.
proof fn lemma_cnest_agree(a: Seq<char>, b: Seq<char>, i: int)
    requires
        0 <= i <= a.len(),
        i <= b.len(),
        forall|j: int| 0 <= j < i ==> a[j] == b[j],
    ensures
        cnest(a, i) == cnest(b, i),
    decreases i,
{
    if i > 0 {
        lemma_cnest_agree(a, b, i - 1);
    }
}

/// A prefix of the significant text nests as the stack is deep.
proof fn lemma_cnest_prefix(sig: Seq<char>, n: int)
    requires
        0 <= n <= sig.len(),
    ensures
        cnest(sig.take(n), n) == cnest(sig, n),
{
    lemma_cnest_agree(sig, sig.take(n), n);
}

} // verus!
