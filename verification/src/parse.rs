use vstd::prelude::*;

use crate::span::Span;

verus! {

/// One node of the span-annotated syntax tree. Loop nesting is structural:
/// a `Loop` owns the instruction sequence of its body.
#[derive(Debug, PartialEq, Eq)]
pub enum Instr {
    Add,
    Sub,
    Right,
    Left,
    Out,
    In,
    Loop(Vec<(Instr, Span)>),
}

/// A parsed instruction sequence: each instruction paired with the source
/// byte range it came from.
pub type Ast = Vec<(Instr, Span)>;

/// Returned when the source has unbalanced brackets or exceeds the loop
/// nesting bound.
#[derive(Debug, Clone, PartialEq, Eq)]
pub struct ParseError;

/// Loops may nest this deep below the top level before parsing is refused.
pub const MAX_DEPTH: usize = 1000;

/// Whether a source byte is one of the eight significant characters
/// `+ - > < . , [ ]` (as byte values, in that order); everything else is
/// a comment.
pub open spec fn is_sig(b: u8) -> bool {
    b == 43 || b == 45 || b == 62 || b == 60 || b == 46 || b == 44 || b == 91 || b == 93
}

/// The bracket nesting level just before position `i`: the number of `[`
/// minus the number of `]` among the first `i` bytes.
pub open spec fn nest(s: Seq<u8>, i: int) -> int
    decreases i,
{
    if i <= 0 {
        0
    } else {
        nest(s, i - 1) + if s[i - 1] == 91 {
            1int
        } else if s[i - 1] == 93 {
            -1int
        } else {
            0int
        }
    }
}

/// Whether the source parses: every `]` closes an open loop, every loop is
/// closed by the end, and no `[` opens beyond the nesting bound.
pub open spec fn parse_ok(s: Seq<u8>) -> bool {
    &&& forall|i: int| 0 <= i < s.len() && s[i] == 93 ==> nest(s, i) >= 1
    &&& nest(s, s.len() as int) == 0
    &&& forall|i: int| 0 <= i < s.len() && s[i] == 91 ==> nest(s, i) <= MAX_DEPTH
}

/// The number of significant bytes among the first `i` bytes of `s`.
pub open spec fn sig_count(s: Seq<u8>, i: int) -> int
    decreases i,
{
    if i <= 0 {
        0
    } else {
        sig_count(s, i - 1) + if is_sig(s[i - 1]) {
            1int
        } else {
            0int
        }
    }
}

/// The number of source characters an instruction stands for: one per
/// primitive, and for a loop its two brackets plus its body.
pub open spec fn instr_weight(i: Instr) -> int
    decreases i,
{
    match i {
        Instr::Loop(body) => 2 + ast_weight(body@),
        _ => 1,
    }
}

/// The number of source characters an instruction sequence stands for.
pub open spec fn ast_weight(s: Seq<(Instr, Span)>) -> int
    decreases s,
{
    if s.len() == 0 {
        0
    } else {
        ast_weight(s.drop_last()) + instr_weight(s.last().0)
    }
}

/// Spans of an instruction sequence are well formed up to position `bound`:
/// starts and ends are weakly increasing from left to right, every span lies
/// within `0..bound`, and loop bodies are well formed within their loop's
/// brackets.
pub open spec fn spans_wf(s: Seq<(Instr, Span)>, bound: int) -> bool
    decreases s,
{
    if s.len() == 0 {
        true
    } else {
        let (instr, span) = s.last();
        &&& spans_wf(s.drop_last(), span.start as int)
        &&& span.start + span.len <= bound
        &&& 1 <= span.len
        &&& match instr {
            Instr::Loop(body) => spans_wf(body@, span.start + span.len),
            _ => true,
        }
    }
}

/// The significant bytes of the source, in order, comments dropped.
pub open spec fn sig_bytes(s: Seq<u8>) -> Seq<u8>
    decreases s,
{
    if s.len() == 0 {
        Seq::empty()
    } else if is_sig(s.last()) {
        sig_bytes(s.drop_last()).push(s.last())
    } else {
        sig_bytes(s.drop_last())
    }
}

/// The source text an instruction stands for: its significant character
/// as a byte, and for a loop its body's text between the two brackets.
pub open spec fn instr_text(i: Instr) -> Seq<u8>
    decreases i,
{
    match i {
        Instr::Add => seq![43u8],
        Instr::Sub => seq![45u8],
        Instr::Right => seq![62u8],
        Instr::Left => seq![60u8],
        Instr::Out => seq![46u8],
        Instr::In => seq![44u8],
        Instr::Loop(body) => seq![91u8] + ast_text(body@) + seq![93u8],
    }
}

/// The source text an instruction sequence stands for.
pub open spec fn ast_text(s: Seq<(Instr, Span)>) -> Seq<u8>
    decreases s,
{
    if s.len() == 0 {
        Seq::empty()
    } else {
        ast_text(s.drop_last()) + instr_text(s.last().0)
    }
}

/// Every instruction's span points at the source bytes it came from: a
/// primitive's span is the single byte holding its character, and a
/// loop's span runs from its opening bracket to its closing one, with
/// its body's spans matching in between.
pub open spec fn spans_match(s: Seq<(Instr, Span)>, src: Seq<u8>) -> bool
    decreases s,
{
    if s.len() == 0 {
        true
    } else {
        let (instr, span) = s.last();
        &&& spans_match(s.drop_last(), src)
        &&& span.start + span.len <= src.len()
        &&& match instr {
            Instr::Add => span.len == 1 && src[span.start as int] == 43,
            Instr::Sub => span.len == 1 && src[span.start as int] == 45,
            Instr::Right => span.len == 1 && src[span.start as int] == 62,
            Instr::Left => span.len == 1 && src[span.start as int] == 60,
            Instr::Out => span.len == 1 && src[span.start as int] == 46,
            Instr::In => span.len == 1 && src[span.start as int] == 44,
            Instr::Loop(body) => {
                &&& span.len >= 2
                &&& src[span.start as int] == 91
                &&& src[span.start + span.len - 1] == 93
                &&& spans_match(body@, src)
            },
        }
    }
}

proof fn lemma_spans_wf_weaken(s: Seq<(Instr, Span)>, bound1: int, bound2: int)
    requires
        spans_wf(s, bound1),
        bound1 <= bound2,
    ensures
        spans_wf(s, bound2),
    decreases s,
{
    if s.len() > 0 {
    }
}

proof fn lemma_ast_weight_push(s: Seq<(Instr, Span)>, x: (Instr, Span))
    ensures
        ast_weight(s.push(x)) == ast_weight(s) + instr_weight(x.0),
{
    assert(s.push(x).drop_last() =~= s);
}

/// The source characters consumed so far by the open loops on the parser's
/// stack: each level stands for its instructions plus its opening bracket.
pub open spec fn stack_weight(st: Seq<(Ast, usize)>) -> int
    decreases st,
{
    if st.len() == 0 {
        0
    } else {
        stack_weight(st.drop_last()) + ast_weight(st.last().0@) + 1
    }
}

proof fn lemma_stack_weight_push(st: Seq<(Ast, usize)>, x: (Ast, usize))
    ensures
        stack_weight(st.push(x)) == stack_weight(st) + ast_weight(x.0@) + 1,
{
    assert(st.push(x).drop_last() =~= st);
}

/// The source text consumed so far by the open loops on the parser's
/// stack: each level's collected instructions, then its opening bracket.
pub open spec fn stack_text(st: Seq<(Ast, usize)>) -> Seq<u8>
    decreases st,
{
    if st.len() == 0 {
        Seq::empty()
    } else {
        stack_text(st.drop_last()) + ast_text(st.last().0@) + seq![91u8]
    }
}

proof fn lemma_stack_text_push(st: Seq<(Ast, usize)>, x: (Ast, usize))
    ensures
        stack_text(st.push(x)) == stack_text(st) + ast_text(x.0@) + seq![91u8],
{
    assert(st.push(x).drop_last() =~= st);
}

/// The parser stack is sound at position `i`: each open loop's collected
/// body has well-formed spans up to its recorded opening bracket, which
/// lies before `i` and holds a `[`, and the body's spans match the
/// source.
pub open spec fn stack_ok(st: Seq<(Ast, usize)>, src: Seq<u8>, i: int) -> bool {
    forall|k: int|
        0 <= k < st.len() ==> spans_wf(#[trigger] st[k].0@, st[k].1 as int) && st[k].1 < i
            && st[k].1 < src.len() && src[st[k].1 as int] == 91 && spans_match(st[k].0@, src)
}

/// Parse source bytes into the span-annotated syntax tree. Fails, and
/// only fails, on a closing bracket with no loop open, a loop left open
/// at the end, or a loop opened below `MAX_DEPTH` loops already open.
/// On success the tree accounts for every significant byte of the source
/// (one instruction per primitive, one loop per bracket pair), and its
/// spans lie in order within the source.
pub fn parse(src: &[u8]) -> (r: Result<Ast, ParseError>)
    requires
        src@.len() <= u32::MAX,
    ensures
        r is Err <==> !parse_ok(src@),
        r matches Ok(ast) ==> ast_weight(ast@) == sig_count(src@, src@.len() as int),
        r matches Ok(ast) ==> spans_wf(ast@, src@.len() as int),
        r matches Ok(ast) ==> ast_text(ast@) == sig_bytes(src@),
        r matches Ok(ast) ==> spans_match(ast@, src@),
{
    let n = src.len();
    let mut stack: Vec<(Ast, usize)> = Vec::new();
    let mut cur: Ast = Vec::new();
    let mut i: usize = 0;
    proof {
        assert(src@.take(0int) =~= Seq::<u8>::empty());
    }
    while i < n
        invariant
            i <= n,
            n == src@.len(),
            n <= u32::MAX,
            stack@.len() == nest(src@, i as int),
            forall|j: int| 0 <= j < i && src@[j] == 93 ==> nest(src@, j) >= 1,
            forall|j: int| 0 <= j < i && src@[j] == 91 ==> nest(src@, j) <= MAX_DEPTH,
            stack_weight(stack@) + ast_weight(cur@) == sig_count(src@, i as int),
            spans_wf(cur@, i as int),
            stack_ok(stack@, src@, i as int),
            stack_text(stack@) + ast_text(cur@) == sig_bytes(src@.take(i as int)),
            spans_match(cur@, src@),
        decreases n - i,
    {
        let b = src[i];
        let ghost old_cur = cur@;
        let ghost old_stack = stack@;
        if b == 43 || b == 45 || b == 62 || b == 60 || b == 46 || b == 44 {
            let instr = if b == 43 {
                Instr::Add
            } else if b == 45 {
                Instr::Sub
            } else if b == 62 {
                Instr::Right
            } else if b == 60 {
                Instr::Left
            } else if b == 46 {
                Instr::Out
            } else {
                Instr::In
            };
            let span = Span::single(i);
            cur.push((instr, span));
            proof {
                lemma_ast_weight_push(old_cur, cur@.last());
                assert(cur@.drop_last() =~= old_cur);
                assert(ast_text(cur@) == ast_text(old_cur) + instr_text(cur@.last().0));
                assert(instr_text(cur@.last().0) =~= seq![b]);
                assert(stack_text(stack@) + ast_text(cur@) =~= (stack_text(old_stack) + ast_text(
                    old_cur,
                )).push(b));
                assert(spans_match(cur@, src@));
            }
        } else if b == 91 {
            if stack.len() > MAX_DEPTH {
                proof {
                    assert(src@[i as int] == 91 && nest(src@, i as int) > MAX_DEPTH);
                }
                return Err(ParseError);
            }
            stack.push((cur, i));
            cur = Vec::new();
            proof {
                lemma_stack_weight_push(old_stack, stack@.last());
                lemma_stack_text_push(old_stack, stack@.last());
                assert(ast_text(cur@) =~= Seq::<u8>::empty());
                assert(stack_text(stack@) + ast_text(cur@) =~= (stack_text(old_stack) + ast_text(
                    old_cur,
                )).push(b));
                assert(spans_match(cur@, src@));
            }
        } else if b == 93 {
            match stack.pop() {
                None => {
                    proof {
                        assert(src@[i as int] == 93 && nest(src@, i as int) == 0);
                    }
                    return Err(ParseError);
                },
                Some(popped) => {
                    let (mut parent, open) = popped;
                    let span = Span::start_end(open, i);
                    let body = cur;
                    proof {
                        lemma_spans_wf_weaken(body@, i as int, i + 1);
                        lemma_ast_weight_push(
                            parent@,
                            (Instr::Loop(body), span),
                        );
                    }
                    let ghost parent_view = parent@;
                    parent.push((Instr::Loop(body), span));
                    cur = parent;
                    proof {
                        assert(cur@.drop_last() =~= parent_view);
                        assert(old_stack.drop_last() =~= stack@);
                        assert(old_stack.last().0@ == parent_view && old_stack.last().1 == open);
                        assert(spans_match(parent_view, src@) && src@[open as int] == 91 && open
                            < i) by {
                            assert(stack_ok(old_stack, src@, i as int));
                            assert(0 <= old_stack.len() - 1 < old_stack.len());
                        }
                        assert(stack_text(old_stack) == stack_text(stack@) + ast_text(parent_view)
                            + seq![91u8]);
                        assert(ast_text(cur@) == ast_text(parent_view) + instr_text(
                            cur@.last().0,
                        ));
                        assert(instr_text(cur@.last().0) =~= seq![91u8] + ast_text(old_cur)
                            + seq![93u8]);
                        assert(stack_text(stack@) + ast_text(cur@) =~= (stack_text(old_stack)
                            + ast_text(old_cur)).push(b));
                        assert(spans_match(cur@, src@));
                    }
                },
            }
        } else {
            // a comment byte: ignored
            proof {
                lemma_spans_wf_weaken(cur@, i as int, i + 1);
            }
        }
        proof {
            assert(nest(src@, i + 1) == nest(src@, i as int) + if src@[i as int] == 91 {
                1int
            } else if src@[i as int] == 93 {
                -1int
            } else {
                0int
            });
            assert(sig_count(src@, i + 1) == sig_count(src@, i as int) + if is_sig(
                src@[i as int],
            ) {
                1int
            } else {
                0int
            });
            assert(spans_wf(cur@, i + 1));
            assert forall|k: int|
                0 <= k < stack@.len() implies spans_wf(
                #[trigger] stack@[k].0@,
                stack@[k].1 as int,
            ) && stack@[k].1 < i + 1 && stack@[k].1 < src@.len() && src@[stack@[k].1 as int] == 91
                && spans_match(stack@[k].0@, src@) by {
                assert(stack_ok(old_stack, src@, i as int));
                if k < old_stack.len() && k < stack@.len() {
                    if stack@.len() >= old_stack.len() {
                        assert(stack@[k] == old_stack[k]);
                    } else {
                        assert(stack@ == old_stack.drop_last());
                        assert(stack@[k] == old_stack[k]);
                    }
                    assert(spans_wf(old_stack[k].0@, old_stack[k].1 as int));
                    assert(spans_match(old_stack[k].0@, src@));
                } else {
                    assert(stack@.len() == old_stack.len() + 1 && k == old_stack.len());
                    assert(stack@[k] == (stack@.last()));
                    assert(stack@[k].0@ == old_cur);
                    assert(stack@[k].1 == i);
                    assert(spans_wf(old_cur, i as int));
                    assert(spans_match(old_cur, src@));
                    assert(src@[i as int] == 91);
                }
            }
            assert(stack_ok(stack@, src@, i + 1));
            assert(src@.take(i + 1).drop_last() =~= src@.take(i as int));
            assert(src@.take(i + 1).last() == src@[i as int]);
            assert(sig_bytes(src@.take(i + 1)) == if is_sig(src@[i as int]) {
                sig_bytes(src@.take(i as int)).push(src@[i as int])
            } else {
                sig_bytes(src@.take(i as int))
            });
            assert(stack_text(stack@) + ast_text(cur@) == sig_bytes(src@.take(i + 1)));
        }
        i = i + 1;
    }
    if stack.len() > 0 {
        proof {
            assert(nest(src@, src@.len() as int) != 0);
        }
        return Err(ParseError);
    }
    proof {
        assert(parse_ok(src@));
        assert(src@.take(n as int) =~= src@);
        assert(stack_text(stack@) =~= Seq::<u8>::empty());
        assert(ast_text(cur@) =~= stack_text(stack@) + ast_text(cur@));
    }
    Ok(cur)
}

} // verus!
