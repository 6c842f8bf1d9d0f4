//! The single-pass tree builder: it consumes a filtered instruction stream
//! and produces one root tree whose structure exactly mirrors bracket
//! nesting, rejecting malformed bracket structure instead of patching it.

use vstd::prelude::*;
use vstd::std_specs::iter::IteratorSpec;

use crate::parser::ast::Ast;
use crate::parser::ast::NodeType;
use crate::parser::ast::NodeView;
use crate::parser::ast::ast_view;
use crate::parser::ast::lemma_source_of_push;
use crate::parser::ast::lemma_wf_append_loop;
use crate::parser::ast::lemma_wf_push_plain;
use crate::parser::ast::node_source;
use crate::parser::ast::source_of;
use crate::parser::ast::tag_char;
use crate::parser::ast::tag_count;
use crate::parser::ast::tag_count_one;
use crate::parser::ast::wf_nodes;

pub mod ast;

verus! {

/// Whether `c` is one of the eight recognized instruction characters.
pub open spec fn is_op_char(c: char) -> bool {
    c == '>' || c == '<' || c == '+' || c == '-' || c == '.' || c == ',' || c == '[' || c == ']'
}

/// The instruction tag a single character stands for. Characters outside the
/// eight-symbol alphabet map to the `Nop` placeholder, which a filtered
/// stream never contains.
pub open spec fn char_tag(c: char) -> NodeType {
    if c == '>' {
        NodeType::PtrInc
    } else if c == '<' {
        NodeType::PtrDec
    } else if c == '+' {
        NodeType::CellInc
    } else if c == '-' {
        NodeType::CellDec
    } else if c == '.' {
        NodeType::PutChar
    } else if c == ',' {
        NodeType::ReadChar
    } else if c == '[' {
        NodeType::WhileBegin
    } else if c == ']' {
        NodeType::WhileEnd
    } else {
        NodeType::Nop
    }
}

/// Whether every character of `s` belongs to the eight-symbol alphabet, as
/// the upstream filtering step guarantees.
pub open spec fn all_ops(s: Seq<char>) -> bool {
    forall|i: int| 0 <= i < s.len() ==> is_op_char(#[trigger] s[i])
}

/// How many loop-begin markers `s` holds.
pub open spec fn open_count(s: Seq<char>) -> int
    decreases s.len(),
{
    if s.len() == 0 {
        0
    } else {
        open_count(s.drop_last()) + if s.last() == '[' {
            1int
        } else {
            0int
        }
    }
}

/// How many loop-end markers `s` holds.
pub open spec fn close_count(s: Seq<char>) -> int
    decreases s.len(),
{
    if s.len() == 0 {
        0
    } else {
        close_count(s.drop_last()) + if s.last() == ']' {
            1int
        } else {
            0int
        }
    }
}

/// Whether no prefix of `s` closes more loops than it has opened.
pub open spec fn depth_ok(s: Seq<char>) -> bool {
    forall|i: int| 0 <= i <= s.len() ==> close_count(#[trigger] s.take(i)) <= open_count(s.take(i))
}

/// Balanced bracket structure: no prefix closes an unopened loop, and every
/// opened loop is closed by the end.
pub open spec fn balanced(s: Seq<char>) -> bool {
    depth_ok(s) && open_count(s) == close_count(s)
}

/// The structural faults that make an instruction stream unparsable.
#[derive(Clone, Copy, Debug, PartialEq, Eq, Structural)]
pub enum ParseError {
    /// A loop-end marker appeared while no loop was open.
    UnmatchedLoopEnd,
    /// The stream ended with at least one loop still open.
    UnclosedLoop,
}

/// Whether `c` is one of the eight instruction characters; the executable
/// twin of `is_op_char`.
fn is_op(c: char) -> (r: bool)
    ensures
        r == is_op_char(c),
{
    c == '>' || c == '<' || c == '+' || c == '-' || c == '.' || c == ',' || c == '[' || c == ']'
}

/// Keeps exactly the recognized instruction characters of `src_code`, in
/// their original order, silently dropping every other character.
///
/// Relies on std's `String::retain`: it keeps, in order, exactly the
/// characters the predicate accepts and removes the rest.
#[verifier::external_body]
pub fn sanitize_source(src_code: &mut String)
    ensures
        final(src_code)@ == old(src_code)@.filter(|chr: char| is_op_char(chr)),
{
    src_code.retain(|chr| is_op(chr))
}

/// Maps one instruction character to its tag; total, with `Nop` standing for
/// any character outside the alphabet.
pub fn convert_char_to_op(chr: char) -> (ty: NodeType)
    ensures
        ty == char_tag(chr),
{
    match chr {
        '>' => NodeType::PtrInc,
        '<' => NodeType::PtrDec,
        '+' => NodeType::CellInc,
        '-' => NodeType::CellDec,
        '.' => NodeType::PutChar,
        ',' => NodeType::ReadChar,
        '[' => NodeType::WhileBegin,
        ']' => NodeType::WhileEnd,
        _ => NodeType::Nop,
    }
}

/// A level of the construction stack that still waits for its loop to
/// close: its last node is the loop-begin that opened the nested scope, with
/// no body attached yet, and everything before that node is finished and
/// well-formed.
pub open spec fn pending_level(s: Seq<NodeView>) -> bool {
    &&& s.len() > 0
    &&& s.last().ty == NodeType::WhileBegin
    &&& s.last().body is None
    &&& wf_nodes(s.drop_last())
}

/// The serialization of the whole construction stack, bottom level first.
/// Each still-open loop-begin sits last in its level and contributes its own
/// bracket there, so this concatenation reproduces the consumed input.
pub open spec fn stack_source(st: Seq<Ast>) -> Seq<char>
    decreases st.len(),
{
    if st.len() == 0 {
        Seq::empty()
    } else {
        stack_source(st.drop_last()) + source_of(ast_view(st.last()))
    }
}

proof fn lemma_stack_source_push(st: Seq<Ast>, a: Ast)
    ensures
        stack_source(st.push(a)) == stack_source(st) + source_of(ast_view(a)),
{
    assert(st.push(a).drop_last() =~= st);
}

proof fn lemma_count_push(p: Seq<char>, c: char)
    ensures
        open_count(p.push(c)) == open_count(p) + (if c == '[' {
            1int
        } else {
            0int
        }),
        close_count(p.push(c)) == close_count(p) + (if c == ']' {
            1int
        } else {
            0int
        }),
{
    assert(p.push(c).drop_last() =~= p);
}

proof fn lemma_depth_ok_push(p: Seq<char>, c: char)
    requires
        depth_ok(p),
        close_count(p.push(c)) <= open_count(p.push(c)),
    ensures
        depth_ok(p.push(c)),
{
    let pc = p.push(c);
    assert forall|i: int| 0 <= i <= pc.len() implies close_count(#[trigger] pc.take(i))
        <= open_count(pc.take(i)) by {
        if i <= p.len() {
            assert(pc.take(i) =~= p.take(i));
            assert(close_count(p.take(i)) <= open_count(p.take(i)));
        } else {
            assert(pc.take(i) =~= pc);
        }
    }
}

proof fn lemma_open_close_concat(a: Seq<char>, b: Seq<char>)
    ensures
        open_count(a + b) == open_count(a) + open_count(b),
        close_count(a + b) == close_count(a) + close_count(b),
    decreases b.len(),
{
    if b.len() == 0 {
        assert(a + b =~= a);
    } else {
        lemma_open_close_concat(a, b.drop_last());
        assert((a + b).drop_last() =~= a + b.drop_last());
        assert((a + b).last() == b.last());
    }
}

proof fn lemma_tag_counts_match_source(s: Seq<NodeView>)
    ensures
        tag_count(s, NodeType::WhileBegin) == open_count(source_of(s)),
        tag_count(s, NodeType::WhileEnd) == close_count(source_of(s)),
    decreases s,
{
    if s.len() > 0 {
        lemma_tag_counts_match_source(s.drop_last());
        let last = s.last();
        let own = seq![tag_char(last.ty)];
        assert(own.drop_last() =~= Seq::<char>::empty());
        assert(own.last() == tag_char(last.ty));
        assert(open_count(Seq::<char>::empty()) == 0);
        assert(close_count(Seq::<char>::empty()) == 0);
        assert(tag_char(last.ty) == '[' <==> last.ty == NodeType::WhileBegin);
        assert(tag_char(last.ty) == ']' <==> last.ty == NodeType::WhileEnd);
        assert(open_count(own) == (if last.ty == NodeType::WhileBegin {
            1int
        } else {
            0int
        }));
        assert(close_count(own) == (if last.ty == NodeType::WhileEnd {
            1int
        } else {
            0int
        }));
        match last.body {
            Option::Some(b) => {
                lemma_tag_counts_match_source(b);
                lemma_open_close_concat(own, source_of(b));
                assert(node_source(last) == own + source_of(b));
            },
            Option::None => {
                assert(node_source(last) == own);
            },
        }
        assert(open_count(node_source(last)) == tag_count_one(last, NodeType::WhileBegin));
        assert(close_count(node_source(last)) == tag_count_one(last, NodeType::WhileEnd));
        lemma_open_close_concat(source_of(s.drop_last()), node_source(last));
        assert(source_of(s) == source_of(s.drop_last()) + node_source(last));
    }
}

/// On a tree that re-serializes to a balanced instruction stream — the
/// builder's output in particular — the loop-begin and loop-end totals over
/// the whole structure are equal, and both equal the number of bracket pairs
/// in the stream.
pub proof fn lemma_loop_markers_balanced(s: Seq<NodeView>, src: Seq<char>)
    requires
        source_of(s) == src,
        balanced(src),
    ensures
        tag_count(s, NodeType::WhileBegin) == tag_count(s, NodeType::WhileEnd),
        tag_count(s, NodeType::WhileBegin) == open_count(src),
        tag_count(s, NodeType::WhileEnd) == close_count(src),
{
    lemma_tag_counts_match_source(s);
}

/// Builds the tree for a filtered instruction stream.
///
/// On success the tree is well-formed and re-serializes, depth first and in
/// order, to exactly the input stream; success happens on precisely the
/// balanced inputs. A stream that closes a loop no prefix has opened is
/// rejected as `UnmatchedLoopEnd`; one that ends with a loop still open is
/// rejected as `UnclosedLoop`. No partially built tree is ever handed back.
#[verifier::rlimit(60)]
pub fn convert_source_to_op_chain(src: &str) -> (r: Result<Ast, ParseError>)
    requires
        all_ops(src@),
    ensures
        match r {
            Result::Ok(tree) => balanced(src@) && wf_nodes(tree@) && source_of(tree@) == src@,
            Result::Err(e) => match e {
                ParseError::UnmatchedLoopEnd => !depth_ok(src@),
                ParseError::UnclosedLoop => depth_ok(src@) && open_count(src@) > close_count(src@),
            },
        },
{
    let mut stack: Vec<Ast> = Vec::new();
    stack.push(Ast::new());
    let mut rest = src.chars();
    let ghost mut done: int = 0;
    proof {
        assert(src@.take(0) =~= Seq::<char>::empty());
        assert(rest.remaining() =~= src@.subrange(0, src@.len() as int));
        assert(stack@.drop_last() =~= Seq::<Ast>::empty());
        assert(ast_view(stack@.last()) =~= Seq::<NodeView>::empty());
        assert(source_of(ast_view(stack@.last())) =~= Seq::<char>::empty());
        assert(stack_source(stack@.drop_last()) =~= Seq::<char>::empty());
        assert(stack_source(stack@) =~= src@.take(0));
    }
    loop
        invariant
            all_ops(src@),
            0 <= done <= src@.len(),
            rest.remaining() == src@.subrange(done, src@.len() as int),
            stack@.len() >= 1,
            stack@.len() - 1 == open_count(src@.take(done)) - close_count(src@.take(done)),
            depth_ok(src@.take(done)),
            forall|j: int|
                0 <= j < stack@.len() - 1 ==> pending_level(ast_view(#[trigger] stack@[j])),
            wf_nodes(ast_view(stack@.last())),
            stack_source(stack@) == src@.take(done),
        ensures
            done == src@.len(),
            stack@.len() >= 1,
            stack@.len() - 1 == open_count(src@) - close_count(src@),
            depth_ok(src@),
            forall|j: int|
                0 <= j < stack@.len() - 1 ==> pending_level(ast_view(#[trigger] stack@[j])),
            wf_nodes(ast_view(stack@.last())),
            stack_source(stack@) == src@,
        decreases src@.len() - done,
    {
        let next_char = rest.next();
        match next_char {
            Option::None => {
                proof {
                    assert(src@.take(done) =~= src@);
                }
                break ;
            },
            Option::Some(c) => {
                let ghost p = src@.take(done);
                let ghost pc = src@.take(done + 1);
                proof {
                    assert(c == src@[done]);
                    assert(is_op_char(c));
                    assert(rest.remaining() =~= src@.subrange(done + 1, src@.len() as int));
                    assert(pc =~= p.push(c));
                    lemma_count_push(p, c);
                    assert(p.take(p.len() as int) =~= p);
                }
                let ty = convert_char_to_op(c);
                match ty {
                    NodeType::WhileBegin => {
                        let ghost old_stack = stack@;
                        let mut top = stack.pop().unwrap();
                        top.push(NodeType::WhileBegin, Option::None);
                        let ghost top_v = top@;
                        stack.push(top);
                        let ghost mid_stack = stack@;
                        stack.push(Ast::new());
                        proof {
                            let n = NodeView { ty: NodeType::WhileBegin, body: Option::None };
                            let t0 = ast_view(old_stack.last());
                            assert(c == '[');
                            assert(top_v == t0.push(n));
                            lemma_source_of_push(t0, n);
                            assert(node_source(n) =~= seq!['[']);
                            assert(mid_stack =~= old_stack.drop_last().push(mid_stack.last()));
                            lemma_stack_source_push(old_stack.drop_last(), mid_stack.last());
                            assert(stack_source(old_stack) == stack_source(old_stack.drop_last())
                                + source_of(t0));
                            assert(stack@ =~= mid_stack.push(stack@.last()));
                            lemma_stack_source_push(mid_stack, stack@.last());
                            assert(source_of(ast_view(stack@.last())) =~= Seq::<char>::empty());
                            assert(stack_source(stack@) =~= pc);
                            assert(pending_level(top_v));
                            assert forall|j: int| 0 <= j < stack@.len() - 1 implies pending_level(
                                ast_view(#[trigger] stack@[j]),
                            ) by {
                                if j < old_stack.len() - 1 {
                                    assert(stack@[j] == old_stack[j]);
                                } else {
                                    assert(stack@[j] == mid_stack.last());
                                }
                            }
                            assert(wf_nodes(ast_view(stack@.last())));
                            lemma_depth_ok_push(p, c);
                        }
                    },
                    NodeType::WhileEnd => {
                        proof {
                            assert(c == ']');
                        }
                        if stack.len() == 1 {
                            proof {
                                assert(src@.take(done + 1) =~= p.push(c));
                                if depth_ok(src@) {
                                    assert(close_count(#[trigger] src@.take(done + 1))
                                        <= open_count(src@.take(done + 1)));
                                    assert(false);
                                }
                            }
                            return Result::Err(ParseError::UnmatchedLoopEnd);
                        }
                        let ghost old_stack = stack@;
                        let body = stack.pop().unwrap();
                        let ghost body_v = body@;
                        let mut below = stack.pop().unwrap();
                        let ghost below0 = below@;
                        below.set_last_body(Box::new(body));
                        below.push(NodeType::WhileEnd, Option::None);
                        let ghost below2 = below@;
                        stack.push(below);
                        proof {
                            let wb = NodeView {
                                ty: NodeType::WhileBegin,
                                body: Option::Some(body_v),
                            };
                            let we = NodeView { ty: NodeType::WhileEnd, body: Option::None };
                            assert(pending_level(
                                ast_view(#[trigger] old_stack[old_stack.len() - 2]),
                            ));
                            assert(below0 == ast_view(old_stack[old_stack.len() - 2]));
                            let f = below0.drop_last();
                            let wbn = below0.last();
                            assert(below2 =~= f.push(wb).push(we));
                            lemma_wf_append_loop(f, body_v);
                            assert(wf_nodes(below2));
                            lemma_source_of_push(f.push(wb), we);
                            lemma_source_of_push(f, wb);
                            assert(below0 =~= f.push(wbn));
                            lemma_source_of_push(f, wbn);
                            assert(node_source(wbn) =~= seq!['[']);
                            assert(node_source(we) =~= seq![']']);
                            assert(node_source(wb) == seq!['['] + source_of(body_v));
                            assert(stack_source(old_stack) == stack_source(old_stack.drop_last())
                                + source_of(body_v));
                            assert(stack_source(old_stack.drop_last()) == stack_source(
                                old_stack.drop_last().drop_last(),
                            ) + source_of(below0));
                            assert(stack@ =~= old_stack.drop_last().drop_last().push(
                                stack@.last(),
                            ));
                            lemma_stack_source_push(
                                old_stack.drop_last().drop_last(),
                                stack@.last(),
                            );
                            assert(ast_view(stack@.last()) == below2);
                            assert(stack_source(stack@) =~= pc);
                            assert forall|j: int| 0 <= j < stack@.len() - 1 implies pending_level(
                                ast_view(#[trigger] stack@[j]),
                            ) by {
                                assert(stack@[j] == old_stack[j]);
                            }
                            lemma_depth_ok_push(p, c);
                        }
                    },
                    _ => {
                        let ghost old_stack = stack@;
                        let mut top = stack.pop().unwrap();
                        top.push(ty, Option::None);
                        let ghost top_v = top@;
                        stack.push(top);
                        proof {
                            let n = NodeView { ty, body: Option::None };
                            let t0 = ast_view(old_stack.last());
                            assert(c != '[' && c != ']');
                            assert(top_v == t0.push(n));
                            lemma_wf_push_plain(t0, n);
                            lemma_source_of_push(t0, n);
                            assert(node_source(n) =~= seq![c]);
                            assert(stack@ =~= old_stack.drop_last().push(stack@.last()));
                            lemma_stack_source_push(old_stack.drop_last(), stack@.last());
                            assert(stack_source(old_stack) == stack_source(old_stack.drop_last())
                                + source_of(t0));
                            assert(stack_source(stack@) =~= pc);
                            assert forall|j: int| 0 <= j < stack@.len() - 1 implies pending_level(
                                ast_view(#[trigger] stack@[j]),
                            ) by {
                                assert(stack@[j] == old_stack[j]);
                            }
                            lemma_depth_ok_push(p, c);
                        }
                    },
                }
                proof {
                    done = done + 1;
                }
            },
        }
    }
    if stack.len() == 1 {
        let ghost fin_stack = stack@;
        let root = stack.pop().unwrap();
        proof {
            assert(fin_stack.drop_last() =~= Seq::<Ast>::empty());
            assert(stack_source(fin_stack) == stack_source(fin_stack.drop_last()) + source_of(
                ast_view(fin_stack.last()),
            ));
            assert(root@ == ast_view(fin_stack.last()));
            assert(source_of(root@) =~= src@);
        }
        Result::Ok(root)
    } else {
        Result::Err(ParseError::UnclosedLoop)
    }
}

} // verus!
