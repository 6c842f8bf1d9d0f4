use bf_ast::parser::ast::Ast;
use bf_ast::parser::ast::NodeType;
use bf_ast::parser::ParseError;
use bf_ast::parser::convert_char_to_op;
use bf_ast::parser::convert_source_to_op_chain;
use bf_ast::parser::sanitize_source;

fn tag_to_char(t: &NodeType) -> char {
    match t {
        NodeType::PtrInc => '>',
        NodeType::PtrDec => '<',
        NodeType::CellInc => '+',
        NodeType::CellDec => '-',
        NodeType::PutChar => '.',
        NodeType::ReadChar => ',',
        NodeType::WhileBegin => '[',
        NodeType::WhileEnd => ']',
        NodeType::Nop => '?',
    }
}

fn serialize(ast: &Ast) -> String {
    let mut out = String::new();
    let mut iter = ast.iter();
    loop {
        match iter.next() {
            Some((ty, body)) => {
                out.push(tag_to_char(ty));
                if let Some(b) = body {
                    out.push_str(&serialize(b));
                }
            }
            None => break,
        }
    }
    out
}

fn total_nodes(ast: &Ast) -> usize {
    let mut count: usize = 0;
    let mut iter = ast.iter();
    loop {
        match iter.next() {
            Some((_, body)) => {
                count += 1;
                if let Some(b) = body {
                    count += total_nodes(b);
                }
            }
            None => break,
        }
    }
    count
}

#[test]
fn classifier_maps_every_instruction_character() {
    assert_eq!(convert_char_to_op('>'), NodeType::PtrInc);
    assert_eq!(convert_char_to_op('<'), NodeType::PtrDec);
    assert_eq!(convert_char_to_op('+'), NodeType::CellInc);
    assert_eq!(convert_char_to_op('-'), NodeType::CellDec);
    assert_eq!(convert_char_to_op('.'), NodeType::PutChar);
    assert_eq!(convert_char_to_op(','), NodeType::ReadChar);
    assert_eq!(convert_char_to_op('['), NodeType::WhileBegin);
    assert_eq!(convert_char_to_op(']'), NodeType::WhileEnd);
    assert_eq!(convert_char_to_op('x'), NodeType::Nop);
}

#[test]
fn sanitize_keeps_only_instruction_characters() {
    let mut src = String::from("a+b[c-]d\n. e,f<g>h");
    sanitize_source(&mut src);
    assert_eq!(src, "+[-].,<>");
}

#[test]
fn sanitize_of_pure_stream_is_identity() {
    let mut src = String::from("+[-[-]]");
    sanitize_source(&mut src);
    assert_eq!(src, "+[-[-]]");
}

#[test]
fn empty_stream_builds_empty_tree() {
    let mut ast = convert_source_to_op_chain("").unwrap();
    assert!(ast.pop().is_none());
}

#[test]
fn nested_bodies_attach_to_their_own_loop() {
    let ast = convert_source_to_op_chain("+[-[-]]").unwrap();

    let (ty, body) = ast.nth(0);
    assert_eq!(ty, Some(&NodeType::CellInc));
    assert!(body.is_none());

    let (ty, outer_body) = ast.nth(1);
    assert_eq!(ty, Some(&NodeType::WhileBegin));
    let outer = outer_body.unwrap();

    let (ty, body) = ast.nth(2);
    assert_eq!(ty, Some(&NodeType::WhileEnd));
    assert!(body.is_none());
    let (ty, _) = ast.nth(3);
    assert!(ty.is_none());

    let (ty, body) = outer.nth(0);
    assert_eq!(ty, Some(&NodeType::CellDec));
    assert!(body.is_none());

    let (ty, inner_body) = outer.nth(1);
    assert_eq!(ty, Some(&NodeType::WhileBegin));
    let inner = inner_body.unwrap();

    let (ty, body) = outer.nth(2);
    assert_eq!(ty, Some(&NodeType::WhileEnd));
    assert!(body.is_none());
    let (ty, _) = outer.nth(3);
    assert!(ty.is_none());

    let (ty, body) = inner.nth(0);
    assert_eq!(ty, Some(&NodeType::CellDec));
    assert!(body.is_none());
    let (ty, _) = inner.nth(1);
    assert!(ty.is_none());
}

#[test]
fn round_trip_reproduces_filtered_stream() {
    for src in ["", "+-<>.,", "+[-[-]]", "[[[]]]", ">[.,]<[[-]+]", "[][][]"] {
        let ast = convert_source_to_op_chain(src).unwrap();
        assert_eq!(serialize(&ast), src);
    }
}

#[test]
fn node_totals_match_stream_length() {
    for src in ["", "+-<>.,", "+[-[-]]", "[[[]]]", ">[.,]<[[-]+]"] {
        let ast = convert_source_to_op_chain(src).unwrap();
        assert_eq!(total_nodes(&ast), src.len());
    }
}

#[test]
fn marker_totals_match_bracket_pairs() {
    let mut ast = convert_source_to_op_chain("+[-[-]]").unwrap();
    assert_eq!((2, 2), ast.count_while_loops());

    let mut ast = convert_source_to_op_chain("[][][]").unwrap();
    assert_eq!((3, 3), ast.count_while_loops());
}

#[test]
fn unclosed_loop_is_rejected() {
    assert!(matches!(
        convert_source_to_op_chain("[[-]"),
        Err(ParseError::UnclosedLoop)
    ));
}

#[test]
fn stray_loop_end_is_rejected() {
    assert!(matches!(
        convert_source_to_op_chain("]"),
        Err(ParseError::UnmatchedLoopEnd)
    ));
    assert!(matches!(
        convert_source_to_op_chain("[]]+"),
        Err(ParseError::UnmatchedLoopEnd)
    ));
}

#[test]
fn pointer_traffic_sums_occurrences() {
    let mut ast = convert_source_to_op_chain(">>>+<").unwrap();
    assert_eq!(3, ast.max_ptr_size());

    let mut ast = convert_source_to_op_chain("><[<<]").unwrap();
    assert_eq!(3, ast.max_ptr_size());
}
