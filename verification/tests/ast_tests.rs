use bf_ast::parser::ast::Ast;
use bf_ast::parser::ast::NodeType;

#[test]
fn basic_test() {
    let mut ast = Ast::new();
    ast.push(NodeType::CellInc, None);
    ast.push(NodeType::WhileBegin, None);
    ast.push(NodeType::WhileEnd, None);

    let mut while_body = Ast::new();
    while_body.push(NodeType::CellDec, None);
    ast.set_nth_body(1, Box::new(while_body));

    let node = ast.pop();
    let node = node.unwrap();

    assert_eq!(NodeType::CellInc, node.ty);
    assert!(node.body.is_none());
}

#[test]
fn into_iter_test() {
    let mut ast = Ast::new();
    ast.push(NodeType::CellInc, None);
    ast.push(NodeType::WhileBegin, None);
    ast.push(NodeType::WhileEnd, None);

    let mut body = Ast::new();
    body.push(NodeType::CellInc, None);
    ast.set_nth_body(2, Box::new(body));

    let mut iterator = ast.into_iter();
    let item = iterator.next();
    assert!(item.is_some());
    let node = item.unwrap();

    assert!(node.body.is_none());
    assert_eq!(node.ty, NodeType::CellInc);
}

#[test]
fn iter_test() {
    let mut ast = Ast::new();
    ast.push(NodeType::CellInc, None);
    ast.push(NodeType::WhileBegin, None);
    ast.push(NodeType::WhileEnd, None);

    let mut iter = ast.iter();

    let node = iter.next();
    assert!(node.is_some());

    let (n_type, body) = node.unwrap();
    assert_eq!(&NodeType::CellInc, n_type);
    assert!(body.is_none());
    let (n_type, body) = iter.next().unwrap();
    assert_eq!(&NodeType::WhileBegin, n_type);
    assert!(body.is_none());
    let (n_type, body) = iter.next().unwrap();
    assert_eq!(&NodeType::WhileEnd, n_type);
    assert!(body.is_none());

    let opt = iter.next();
    assert!(opt.is_none());
}

#[test]
fn test_while_loop_counter() {
    let mut ast = Ast::new();
    ast.push(NodeType::CellInc, None);
    ast.push(NodeType::WhileBegin, None);
    ast.push(NodeType::WhileEnd, None);

    let mut ast_two = Ast::new();
    ast_two.push(NodeType::WhileBegin, None);
    ast_two.push(NodeType::CellInc, None);

    ast.set_nth_body(1, Box::new(ast_two));

    assert_eq!((2, 1), ast.count_while_loops());
}

#[test]
fn test_ptr_counter() {
    let mut ast = Ast::new();
    ast.push(NodeType::PtrInc, None);
    ast.push(NodeType::PtrInc, None);
    ast.push(NodeType::PtrDec, None);

    ast.push(NodeType::WhileBegin, None);
    ast.push(NodeType::CellInc, None);

    assert_eq!(2, ast.max_ptr_size());
}

#[test]
fn nth_out_of_range_is_absent() {
    let mut ast = Ast::new();
    ast.push(NodeType::PutChar, None);

    let (ty, body) = ast.nth(0);
    assert_eq!(ty, Some(&NodeType::PutChar));
    assert!(body.is_none());

    let (ty, body) = ast.nth(1);
    assert!(ty.is_none());
    assert!(body.is_none());
}

#[test]
fn set_nth_body_out_of_range_has_no_effect() {
    let mut ast = Ast::new();
    ast.push(NodeType::ReadChar, None);

    ast.set_nth_body(7, Box::new(Ast::new()));

    let (ty, body) = ast.nth(0);
    assert_eq!(ty, Some(&NodeType::ReadChar));
    assert!(body.is_none());
    let (ty, _) = ast.nth(1);
    assert!(ty.is_none());
}

#[test]
fn set_last_body_attaches_to_most_recent_node() {
    let mut ast = Ast::new();
    ast.push(NodeType::CellInc, None);
    ast.push(NodeType::WhileBegin, None);

    let mut body = Ast::new();
    body.push(NodeType::CellDec, None);
    ast.set_last_body(Box::new(body));

    let (ty, attached) = ast.nth(1);
    assert_eq!(ty, Some(&NodeType::WhileBegin));
    let attached = attached.unwrap();
    let (inner_ty, inner_body) = attached.nth(0);
    assert_eq!(inner_ty, Some(&NodeType::CellDec));
    assert!(inner_body.is_none());

    let (first_ty, first_body) = ast.nth(0);
    assert_eq!(first_ty, Some(&NodeType::CellInc));
    assert!(first_body.is_none());
}

#[test]
fn set_last_body_on_empty_is_no_op() {
    let mut ast = Ast::new();
    ast.set_last_body(Box::new(Ast::new()));
    assert!(ast.pop().is_none());
}

#[test]
fn consume_presents_iteration_order_and_empties() {
    let tags = [
        NodeType::PtrInc,
        NodeType::CellInc,
        NodeType::WhileBegin,
        NodeType::WhileEnd,
        NodeType::PutChar,
    ];
    let mut ast = Ast::new();
    for t in tags.iter() {
        ast.push(*t, None);
    }

    let mut seen_by_iter: Vec<NodeType> = Vec::new();
    let mut iter = ast.iter();
    loop {
        match iter.next() {
            Some((ty, _)) => seen_by_iter.push(*ty),
            None => break,
        }
    }

    let mut seen_by_consume: Vec<NodeType> = Vec::new();
    let mut consuming = ast.into_iter();
    loop {
        match consuming.next() {
            Some(node) => seen_by_consume.push(node.ty),
            None => break,
        }
    }

    assert_eq!(seen_by_iter, seen_by_consume);
    assert_eq!(seen_by_iter, tags.to_vec());
    assert!(consuming.next().is_none());
    assert!(consuming.next().is_none());
}

#[test]
fn pop_after_full_consumption_stays_absent() {
    let mut ast = Ast::new();
    ast.push(NodeType::CellInc, None);
    ast.push(NodeType::CellDec, None);

    assert!(ast.pop().is_some());
    assert!(ast.pop().is_some());
    assert!(ast.pop().is_none());
    assert!(ast.pop().is_none());
}

#[test]
fn linear_append_then_indexed_reads() {
    let n: usize = 200_000;
    let mut ast = Ast::new();
    let mut i: usize = 0;
    while i < n {
        ast.push(NodeType::CellInc, None);
        i += 1;
    }
    let mut j: usize = 0;
    while j < n {
        let (ty, body) = ast.nth(j);
        assert_eq!(ty, Some(&NodeType::CellInc));
        assert!(body.is_none());
        j += 1;
    }
    let (ty, _) = ast.nth(n);
    assert!(ty.is_none());
}
