use zippy_frontend::messages::MessageKind;
use zippy_frontend::parse::decl::{parse, read_decls};
use zippy_frontend::parse::tree::{BinOp, DeclNode, Expr, ExprNode};
use zippy_frontend::parse::{Parser, Token};
use zippy_frontend::source::Span;

/// Tokens at consecutive one-wide spans.
fn tokens(ts: Vec<Token>) -> Vec<(Token, Span)> {
    ts.into_iter().enumerate().map(|(i, t)| (t, Span::new(i, i + 1))).collect()
}

fn name(s: &str) -> Token {
    Token::Name(s.to_string())
}

fn is_name(e: &Expr, s: &str) -> bool {
    matches!(&e.node, ExprNode::Name(n) if n == s)
}

#[test]
fn base_expressions_are_read_from_one_token() {
    let mut p = Parser::new(tokens(vec![name("x"), Token::Number(7), Token::Question, Token::Type]));
    let x = p.parse_base_expr();
    assert!(is_name(&x, "x"));
    assert_eq!(x.span, Span::new(0, 1));
    assert!(matches!(p.parse_base_expr().node, ExprNode::Int(7)));
    assert!(matches!(p.parse_base_expr().node, ExprNode::Wildcard));
    assert!(matches!(p.parse_base_expr().node, ExprNode::Type));
    assert!(p.take_messages().is_empty());
}

#[test]
fn an_unexpected_token_is_consumed_and_reported() {
    let mut p = Parser::new(tokens(vec![Token::Comma, name("y")]));
    let e = p.parse_base_expr();
    assert!(matches!(e.node, ExprNode::Invalid));
    let msgs = p.take_messages();
    assert_eq!(msgs.len(), 1);
    assert_eq!(msgs[0].kind, MessageKind::ExpectedBaseExpression);
    assert_eq!(msgs[0].span, Span::new(0, 1));
    assert!(is_name(&p.parse_base_expr(), "y"));
}

#[test]
fn an_invalid_token_is_read_silently() {
    let mut p = Parser::new(tokens(vec![Token::Invalid]));
    assert!(matches!(p.parse_base_expr().node, ExprNode::Invalid));
    assert!(p.take_messages().is_empty());
}

#[test]
fn the_end_of_the_tokens_gives_an_invalid_expression() {
    let mut p = Parser::new(tokens(vec![]));
    let e = p.parse_base_expr();
    assert!(matches!(e.node, ExprNode::Invalid));
    let msgs = p.take_messages();
    assert_eq!(msgs.len(), 1);
    assert_eq!(msgs[0].kind, MessageKind::ExpectedBaseExpression);
}

#[test]
fn operator_names_in_groups() {
    let mut p = Parser::new(tokens(vec![Token::GroupOpen, Token::Upto, Token::GroupClose]));
    let e = p.parse_base_expr();
    match &e.node {
        ExprNode::Group(inner) => assert!(is_name(inner, "upto")),
        other => panic!("not a group: {:?}", other),
    }
    assert_eq!(e.span, Span::new(0, 3));
}

#[test]
fn an_unclosed_group_is_reported_at_its_opener() {
    let mut p = Parser::new(tokens(vec![Token::GroupOpen, name("a")]));
    let e = p.parse_base_expr();
    assert!(matches!(e.node, ExprNode::Group(_)));
    let msgs = p.take_messages();
    assert_eq!(msgs.len(), 1);
    assert_eq!(msgs[0].kind, MessageKind::UnclosedGroup);
    assert_eq!(msgs[0].span, Span::new(0, 1));
}

#[test]
fn precedence_from_application_to_arrows() {
    // a -> b upto c * d e
    let mut p = Parser::new(tokens(vec![
        name("a"),
        Token::MinArrow,
        name("b"),
        Token::Upto,
        name("c"),
        Token::Star,
        name("d"),
        name("e"),
    ]));
    let e = p.parse_expr();
    let ExprNode::Fun(_, from, to) = &e.node else { panic!("not an arrow: {:?}", e) };
    assert!(is_name(from, "a"));
    let ExprNode::Range(_, low, high) = &to.node else { panic!("not a range: {:?}", to) };
    assert!(is_name(low, "b"));
    let ExprNode::BinOp(_, BinOp::Mul, left, right) = &high.node else { panic!("not a product") };
    assert!(is_name(left, "c"));
    let ExprNode::App(f, x) = &right.node else { panic!("not an application") };
    assert!(is_name(f, "d") && is_name(x, "e"));
    assert_eq!(e.span, Span::new(0, 8));
}

#[test]
fn a_lambda_binds_the_last_argument() {
    // f x => y  reads as  f (x => y)
    let mut p = Parser::new(tokens(vec![name("f"), name("x"), Token::EqArrow, name("y")]));
    let e = p.parse_expr();
    let ExprNode::App(f, lam) = &e.node else { panic!("not an application: {:?}", e) };
    assert!(is_name(f, "f"));
    let ExprNode::Lam(x, y) = &lam.node else { panic!("not a lambda") };
    assert!(is_name(x, "x") && is_name(y, "y"));
    assert_eq!(lam.span, Span::new(1, 4));
}

#[test]
fn tuples_and_annotations() {
    // a : t, b
    let mut p = Parser::new(tokens(vec![name("a"), Token::Colon, name("t"), Token::Comma, name("b")]));
    let e = p.parse_small_expr();
    let ExprNode::Tuple(first, second) = &e.node else { panic!("not a tuple: {:?}", e) };
    assert!(matches!(&first.node, ExprNode::Anno(x, t) if is_name(x, "a") && is_name(t, "t")));
    assert!(is_name(second, "b"));
}

#[test]
fn implicit_arguments_of_an_application() {
    // f |t| x
    let mut p = Parser::new(tokens(vec![name("f"), Token::Pipe, name("t"), Token::Pipe, name("x")]));
    let e = p.parse_expr();
    let ExprNode::App(inst, x) = &e.node else { panic!("not an application: {:?}", e) };
    assert!(is_name(x, "x"));
    assert!(matches!(&inst.node, ExprNode::Inst(f, t) if is_name(f, "f") && is_name(t, "t")));
    assert!(p.take_messages().is_empty());
}

#[test]
fn unclosed_implicits_are_reported() {
    let mut p = Parser::new(tokens(vec![name("f"), Token::Pipe, name("t")]));
    let e = p.parse_expr();
    assert!(matches!(e.node, ExprNode::Inst(_, _)));
    let msgs = p.take_messages();
    assert_eq!(msgs.len(), 1);
    assert_eq!(msgs[0].kind, MessageKind::UnclosedImplicits);
    assert_eq!(msgs[0].span, Span::new(1, 2));
}

#[test]
fn a_let_declaration() {
    let mut p = Parser::new(tokens(vec![Token::Let, name("x"), Token::Equal, Token::Number(1)]));
    let decls = p.parse_program();
    assert_eq!(decls.len(), 1);
    let DeclNode::ValueDecl { pat, bind } = &decls[0].node else { panic!("not a value") };
    assert!(is_name(pat, "x"));
    assert!(matches!(bind.as_ref().map(|b| &b.node), Some(ExprNode::Int(1))));
    assert_eq!(decls[0].span, Span::new(0, 4));
    assert!(p.take_messages().is_empty());
}

#[test]
fn a_function_declaration() {
    // fun f |t| x y : t = x
    let mut p = Parser::new(tokens(vec![
        Token::Fun,
        name("f"),
        Token::Pipe,
        name("t"),
        Token::Pipe,
        name("x"),
        name("y"),
        Token::Colon,
        name("t"),
        Token::Equal,
        name("x"),
    ]));
    let decls = p.parse_program();
    assert_eq!(decls.len(), 1);
    let DeclNode::FunDecl { name: f, implicits, args, anno, bind } = &decls[0].node else {
        panic!("not a function")
    };
    assert!(is_name(f, "f"));
    assert!(implicits.as_ref().is_some_and(|t| is_name(t, "t")));
    assert_eq!(args.len(), 2);
    assert!(is_name(&args[0], "x") && is_name(&args[1], "y"));
    assert!(anno.as_ref().is_some_and(|t| is_name(t, "t")));
    assert!(bind.as_ref().is_some_and(|b| is_name(b, "x")));
    assert_eq!(decls[0].span, Span::new(0, 11));
}

#[test]
fn a_function_span_ends_at_its_last_argument() {
    let mut p = Parser::new(tokens(vec![Token::Fun, name("f"), name("x"), name("y")]));
    let decls = p.parse_program();
    assert_eq!(decls[0].span, Span::new(0, 4));
}

#[test]
fn delimited_declarations_and_groups() {
    // let x ; (let y) ; let z
    let mut p = Parser::new(tokens(vec![
        Token::Let,
        name("x"),
        Token::Delimit,
        Token::GroupOpen,
        Token::Let,
        name("y"),
        Token::GroupClose,
        Token::Delimit,
        Token::Let,
        name("z"),
    ]));
    let decls = p.parse_program();
    assert_eq!(decls.len(), 3);
    assert!(p.take_messages().is_empty());
}

#[test]
fn tokens_between_declarations_are_skipped_and_reported() {
    let mut p = Parser::new(tokens(vec![name("junk"), Token::Comma, Token::Let, name("x")]));
    let decls = p.parse_program();
    assert_eq!(decls.len(), 1);
    let msgs = p.take_messages();
    assert_eq!(msgs.len(), 1);
    assert_eq!(msgs[0].kind, MessageKind::ExpectedDeclaration);
    assert_eq!(msgs[0].span, Span::new(0, 1));
}

#[test]
fn parsing_reads_the_declarations() {
    let r = parse(tokens(vec![Token::Let, name("x"), Token::Equal, Token::Number(1)]));
    let (decls, msgs) = r.expect("readable");
    assert_eq!(decls.values.len(), 1);
    assert!(decls.types.is_empty());
    assert!(msgs.is_empty());
}

#[test]
fn a_product_pattern_cannot_be_read() {
    // let a * b = 1
    let r = parse(tokens(vec![
        Token::Let,
        name("a"),
        Token::Star,
        name("b"),
        Token::Equal,
        Token::Number(1),
    ]));
    assert!(r.is_none());
    assert!(read_decls(Vec::new()).is_some());
}
