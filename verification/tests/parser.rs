use zippy_frontend::ast;
use zippy_frontend::messages::{Message, MessageKind};
use zippy_frontend::parser::abstraction::{abstract_item, extract_annotation};
use zippy_frontend::parser::cst::{Item, ItemNode};
use zippy_frontend::parser::get_ast;
use zippy_frontend::parser::parse::Parser;
use zippy_frontend::parser::tokens::get_tokens;
use zippy_frontend::source::Span;

fn parse_all(source: &str) -> (Vec<Item>, Vec<Message>) {
    let (tokens, _) = get_tokens(source);
    let mut parser = Parser::new(tokens);
    let items = parser.parse_everything();
    (items, parser.take_messages())
}

fn parse_items(source: &str) -> (Vec<Item>, Vec<Message>) {
    let (tokens, _) = get_tokens(source);
    let mut parser = Parser::new(tokens);
    let items = parser.parse_items();
    (items, parser.take_messages())
}

fn item(node: ItemNode, start: usize, end: usize) -> Item {
    Item { node, span: Span::new(start, end) }
}

#[test]
fn parse_let_binding() {
    let (items, messages) = parse_all("let x = 5");
    assert!(messages.is_empty());
    assert_eq!(items.len(), 1);
    match &items[0].node {
        ItemNode::Let { pattern, body } => {
            assert!(matches!(&pattern.node, ItemNode::Name(n) if n == "x"));
            assert_eq!(pattern.span, Span::new(4, 5));
            let body = body.as_ref().unwrap();
            assert!(matches!(&body.node, ItemNode::Number(n) if n == "5"));
            assert_eq!(body.span, Span::new(8, 9));
        }
        other => panic!("unexpected {other:?}"),
    }
    assert_eq!(items[0].span, Span::new(0, 9));
}

#[test]
fn parse_let_without_body() {
    let (items, messages) = parse_all("let x");
    assert!(messages.is_empty());
    assert!(matches!(&items[0].node, ItemNode::Let { body: None, .. }));
}

#[test]
fn parse_several_items() {
    let (items, messages) = parse_all("let x = 1\nlet y = 2; z");
    assert!(messages.is_empty());
    assert_eq!(items.len(), 3);
    assert!(matches!(&items[2].node, ItemNode::Name(n) if n == "z"));
}

#[test]
fn parse_import_path() {
    let (items, messages) = parse_all("import a.b");
    assert!(messages.is_empty());
    match &items[0].node {
        ItemNode::Import(inner) => match &inner.node {
            ItemNode::Path(a, b) => {
                assert!(matches!(&a.node, ItemNode::Name(n) if n == "a"));
                assert!(matches!(&b.node, ItemNode::Name(n) if n == "b"));
            }
            other => panic!("unexpected {other:?}"),
        },
        other => panic!("unexpected {other:?}"),
    }
    assert_eq!(items[0].span, Span::new(0, 10));
}

#[test]
fn parse_annotation() {
    let (items, messages) = parse_all("x : 10");
    assert!(messages.is_empty());
    match &items[0].node {
        ItemNode::Annotation(e, t) => {
            assert!(matches!(&e.node, ItemNode::Name(n) if n == "x"));
            assert!(matches!(&t.node, ItemNode::Number(n) if n == "10"));
        }
        other => panic!("unexpected {other:?}"),
    }
}

#[test]
fn parse_parenthesized_group() {
    let (items, messages) = parse_all("(a; b)");
    assert!(messages.is_empty());
    match &items[0].node {
        ItemNode::Group(inner) => assert_eq!(inner.len(), 2),
        other => panic!("unexpected {other:?}"),
    }
    assert_eq!(items[0].span, Span::new(0, 6));
}

#[test]
fn parse_indented_group() {
    let (items, messages) = parse_all("let x =\n  a\n  b");
    assert!(messages.is_empty());
    match &items[0].node {
        ItemNode::Let { body: Some(body), .. } => match &body.node {
            ItemNode::Group(inner) => assert_eq!(inner.len(), 2),
            other => panic!("unexpected {other:?}"),
        },
        other => panic!("unexpected {other:?}"),
    }
}

#[test]
fn parse_unclosed_parenthesis() {
    let (items, messages) = parse_all("(a");
    assert_eq!(items.len(), 1);
    assert_eq!(messages.len(), 1);
    assert_eq!(messages[0].kind, MessageKind::UnclosedParenthesis);
    assert_eq!(messages[0].span, Span::new(0, 1));
}

#[test]
fn parse_let_without_pattern() {
    let (items, messages) = parse_all("let");
    assert_eq!(items.len(), 1);
    assert!(matches!(items[0].node, ItemNode::Invalid));
    assert_eq!(messages[0].kind, MessageKind::ExpectedPattern);
    assert_eq!(messages[0].span, Span::new(0, 3));
}

#[test]
fn parse_let_missing_body_after_equal() {
    let (items, messages) = parse_all("let x =");
    assert_eq!(messages.len(), 1);
    assert_eq!(messages[0].kind, MessageKind::ExpectedExpression);
    assert_eq!(messages[0].span, Span::new(6, 7));
    assert!(matches!(&items[0].node, ItemNode::Let { body: Some(b), .. } if matches!(b.node, ItemNode::Invalid)));
}

#[test]
fn parse_path_missing_name() {
    let (_, messages) = parse_all("a.");
    assert_eq!(messages.len(), 1);
    assert_eq!(messages[0].kind, MessageKind::ExpectedName);
    assert_eq!(messages[0].span, Span::new(1, 2));
}

#[test]
fn parse_skips_stray_tokens() {
    let (items, messages) = parse_all(") = x");
    assert_eq!(items.len(), 1);
    assert_eq!(messages.len(), 1);
    assert_eq!(messages[0].kind, MessageKind::ExpectedItem);
    assert_eq!(messages[0].span, Span::new(0, 3));
}

#[test]
fn parse_items_stops_at_stray_token() {
    let (items, messages) = parse_items("a ) b");
    assert_eq!(items.len(), 1);
    assert!(messages.is_empty());
}

#[test]
fn parse_annotation_at_end_of_block_does_not_panic() {
    let (items, _) = parse_all("foo\n  x:");
    assert!(!items.is_empty());
}

#[test]
fn abstract_let_with_annotation() {
    let (items, messages) = get_ast("let x : 10 = 5");
    assert!(messages.is_empty());
    assert_eq!(items.len(), 1);
    match &items[0] {
        ast::Item::Let { pattern, anno, body } => {
            assert!(matches!(&pattern.node, ast::PatternNode::Name(id) if id.name == "x"));
            let anno = anno.as_ref().unwrap();
            match &anno.node {
                ast::TypeNode::Range { clusivity, lower, upper } => {
                    assert_eq!(*clusivity, ast::Clusivity::exclusive());
                    assert!(matches!(&lower.node, ast::ExpressionNode::Number(n) if n == "0"));
                    assert!(matches!(&upper.node, ast::ExpressionNode::Number(n) if n == "10"));
                }
                other => panic!("unexpected {other:?}"),
            }
            let body = body.as_ref().unwrap();
            assert!(matches!(&body.node, ast::ExpressionNode::Number(n) if n == "5"));
        }
    }
}

#[test]
fn abstract_reports_non_items() {
    let (items, messages) = get_ast("x");
    assert!(items.is_empty());
    assert_eq!(messages.len(), 1);
    assert_eq!(messages[0].kind, MessageKind::ExpectedItem);
}

#[test]
fn abstract_bad_type() {
    let (items, messages) = get_ast("let x : y = 1");
    assert_eq!(items.len(), 1);
    assert_eq!(messages.len(), 1);
    assert_eq!(messages[0].kind, MessageKind::ExpectedType);
    assert_eq!(messages[0].span, Span::new(8, 9));
}

#[test]
fn abstract_block_and_unit() {
    let (items, messages) = get_ast("let x = (a; 1)\nlet y = ()");
    assert!(messages.is_empty());
    match &items[0] {
        ast::Item::Let { body: Some(body), .. } => match &body.node {
            ast::ExpressionNode::Block(exprs) => assert_eq!(exprs.len(), 2),
            other => panic!("unexpected {other:?}"),
        },
        other => panic!("unexpected {other:?}"),
    }
    match &items[1] {
        ast::Item::Let { body: Some(body), .. } => {
            assert!(matches!(body.node, ast::ExpressionNode::Unit))
        }
        other => panic!("unexpected {other:?}"),
    }
}

#[test]
fn extract_annotation_through_group() {
    let inner = item(
        ItemNode::Annotation(
            Box::new(item(ItemNode::Name("x".into()), 1, 2)),
            Box::new(item(ItemNode::Number("3".into()), 5, 6)),
        ),
        1,
        6,
    );
    let group = item(ItemNode::Group(vec![inner]), 0, 7);
    let mut messages = Vec::new();
    let (left, ty) = extract_annotation(group, &mut messages);
    assert!(messages.is_empty());
    assert!(matches!(&left.node, ItemNode::Name(n) if n == "x"));
    let ty = ty.unwrap();
    assert_eq!(ty.span, Span::new(5, 6));
}

#[test]
fn extract_annotation_without_one() {
    let mut messages = Vec::new();
    let (left, ty) = extract_annotation(item(ItemNode::Name("x".into()), 0, 1), &mut messages);
    assert!(ty.is_none());
    assert!(matches!(&left.node, ItemNode::Name(n) if n == "x"));
}

#[test]
fn abstract_invalid_item_is_silent() {
    let mut messages = Vec::new();
    assert!(abstract_item(item(ItemNode::Invalid, 0, 1), &mut messages).is_none());
    assert!(messages.is_empty());
}

#[test]
fn parse_indented_group_skips_to_its_dedent() {
    let (items, messages) = parse_all("let x =\n  a )\nb");
    assert_eq!(messages.len(), 1);
    assert_eq!(messages[0].kind, MessageKind::ExpectedItem);
    assert_eq!(messages[0].span, Span::new(12, 13));
    assert_eq!(items.len(), 2);
    match &items[0].node {
        ItemNode::Let { body: Some(body), .. } => match &body.node {
            ItemNode::Group(inner) => assert_eq!(inner.len(), 1),
            other => panic!("unexpected {other:?}"),
        },
        other => panic!("unexpected {other:?}"),
    }
}
