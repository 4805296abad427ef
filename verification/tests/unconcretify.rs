use zippy_frontend::hir::{BindId, ExprNode, PatNode, TypeNode};
use zippy_frontend::messages::MessageKind;
use zippy_frontend::parse::tree::{BinOp, Decl, DeclNode, Expr, ExprNode as C};
use zippy_frontend::parse::unconcretify::{binop_to_name, unconc_list, Unconcretifier};
use zippy_frontend::source::Span;

fn e(node: C, start: usize) -> Expr {
    Expr { node, span: Span::new(start, start + 1) }
}

fn name(n: &str, at: usize) -> Expr {
    e(C::Name(n.to_string()), at)
}

fn num(i: u64, at: usize) -> Expr {
    e(C::Int(i), at)
}

fn decl(node: DeclNode) -> Decl {
    Decl { node, span: Span::new(0, 100) }
}

#[test]
fn binop_names() {
    assert_eq!(binop_to_name(BinOp::Mul), "*");
}

#[test]
fn list_of_tuples() {
    let t = e(C::Tuple(Box::new(name("a", 0)), Box::new(e(C::Tuple(Box::new(name("b", 2)), Box::new(name("c", 4))), 2))), 0);
    let list = unconc_list(t);
    assert_eq!(list.len(), 3);
    assert!(matches!(&list[0].node, C::Name(n) if n == "a"));
    assert!(matches!(&list[1].node, C::Name(n) if n == "b"));
    assert!(matches!(&list[2].node, C::Name(n) if n == "c"));
}

#[test]
fn list_of_left_nested_tuples_keeps_groups_whole() {
    // (a, b), c, d, (e, f) as the parser builds it
    let pair = |x: &str, y: &str, at: usize| {
        e(C::Group(Box::new(e(C::Tuple(Box::new(name(x, at)), Box::new(name(y, at + 2))), at))), at)
    };
    let t1 = e(C::Tuple(Box::new(pair("a", "b", 0)), Box::new(name("c", 6))), 0);
    let t2 = e(C::Tuple(Box::new(t1), Box::new(name("d", 8))), 0);
    let t = e(C::Tuple(Box::new(t2), Box::new(pair("e", "f", 10))), 0);
    let list = unconc_list(t);
    assert_eq!(list.len(), 4);
    assert!(matches!(&list[0].node, C::Group(_)));
    assert!(matches!(&list[1].node, C::Name(n) if n == "c"));
    assert!(matches!(&list[2].node, C::Name(n) if n == "d"));
    assert!(matches!(&list[3].node, C::Group(_)));
}

#[test]
fn list_of_one() {
    let list = unconc_list(name("a", 0));
    assert_eq!(list.len(), 1);
}

#[test]
fn type_declaration() {
    let mut u = Unconcretifier::new();
    let decls = u.unconcretify(vec![decl(DeclNode::TypeDecl { pat: name("T", 1), bind: Some(num(5, 3)) })]);
    assert!(u.take_messages().is_empty());
    assert_eq!(decls.types.len(), 1);
    assert!(decls.values.is_empty());
    let t = &decls.types[0];
    assert!(matches!(&t.pat.node, PatNode::Name(n) if n == "T"));
    assert!(matches!(t.bind.node, TypeNode::Range(0, 5)));
    assert!(matches!(t.anno.node, TypeNode::Wildcard));
    assert_eq!(t.id, BindId(0));
}

#[test]
fn type_declaration_without_body() {
    let mut u = Unconcretifier::new();
    let decls = u.unconcretify(vec![decl(DeclNode::TypeDecl { pat: name("T", 1), bind: None })]);
    assert!(matches!(decls.types[0].bind.node, TypeNode::Type));
    assert_eq!(decls.types[0].bind.span, Span::new(1, 2));
}

#[test]
fn type_declaration_with_implicits() {
    let mut u = Unconcretifier::new();
    let pat = e(C::Inst(Box::new(name("T", 1)), Box::new(name("a", 3))), 1);
    let _ = u.unconcretify(vec![decl(DeclNode::TypeDecl { pat, bind: None })]);
    let messages = u.take_messages();
    assert_eq!(messages.len(), 1);
    assert_eq!(messages[0].kind, MessageKind::TypesTakeNoImplicits);
    assert_eq!(messages[0].span, Span::new(3, 4));
}

#[test]
fn value_declaration_with_range() {
    let mut u = Unconcretifier::new();
    let bind = e(C::Range(Span::new(10, 12), Box::new(num(1, 9)), Box::new(num(2, 13))), 9);
    let pat = e(C::Anno(Box::new(name("x", 1)), Box::new(name("Int", 3))), 1);
    let decls = u.unconcretify(vec![decl(DeclNode::ValueDecl { pat, bind: Some(bind) })]);
    assert!(u.take_messages().is_empty());
    let v = &decls.values[0];
    match &v.pat.node {
        PatNode::Anno(p, t) => {
            assert!(matches!(&p.node, PatNode::Name(n) if n == "x"));
            assert!(matches!(&t.node, TypeNode::Name(n) if n == "Int"));
        }
        other => panic!("unexpected {other:?}"),
    }
    match &v.bind.node {
        ExprNode::App(f, hi) => {
            assert!(matches!(hi.node, ExprNode::Int(2)));
            assert_eq!(f.span, Span::new(9, 12));
            match &f.node {
                ExprNode::App(g, lo) => {
                    assert!(matches!(&g.node, ExprNode::Name(n) if n == "upto"));
                    assert_eq!(g.span, Span::new(10, 12));
                    assert!(matches!(lo.node, ExprNode::Int(1)));
                }
                other => panic!("unexpected {other:?}"),
            }
        }
        other => panic!("unexpected {other:?}"),
    }
    assert_eq!(v.id, BindId(0));
}

#[test]
fn value_declaration_without_body_is_invalid() {
    let mut u = Unconcretifier::new();
    let decls = u.unconcretify(vec![decl(DeclNode::ValueDecl { pat: name("x", 1), bind: None })]);
    assert!(matches!(decls.values[0].bind.node, ExprNode::Invalid));
    assert_eq!(decls.values[0].bind.span, Span::new(0, 100));
}

#[test]
fn function_declaration() {
    let mut u = Unconcretifier::new();
    let implicits = e(C::Tuple(Box::new(name("a", 5)), Box::new(num(3, 7))), 5);
    let decls = u.unconcretify(vec![decl(DeclNode::FunDecl {
        name: name("f", 1),
        implicits: Some(implicits),
        args: vec![name("x", 10), name("y", 12)],
        anno: None,
        bind: Some(name("x", 20)),
    })]);
    let messages = u.take_messages();
    assert_eq!(messages.len(), 1);
    assert_eq!(messages[0].kind, MessageKind::NotATypeName);
    assert_eq!(messages[0].span, Span::new(7, 8));
    let v = &decls.values[0];
    assert_eq!(v.implicits, vec![("a".to_string(), Span::new(5, 6))]);
    assert_eq!(v.id, BindId(2));
    match &v.bind.node {
        ExprNode::Lam(id, p, inner) => {
            assert_eq!(*id, BindId(1));
            assert!(matches!(&p.node, PatNode::Name(n) if n == "x"));
            match &inner.node {
                ExprNode::Lam(id, p, core) => {
                    assert_eq!(*id, BindId(0));
                    assert!(matches!(&p.node, PatNode::Name(n) if n == "y"));
                    match &core.node {
                        ExprNode::Anno(body, ty) => {
                            assert!(matches!(&body.node, ExprNode::Name(n) if n == "x"));
                            assert!(matches!(ty.node, TypeNode::Wildcard));
                            assert_eq!(ty.span, Span::new(1, 2));
                        }
                        other => panic!("unexpected {other:?}"),
                    }
                }
                other => panic!("unexpected {other:?}"),
            }
        }
        other => panic!("unexpected {other:?}"),
    }
}

#[test]
fn function_with_implicit_name_is_reported_once() {
    let mut u = Unconcretifier::new();
    let fname = e(C::Inst(Box::new(name("f", 1)), Box::new(name("a", 3))), 1);
    let arg = e(C::Inst(Box::new(name("x", 10)), Box::new(name("b", 11))), 10);
    let _ = u.unconcretify(vec![decl(DeclNode::FunDecl {
        name: fname,
        implicits: None,
        args: vec![arg],
        anno: None,
        bind: None,
    })]);
    let messages = u.take_messages();
    assert_eq!(messages.len(), 1);
    assert_eq!(messages[0].kind, MessageKind::DisallowedImplicits);
    assert_eq!(messages[0].span, Span::new(3, 4));
}

#[test]
fn lambda_with_implicits() {
    let mut u = Unconcretifier::new();
    let pat = e(C::Inst(Box::new(name("x", 1)), Box::new(name("t", 2))), 1);
    let lam = e(C::Lam(Box::new(pat), Box::new(name("x", 5))), 0);
    let decls = u.unconcretify(vec![decl(DeclNode::ValueDecl { pat: name("f", 0), bind: Some(lam) })]);
    let messages = u.take_messages();
    assert_eq!(messages.len(), 1);
    assert_eq!(messages[0].kind, MessageKind::GenericLambda);
    assert_eq!(messages[0].span, Span::new(2, 3));
    assert!(matches!(decls.values[0].bind.node, ExprNode::Lam(BindId(0), _, _)));
    assert_eq!(decls.values[0].id, BindId(1));
}

#[test]
fn type_in_expression_is_reported() {
    let mut u = Unconcretifier::new();
    let _ = u.unconcretify(vec![decl(DeclNode::ValueDecl { pat: name("x", 0), bind: Some(e(C::Type, 4)) })]);
    let messages = u.take_messages();
    assert_eq!(messages[0].kind, MessageKind::ExpectedExpression);
    assert_eq!(messages[0].span, Span::new(4, 5));
}

#[test]
fn range_bounds_must_be_numbers() {
    let mut u = Unconcretifier::new();
    let ty = e(C::Range(Span::new(5, 6), Box::new(num(1, 3)), Box::new(name("n", 8))), 3);
    let decls = u.unconcretify(vec![decl(DeclNode::TypeDecl { pat: name("T", 0), bind: Some(ty) })]);
    let messages = u.take_messages();
    assert_eq!(messages.len(), 1);
    assert_eq!(messages[0].kind, MessageKind::RangeNotAnInt);
    assert_eq!(messages[0].span, Span::new(8, 9));
    assert!(matches!(decls.types[0].bind.node, TypeNode::Invalid));
}

#[test]
fn product_and_function_types() {
    let mut u = Unconcretifier::new();
    let prod = e(C::BinOp(Span::new(2, 3), BinOp::Mul, Box::new(name("a", 1)), Box::new(name("b", 4))), 1);
    let fun = e(C::Fun(Span::new(6, 8), Box::new(e(C::Group(Box::new(prod)), 0)), Box::new(e(C::Wildcard, 9))), 0);
    let decls = u.unconcretify(vec![decl(DeclNode::TypeDecl { pat: name("T", 0), bind: Some(fun) })]);
    assert!(u.take_messages().is_empty());
    match &decls.types[0].bind.node {
        TypeNode::Fun(a, b) => {
            assert!(matches!(a.node, TypeNode::Prod(_, _)));
            assert!(matches!(b.node, TypeNode::Wildcard));
        }
        other => panic!("unexpected {other:?}"),
    }
}

#[test]
fn binding_numbers_count_up_across_declarations() {
    let mut u = Unconcretifier::new();
    let decls = u.unconcretify(vec![
        decl(DeclNode::ValueDecl { pat: name("x", 0), bind: Some(num(1, 4)) }),
        decl(DeclNode::TypeDecl { pat: name("T", 0), bind: None }),
        decl(DeclNode::ValueDecl { pat: name("y", 0), bind: None }),
    ]);
    assert_eq!(decls.values[0].id, BindId(0));
    assert_eq!(decls.types[0].id, BindId(1));
    assert_eq!(decls.values[1].id, BindId(2));
}
