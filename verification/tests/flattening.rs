use zippy_frontend::ast::Clusivity;
use zippy_frontend::flattened::{self, ExpressionNode as F};
use zippy_frontend::flattening::{flatten_module, Flattener};
use zippy_frontend::invalid::Reason;
use zippy_frontend::names::{ItemName, LocalName, Name, RawName};
use zippy_frontend::resolved::{
    Alias, Expression, ExpressionNode as R, Identifier, Import, ImportedName, Item, Module,
    ModulePart, Pattern, PatternNode, Type, TypeNode,
};
use zippy_frontend::source::Span;

fn sp(a: usize) -> Span {
    Span::new(a, a + 1)
}

fn expr(node: R, at: usize) -> Expression {
    Expression { node, span: sp(at) }
}

fn let_item(name: usize, body: Option<Expression>) -> Item {
    Item::Let {
        pattern: Pattern { node: PatternNode::Name(ItemName(name)), span: sp(0) },
        anno: None,
        body,
    }
}

#[test]
fn flatten_item_with_nested_expression() {
    let mut flattener = Flattener::new(ItemName(0));
    let body = expr(
        R::Annotate(
            Box::new(expr(R::Number("5".into()), 2)),
            Box::new(Type {
                node: TypeNode::Range {
                    clusivity: Clusivity::exclusive(),
                    lower: Box::new(expr(R::Number("0".into()), 3)),
                    upper: Box::new(expr(R::Number("10".into()), 4)),
                },
                span: sp(3),
            }),
        ),
        1,
    );
    let index = flattener.flatten_item(&let_item(7, Some(body)));
    let module = flattener.finish(vec![index], vec![]);
    let item = module.item(&index);
    let body = match item {
        flattened::Item::Let { body: Some(body), pattern, .. } => {
            assert!(matches!(pattern.node, flattened::PatternNode::Name(ItemName(7))));
            *body
        }
        other => panic!("unexpected {other:?}"),
    };
    let body = module.type_expression(&body);
    assert_eq!(body.span, sp(1));
    match &body.node {
        F::Annotate(inner, ty) => {
            assert!(matches!(&module.type_expression(inner).node, F::Number(n) if n == "5"));
            match &ty.node {
                flattened::TypeNode::Range { lower, upper, .. } => {
                    assert!(matches!(&module.type_expression(lower).node, F::Number(n) if n == "0"));
                    assert!(matches!(&module.type_expression(upper).node, F::Number(n) if n == "10"));
                }
                other => panic!("unexpected {other:?}"),
            }
        }
        other => panic!("unexpected {other:?}"),
    }
    assert_eq!(module.items.names_of(&index), &vec![ItemName(7)]);
}

#[test]
fn flatten_import_keeps_names() {
    let mut flattener = Flattener::new(ItemName(0));
    let name = ImportedName {
        span: sp(5),
        name: Identifier { span: sp(5), name: RawName(1) },
        alias: Alias { name: RawName(2), defined: sp(5) },
    };
    let import = Import { from: expr(R::Name(Name::Item(ItemName(3))), 1), names: vec![name] };
    let index = flattener.flatten_import(&import);
    let module = flattener.finish(vec![], vec![index]);
    let flat = module.import(&index);
    assert_eq!(flat.names, vec![name]);
    assert!(matches!(module.type_expression(&flat.from).node, F::Name(Name::Item(ItemName(3)))));
}

#[test]
fn flatten_entry_and_block() {
    let inner = let_item(9, Some(expr(R::Unit, 6)));
    let entry = expr(R::Entry { items: vec![inner], imports: vec![] }, 5);
    let block = expr(
        R::Block(vec![entry, expr(R::Alias(Alias { name: RawName(4), defined: sp(8) }), 8)]),
        4,
    );
    let local = expr(
        R::Let {
            pattern: Pattern { node: PatternNode::Name(LocalName(1)), span: sp(3) },
            anno: None,
            body: Some(Box::new(block)),
        },
        3,
    );
    let module = flatten_module(&Module {
        name: ItemName(0),
        parts: vec![ModulePart { imports: vec![], items: vec![let_item(1, Some(local))] }],
    });
    assert_eq!(module.entry.items.len(), 1);
    let top = match module.item(&module.entry.items[0]) {
        flattened::Item::Let { body: Some(b), .. } => *b,
        other => panic!("unexpected {other:?}"),
    };
    let block = match &module.type_expression(&top).node {
        F::Let { body: Some(b), pattern, .. } => {
            assert!(matches!(pattern.node, flattened::PatternNode::Name(LocalName(1))));
            *b
        }
        other => panic!("unexpected {other:?}"),
    };
    match &module.type_expression(&block).node {
        F::Block(exprs) => {
            assert_eq!(exprs.len(), 2);
            match &module.type_expression(&exprs[0]).node {
                F::Entry(entry) => {
                    assert_eq!(entry.items.len(), 1);
                    assert!(matches!(module.item(&entry.items[0]), flattened::Item::Let { .. }));
                }
                other => panic!("unexpected {other:?}"),
            }
            assert!(matches!(module.type_expression(&exprs[1]).node, F::Alias(_)));
        }
        other => panic!("unexpected {other:?}"),
    }
}

#[test]
fn flatten_module_orders_parts() {
    let import = Import { from: expr(R::Invalid(Reason::NameError), 0), names: vec![] };
    let module = flatten_module(&Module {
        name: ItemName(5),
        parts: vec![
            ModulePart { imports: vec![import], items: vec![let_item(1, None)] },
            ModulePart { imports: vec![], items: vec![let_item(2, None), let_item(3, None)] },
        ],
    });
    assert_eq!(module.name, ItemName(5));
    assert_eq!(module.entry.items.len(), 3);
    assert_eq!(module.entry.imports.len(), 1);
    for (k, expected) in [1usize, 2, 3].iter().enumerate() {
        match module.item(&module.entry.items[k]) {
            flattened::Item::Let { pattern, .. } => {
                assert!(matches!(pattern.node, flattened::PatternNode::Name(ItemName(n)) if n == *expected))
            }
        }
    }
    let import = module.import(&module.entry.imports[0]);
    assert!(matches!(module.type_expression(&import.from).node, F::Invalid(Reason::NameError)));
}
