use zippy_frontend::ast::{
    AstSource, Expression, ExpressionNode, Identifier, Import, ImportedName, Item, Pattern,
    PatternNode,
};
use zippy_frontend::invalid::Reason;
use zippy_frontend::messages::{Message, MessageKind};
use zippy_frontend::names::declare::declared_names;
use zippy_frontend::names::resolve::resolve_module;
use zippy_frontend::names::{ItemName, Name, NameDb};
use zippy_frontend::parser::get_ast;
use zippy_frontend::resolved;
use zippy_frontend::source::Span;

fn sp(a: usize) -> Span {
    Span::new(a, a + 1)
}

fn ident(name: &str, at: usize) -> Identifier {
    Identifier { span: sp(at), name: name.to_string() }
}

fn name_expr(name: &str, at: usize) -> Expression {
    Expression { node: ExpressionNode::Name(ident(name, at)), span: sp(at) }
}

fn number(text: &str, at: usize) -> Expression {
    Expression { node: ExpressionNode::Number(text.to_string()), span: sp(at) }
}

fn let_item(name: &str, at: usize, body: Expression) -> Item {
    Item::Let {
        pattern: Pattern { node: PatternNode::Name(ident(name, at)), span: sp(at) },
        anno: None,
        body: Some(body),
    }
}

fn source(items: Vec<Item>, imports: Vec<Import>) -> Vec<AstSource> {
    vec![AstSource { items, imports }]
}

fn main_module(db: &mut NameDb) -> ItemName {
    db.module(None, &"main".to_string())
}

fn pattern_name(item: &resolved::Item) -> ItemName {
    let resolved::Item::Let { pattern, .. } = item;
    match pattern.node {
        resolved::PatternNode::Name(name) => name,
        _ => panic!("not a name"),
    }
}

fn body(item: &resolved::Item) -> &resolved::Expression {
    let resolved::Item::Let { body, .. } = item;
    body.as_ref().unwrap()
}

#[test]
fn same_text_gives_same_raw_name() {
    let mut db = NameDb::new();
    let a = db.table.raw(&"a".to_string());
    let b = db.table.raw(&"b".to_string());
    let a2 = db.table.raw(&"a".to_string());
    assert_eq!(a, a2);
    assert_ne!(a, b);
    assert_eq!(db.table.text(a), "a");
    let x = db.table.item(None, a);
    let y = db.table.item(None, b);
    let x2 = db.table.item(None, a2);
    assert_eq!(x, x2);
    assert_ne!(x, y);
}

#[test]
fn declare_two_items() {
    let mut db = NameDb::new();
    let main = main_module(&mut db);
    let sources = source(vec![let_item("x", 0, number("1", 1)), let_item("y", 2, name_expr("x", 3))], vec![]);
    let names = declared_names(&mut db, main, &sources);
    assert_eq!(names.len(), 2);
    assert_eq!(names[0].1, sp(0));
    assert_eq!(names[1].1, sp(2));
    assert_ne!(names[0].0, names[1].0);
    assert!(db.messages.is_empty());
}

#[test]
fn resolve_reference_to_item() {
    let mut db = NameDb::new();
    let main = main_module(&mut db);
    let sources = source(vec![let_item("x", 0, number("1", 1)), let_item("y", 2, name_expr("x", 3))], vec![]);
    let module = resolve_module(&mut db, main, &sources);
    assert_eq!(module.name, main);
    assert_eq!(module.parts.len(), 1);
    let items = &module.parts[0].items;
    let x = pattern_name(&items[0]);
    let y = pattern_name(&items[1]);
    assert_ne!(x, y);
    assert!(matches!(body(&items[1]).node, resolved::ExpressionNode::Name(Name::Item(n)) if n == x));
    assert!(matches!(&body(&items[0]).node, resolved::ExpressionNode::Number(s) if s == "1"));
    assert!(db.messages.is_empty());
}

#[test]
fn duplicate_definition_is_reported() {
    let mut db = NameDb::new();
    let main = main_module(&mut db);
    let sources = source(vec![let_item("x", 0, number("1", 1)), let_item("x", 2, number("2", 3))], vec![]);
    let names = declared_names(&mut db, main, &sources);
    assert_eq!(names.len(), 1);
    assert_eq!(names[0].1, sp(0));
    assert_eq!(
        db.messages,
        vec![Message { kind: MessageKind::DuplicateDefinition { previous: sp(0) }, span: sp(2) }]
    );
}

#[test]
fn unresolved_name_is_reported() {
    let mut db = NameDb::new();
    let main = main_module(&mut db);
    let sources = source(vec![let_item("y", 0, name_expr("z", 1))], vec![]);
    let module = resolve_module(&mut db, main, &sources);
    let items = &module.parts[0].items;
    assert!(matches!(body(&items[0]).node, resolved::ExpressionNode::Invalid(Reason::NameError)));
    assert_eq!(
        db.messages,
        vec![Message { kind: MessageKind::UnresolvedName("z".to_string()), span: sp(1) }]
    );
}

#[test]
fn module_names_resolve() {
    let mut db = NameDb::new();
    let other = db.module(None, &"other".to_string());
    let main = main_module(&mut db);
    let sources = source(vec![let_item("y", 0, name_expr("other", 1))], vec![]);
    let module = resolve_module(&mut db, main, &sources);
    let items = &module.parts[0].items;
    assert!(matches!(body(&items[0]).node, resolved::ExpressionNode::Name(Name::Item(n)) if n == other));
    assert!(db.messages.is_empty());
}

#[test]
fn item_named_like_a_module_is_reported() {
    let mut db = NameDb::new();
    let main = main_module(&mut db);
    let _sub = db.module(Some(main), &"sub".to_string());
    let sources = source(vec![let_item("sub", 4, number("1", 5))], vec![]);
    let names = declared_names(&mut db, main, &sources);
    assert_eq!(names.len(), 1);
    assert_eq!(db.messages, vec![Message { kind: MessageKind::DuplicateModuleDefinition, span: sp(4) }]);
}

fn import(from: Option<Expression>, name: &str, alias: &str, at: usize) -> Import {
    Import {
        from,
        names: vec![ImportedName { span: sp(at), name: ident(name, at), alias: ident(alias, at + 1) }],
        span: sp(at),
    }
}

#[test]
fn imported_alias_resolves() {
    let mut db = NameDb::new();
    let other = db.module(None, &"other".to_string());
    let main = main_module(&mut db);
    let sources = source(
        vec![let_item("y", 0, name_expr("b", 1))],
        vec![import(Some(name_expr("other", 6)), "a", "b", 7)],
    );
    let module = resolve_module(&mut db, main, &sources);
    let part = &module.parts[0];
    assert_eq!(part.imports.len(), 1);
    assert!(matches!(part.imports[0].from.node, resolved::ExpressionNode::Name(Name::Item(n)) if n == other));
    let imported = part.imports[0].names[0];
    assert_eq!(db.table.text(imported.name.name), "a");
    assert_eq!(db.table.text(imported.alias.name), "b");
    assert_eq!(imported.alias.defined, sp(7));
    match body(&part.items[0]).node {
        resolved::ExpressionNode::Alias(alias) => {
            assert_eq!(alias, imported.alias);
        }
        _ => panic!("the name should refer to the alias"),
    }
    assert!(db.messages.is_empty());
}

#[test]
fn bare_import_is_reported_and_dropped() {
    let mut db = NameDb::new();
    let main = main_module(&mut db);
    let sources = source(vec![], vec![import(None, "a", "b", 3)]);
    let module = resolve_module(&mut db, main, &sources);
    assert!(module.parts[0].imports.is_empty());
    assert_eq!(db.messages, vec![Message { kind: MessageKind::BareImportUnsupported, span: sp(3) }]);
}

#[test]
fn duplicate_alias_and_item_are_reported() {
    let mut db = NameDb::new();
    let other = db.module(None, &"other".to_string());
    let _ = other;
    let main = main_module(&mut db);
    let sources = source(
        vec![let_item("b", 0, number("1", 1))],
        vec![
            import(Some(name_expr("other", 10)), "a", "b", 11),
            import(Some(name_expr("other", 20)), "c", "b", 21),
        ],
    );
    let _names = declared_names(&mut db, main, &sources);
    assert_eq!(
        db.messages,
        vec![
            Message { kind: MessageKind::DuplicateDefinition { previous: sp(11) }, span: sp(21) },
            Message { kind: MessageKind::DuplicateDefinition { previous: sp(11) }, span: sp(0) },
        ]
    );
}

#[test]
fn entry_items_are_scoped_within_their_binding() {
    let mut db = NameDb::new();
    let main = main_module(&mut db);
    let entry = Expression {
        node: ExpressionNode::Entry { items: vec![let_item("z", 2, name_expr("x", 3))], imports: vec![] },
        span: sp(1),
    };
    let sources = source(
        vec![let_item("x", 0, number("1", 9)), let_item("e", 1, entry), let_item("w", 5, name_expr("z", 6))],
        vec![],
    );
    let names = declared_names(&mut db, main, &sources);
    assert_eq!(names.len(), 4);
    db.messages.clear();
    let module = resolve_module(&mut db, main, &sources);
    let items = &module.parts[0].items;
    let x = pattern_name(&items[0]);
    match &body(&items[1]).node {
        resolved::ExpressionNode::Entry { items: inner, imports } => {
            assert!(imports.is_empty());
            let z = pattern_name(&inner[0]);
            assert_ne!(z, x);
            assert!(matches!(body(&inner[0]).node, resolved::ExpressionNode::Name(Name::Item(n)) if n == x));
        }
        _ => panic!("expected an entry"),
    }
    assert!(matches!(body(&items[2]).node, resolved::ExpressionNode::Invalid(Reason::NameError)));
    assert_eq!(
        db.messages,
        vec![Message { kind: MessageKind::UnresolvedName("z".to_string()), span: sp(6) }]
    );
}

#[test]
fn parsed_source_resolves() {
    let (items, messages) = get_ast("let x = 1\nlet y = x\n");
    assert!(messages.is_empty());
    let mut db = NameDb::new();
    let main = main_module(&mut db);
    let sources = vec![AstSource { items, imports: vec![] }];
    let module = resolve_module(&mut db, main, &sources);
    let items = &module.parts[0].items;
    assert_eq!(items.len(), 2);
    let x = pattern_name(&items[0]);
    assert!(matches!(body(&items[1]).node, resolved::ExpressionNode::Name(Name::Item(n)) if n == x));
    assert!(db.messages.is_empty());
}
