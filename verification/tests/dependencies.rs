use zippy_frontend::checked::{Expression, ExpressionNode, Item, ItemIndex, Pattern, PatternNode, Program, Type};
use zippy_frontend::dependencies::get_dependencies;
use zippy_frontend::names::{ItemName, Name, NameTable};
use zippy_frontend::source::Span;

fn sp(a: usize) -> Span {
    Span::new(a, a + 1)
}

fn expr(node: ExpressionNode, data: Type) -> Expression {
    Expression { node, data, span: sp(0) }
}

fn let_item(name: usize, body: Expression) -> Item {
    Item::Let {
        pattern: Pattern { node: PatternNode::Name(ItemName(name)), data: Type::Number, span: sp(1) },
        body: Some(body),
    }
}

fn sorted(mut v: Vec<ItemIndex>) -> Vec<usize> {
    v.sort_by_key(|i| i.0);
    v.into_iter().map(|i| i.0).collect()
}

#[test]
fn mutual_references_form_one_component() {
    let table = NameTable::new();
    let mut program = Program::new();
    let a = program.reserve_item();
    let b = program.reserve_item();
    let c = program.reserve_item();
    assert_eq!((a, b, c), (ItemIndex(0), ItemIndex(1), ItemIndex(2)));
    program.add_item_for(a, let_item(10, expr(ExpressionNode::Item(b), Type::Number)));
    program.add_item_for(b, let_item(11, expr(ExpressionNode::Name(Name::Item(ItemName(10))), Type::Number)));
    program.add_item_for(
        c,
        Item::Bound {
            body: expr(
                ExpressionNode::Number("1".to_string()),
                Type::Range { clusivity: zippy_frontend::ast::Clusivity::exclusive(), lower: a, upper: a },
            ),
        },
    );
    let deps = get_dependencies(&table, &program);
    assert_eq!(deps.graph.len(), 3);
    assert_eq!(deps.graph[0].0, a);
    assert_eq!(sorted(deps.graph[0].1.clone()), vec![1]);
    assert_eq!(sorted(deps.graph[1].1.clone()), vec![0]);
    assert_eq!(sorted(deps.graph[2].1.clone()), vec![0]);
    let mut order: Vec<Vec<usize>> = deps.order.iter().map(|c| sorted(c.clone())).collect();
    order.sort();
    assert_eq!(order, vec![vec![0, 1], vec![2]]);
    assert_eq!(deps.names, vec![(a, vec![ItemName(10)]), (b, vec![ItemName(11)])]);
    // An item comes no earlier than what it depends on.
    let component_of = |x: ItemIndex| deps.order.iter().position(|comp| comp.contains(&x)).unwrap();
    for (index, depends) in deps.graph.iter() {
        for x in depends.iter() {
            assert!(component_of(*x) <= component_of(*index));
        }
    }
    assert!(component_of(a) < component_of(c));
}

#[test]
fn trait_fields_and_entries_are_dependencies() {
    let table = NameTable::new();
    let mut program = Program::new();
    let a = program.reserve_item();
    let b = program.reserve_item();
    program.add_item_for(a, let_item(20, expr(ExpressionNode::Number("5".to_string()), Type::Number)));
    let entry = expr(
        ExpressionNode::Entry(zippy_frontend::checked::Entry { items: vec![a, a] }),
        Type::Trait { values: vec![ItemName(20), ItemName(99)] },
    );
    program.add_item_for(b, let_item(21, entry));
    let deps = get_dependencies(&table, &program);
    assert_eq!(deps.graph[1].1, vec![a]);
    assert!(deps.graph[0].1.is_empty());
    let mut order: Vec<Vec<usize>> = deps.order.iter().map(|c| sorted(c.clone())).collect();
    order.sort();
    assert_eq!(order, vec![vec![0], vec![1]]);
}
