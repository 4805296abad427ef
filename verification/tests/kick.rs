use std::collections::HashMap;
use zippy_frontend::kick::pretty::Prettier;
use zippy_frontend::kick::kinds::{FinalKind, Kind, UniVar};
use zippy_frontend::kick::kindck;
use zippy_frontend::kick::names::{number_to_var_name, Namer};
use zippy_frontend::kick::tree::{Pat, PatNode, Type, TypeDef, TypeNode};
use zippy_frontend::messages::MessageKind;
use zippy_frontend::source::Span;

fn sp() -> Span {
    Span::new(0, 1)
}

fn ty(node: TypeNode) -> Type {
    Type { node, span: sp() }
}

fn def(name: usize, anno: TypeNode, bind: TypeNode) -> TypeDef {
    TypeDef { span: sp(), pat: Pat { node: PatNode::Name(name), span: sp() }, anno: ty(anno), bind: ty(bind) }
}

#[test]
fn var_names() {
    assert_eq!(number_to_var_name(0), "'A");
    assert_eq!(number_to_var_name(1), "'B");
    assert_eq!(number_to_var_name(25), "'Z");
    assert_eq!(number_to_var_name(26), "'AB");
    assert_eq!(number_to_var_name(27), "'BB");
}

#[test]
fn namer_reuses_names() {
    let mut namer = Namer::new();
    assert_eq!(namer.pretty(UniVar(7)), "'A");
    assert_eq!(namer.pretty(UniVar(3)), "'B");
    assert_eq!(namer.pretty(UniVar(7)), "'A");
}

#[test]
fn kind_of_a_number_type() {
    let comps = vec![vec![def(0, TypeNode::Wildcard, TypeNode::Number)]];
    let (kinds, messages) = kindck(&comps);
    assert!(messages.is_empty());
    let kinds = kinds.unwrap();
    assert_eq!(kinds.kinds.get(&0), Some(&FinalKind::Type));
}

#[test]
fn kind_of_a_function_type() {
    let comps = vec![
        vec![def(0, TypeNode::Type, TypeNode::Number)],
        vec![def(
            1,
            TypeNode::Wildcard,
            TypeNode::Fun(Box::new(ty(TypeNode::Name(0))), Box::new(ty(TypeNode::Name(0)))),
        )],
    ];
    let (kinds, messages) = kindck(&comps);
    assert!(messages.is_empty());
    let kinds = kinds.unwrap();
    assert_eq!(kinds.kinds.get(&1), Some(&FinalKind::Type));
}

#[test]
fn unknown_kinds_are_not_finished() {
    let comps = vec![vec![def(0, TypeNode::Wildcard, TypeNode::Wildcard)]];
    let (kinds, _) = kindck(&comps);
    assert!(kinds.is_none());
}

#[test]
fn fresh_variables_are_distinct() {
    let a = Kind::Var(UniVar(0));
    let b = Kind::Var(UniVar(1));
    assert_ne!(a, b);
}

#[test]
fn pretty_names_free_variables_left_to_right() {
    let mut subst: HashMap<usize, Kind> = HashMap::new();
    subst.insert(2, Kind::Type);
    let prettier = Prettier::new(&subst);
    let mut namer = Namer::new();
    let kind = Kind::Function(
        Box::new(Kind::Var(UniVar(5))),
        Box::new(Kind::Product(Box::new(Kind::Var(UniVar(2))), Box::new(Kind::Var(UniVar(3))))),
    );
    assert_eq!(prettier.pretty(&mut namer, &kind), "'A -> type * 'B");
    assert_eq!(namer.pretty(UniVar(3)), "'B");
    assert_eq!(namer.pretty(UniVar(5)), "'A");
    assert_eq!(namer.pretty(UniVar(7)), "'C");
}

#[test]
fn long_variable_names_stay_in_letters() {
    let name = number_to_var_name(usize::MAX);
    assert!(name.len() >= 2 && name.len() <= 15);
    assert!(name.starts_with('\''));
    assert!(name[1..].chars().all(|c| c.is_ascii_uppercase()));
}
