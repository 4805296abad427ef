use zippy_frontend::checked::ItemIndex;
use zippy_frontend::clarify::instanced::{
    AbstractInstance, Instance, InstanceIndex, InstanceVar, Template, Type,
};
use zippy_frontend::clarify::Clarifier;
use zippy_frontend::ast::Clusivity;
use zippy_frontend::messages::MessageKind;
use zippy_frontend::source::Span;

fn at() -> Span {
    Span::new(1, 2)
}

fn trait_of(i: Instance) -> Type {
    Type::Trait { instance: i }
}

#[test]
fn equate_binds_a_variable() {
    let mut c = Clarifier::new();
    let v = c.fresh_instance_var();
    assert_eq!(v, InstanceVar(0));
    c.equate_instances(at(), Instance::Var(v), Instance::Concrete(InstanceIndex(3)));
    assert!(c.take_messages().is_empty());
    // Equating again with the same concrete instance is fine.
    c.equate_instances(at(), Instance::Concrete(InstanceIndex(3)), Instance::Var(v));
    assert!(c.take_messages().is_empty());
    // But a different one is not.
    c.equate_instances(at(), Instance::Var(v), Instance::Concrete(InstanceIndex(4)));
    let messages = c.take_messages();
    assert_eq!(messages.len(), 1);
    assert_eq!(messages[0].kind, MessageKind::IncompatibleInstances);
    assert_eq!(messages[0].span, at());
}

#[test]
fn equate_follows_chains() {
    let mut c = Clarifier::new();
    let a = c.fresh_instance_var();
    let b = c.fresh_instance_var();
    c.equate_instances(at(), Instance::Var(a), Instance::Var(b));
    c.equate_instances(at(), Instance::Var(b), Instance::Concrete(InstanceIndex(7)));
    assert!(c.take_messages().is_empty());
    c.equate_instances(at(), Instance::Var(a), Instance::Concrete(InstanceIndex(8)));
    assert_eq!(c.take_messages()[0].kind, MessageKind::IncompatibleInstances);
}

#[test]
fn equate_variable_with_itself_is_recursive() {
    let mut c = Clarifier::new();
    let a = c.fresh_instance_var();
    c.equate_instances(at(), Instance::Var(a), Instance::Var(a));
    let messages = c.take_messages();
    assert_eq!(messages.len(), 1);
    assert_eq!(messages[0].kind, MessageKind::RecursiveInstance);
}

#[test]
fn equate_does_not_close_a_cycle() {
    let mut c = Clarifier::new();
    let a = c.fresh_instance_var();
    let b = c.fresh_instance_var();
    c.equate_instances(at(), Instance::Var(b), Instance::Var(a));
    c.equate_instances(at(), Instance::Var(a), Instance::Var(b));
    assert_eq!(c.take_messages()[0].kind, MessageKind::RecursiveInstance);
    // The substitution is still usable afterwards.
    c.equate_instances(at(), Instance::Var(a), Instance::Concrete(InstanceIndex(1)));
    c.equate_instances(at(), Instance::Var(b), Instance::Concrete(InstanceIndex(1)));
    assert!(c.take_messages().is_empty());
}

#[test]
fn equal_concrete_instances_unify() {
    let mut c = Clarifier::new();
    c.equate_instances(at(), Instance::Concrete(InstanceIndex(2)), Instance::Concrete(InstanceIndex(2)));
    assert!(c.take_messages().is_empty());
}

#[test]
fn unify_only_equates_traits() {
    let mut c = Clarifier::new();
    let range = Type::Range { clusivity: Clusivity::exclusive(), lower: ItemIndex(0), upper: ItemIndex(1) };
    c.unify(at(), range, Type::Number);
    assert!(c.take_messages().is_empty());
    c.unify(
        at(),
        trait_of(Instance::Concrete(InstanceIndex(1))),
        trait_of(Instance::Concrete(InstanceIndex(2))),
    );
    assert_eq!(c.take_messages()[0].kind, MessageKind::IncompatibleInstances);
}

#[test]
fn instantiate_template_makes_fresh_variables() {
    let mut c = Clarifier::new();
    let existing = c.fresh_instance_var();
    c.equate_instances(at(), Instance::Var(existing), Instance::Concrete(InstanceIndex(5)));
    let template = Template {
        ty: trait_of(Instance::Parameter(AbstractInstance(9))),
        exists: vec![AbstractInstance(8), AbstractInstance(9)],
    };
    let ty = c.instantiate_template(template);
    assert_eq!(ty, trait_of(Instance::Var(InstanceVar(2))));
    // A parameter the template does not introduce stays a parameter.
    let map = vec![(AbstractInstance(1), InstanceVar(0))];
    assert_eq!(
        c.instantiate_type(&map, trait_of(Instance::Parameter(AbstractInstance(2)))),
        trait_of(Instance::Parameter(AbstractInstance(2)))
    );
    // A bound variable becomes what it is bound to.
    assert_eq!(
        c.instantiate_type(&map, trait_of(Instance::Var(existing))),
        trait_of(Instance::Concrete(InstanceIndex(5)))
    );
}

#[test]
fn later_map_entries_win() {
    let c = Clarifier::new();
    let map = vec![(AbstractInstance(1), InstanceVar(0)), (AbstractInstance(1), InstanceVar(4))];
    assert_eq!(
        c.instantiate_type(&map, trait_of(Instance::Parameter(AbstractInstance(1)))),
        trait_of(Instance::Var(InstanceVar(4)))
    );
}
