use zippy_frontend::check::types::{CoercionState, CoercionVar, Coercions};
use zippy_frontend::source::Span;

fn var(count: usize) -> CoercionVar {
    CoercionVar { span: Span::new(0, 1), count }
}

#[test]
fn mark_keeps_the_most_severe_state() {
    let mut c = Coercions::new();
    c.mark(var(0), CoercionState::Coercible);
    c.mark(var(0), CoercionState::Equal);
    assert_eq!(c.get(&var(0)), CoercionState::Coercible);
    c.mark(var(0), CoercionState::Invalid);
    assert_eq!(c.get(&var(0)), CoercionState::Invalid);
    c.mark(var(0), CoercionState::Coercible);
    assert_eq!(c.get(&var(0)), CoercionState::Invalid);
}

#[test]
fn mark_from_equal() {
    let mut c = Coercions::new();
    c.mark(var(1), CoercionState::Equal);
    assert_eq!(c.get(&var(1)), CoercionState::Equal);
    c.mark(var(1), CoercionState::Coercible);
    assert_eq!(c.get(&var(1)), CoercionState::Coercible);
}

#[test]
fn mark_order_does_not_matter() {
    let mut a = Coercions::new();
    a.mark(var(0), CoercionState::Equal);
    a.mark(var(0), CoercionState::Invalid);
    let mut b = Coercions::new();
    b.mark(var(0), CoercionState::Invalid);
    b.mark(var(0), CoercionState::Equal);
    assert_eq!(a.get(&var(0)), b.get(&var(0)));
}

#[test]
fn variables_are_separate() {
    let mut c = Coercions::new();
    c.mark(var(0), CoercionState::Invalid);
    c.mark(var(1), CoercionState::Equal);
    assert_eq!(c.get(&var(0)), CoercionState::Invalid);
    assert_eq!(c.get(&var(1)), CoercionState::Equal);
}

#[test]
fn equality_ignores_marking_order() {
    let mut a = Coercions::new();
    a.mark(var(0), CoercionState::Equal);
    a.mark(var(1), CoercionState::Invalid);
    let mut b = Coercions::new();
    b.mark(var(1), CoercionState::Invalid);
    b.mark(var(0), CoercionState::Equal);
    assert_eq!(a, b);
    b.mark(var(0), CoercionState::Coercible);
    assert_ne!(a, b);
}
