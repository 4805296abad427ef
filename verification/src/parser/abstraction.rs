//! From the concrete syntax tree to the abstract one: groups of one item are
//! that item, annotations are split off their patterns, and whatever cannot
//! stand where it stands is reported and marked invalid.

use vstd::prelude::*;

use super::cst;
use crate::ast;
use crate::invalid::Reason;
use crate::messages::{msg, Message, MessageKind, ParseMessages};
use crate::source::Span;
use crate::vecs::reversed;

verus! {

/// The range type `0 upto number`, written at `span`.
pub open spec fn is_number_range(ty: ast::Type, number: String, span: Span) -> bool {
    &&& ty.span == span
    &&& ty.node matches ast::TypeNode::Range { clusivity, lower, upper }
    &&& clusivity.includes_start && !clusivity.includes_end
    &&& lower.span == span
    &&& lower.node matches ast::ExpressionNode::Number(zero) && zero@ == seq!['0']
    &&& upper == (ast::Expression { node: ast::ExpressionNode::Number(number), span })
}

/// Whether `ty` is what the item `item` means as a type.
pub open spec fn type_of(item: cst::Item, ty: ast::Type) -> bool
    decreases item,
{
    match item.node {
        cst::ItemNode::Number(number) => is_number_range(ty, number, item.span),
        cst::ItemNode::Group(items) => if items@.len() == 1 {
            type_of(items@[0], ty)
        } else {
            ty == (ast::Type { node: ast::TypeNode::Invalid(Reason::SyntaxError), span: item.span })
        },
        _ => ty == (ast::Type { node: ast::TypeNode::Invalid(Reason::SyntaxError), span: item.span }),
    }
}

/// The messages reported when reading `item` as a type.
pub open spec fn type_messages(item: cst::Item) -> Seq<Message>
    decreases item,
{
    match item.node {
        cst::ItemNode::Number(_) => Seq::empty(),
        cst::ItemNode::Invalid => Seq::empty(),
        cst::ItemNode::Group(items) => if items@.len() == 1 {
            type_messages(items@[0])
        } else {
            seq![msg(MessageKind::ExpectedType, item.span)]
        },
        _ => seq![msg(MessageKind::ExpectedType, item.span)],
    }
}

/// Whether `expr` is what the item `item` means as an expression.
pub open spec fn expression_of(item: cst::Item, expr: ast::Expression) -> bool
    decreases item,
{
    let invalid = ast::Expression {
        node: ast::ExpressionNode::Invalid(Reason::SyntaxError),
        span: item.span,
    };
    match item.node {
        cst::ItemNode::Annotation(inner, ty) => {
            &&& expr.span == item.span
            &&& expr.node matches ast::ExpressionNode::Annotate(e, t)
            &&& expression_of(*inner, *e)
            &&& type_of(*ty, *t)
        },
        cst::ItemNode::Group(items) => if items@.len() == 0 {
            expr == (ast::Expression { node: ast::ExpressionNode::Unit, span: item.span })
        } else if items@.len() == 1 {
            expression_of(items@[0], expr)
        } else {
            &&& expr.span == item.span
            &&& expr.node matches ast::ExpressionNode::Block(exprs)
            &&& exprs@.len() == items@.len()
            &&& forall|i: int| 0 <= i < items@.len() ==> expression_of(items@[i], #[trigger] exprs@[i])
        },
        cst::ItemNode::Name(name) => expr == (ast::Expression {
            node: ast::ExpressionNode::Name(ast::Identifier { span: item.span, name }),
            span: item.span,
        }),
        cst::ItemNode::Number(number) => expr == (ast::Expression {
            node: ast::ExpressionNode::Number(number),
            span: item.span,
        }),
        cst::ItemNode::String(string) => expr == (ast::Expression {
            node: ast::ExpressionNode::String(string),
            span: item.span,
        }),
        _ => expr == invalid,
    }
}

/// The messages reported when reading `item` as an expression.
pub open spec fn expression_messages(item: cst::Item) -> Seq<Message>
    decreases item, 1nat,
{
    match item.node {
        cst::ItemNode::Annotation(inner, ty) => expression_messages(*inner) + type_messages(*ty),
        cst::ItemNode::Group(items) => if items@.len() == 1 {
            expression_messages(items@[0])
        } else {
            expressions_messages(items@)
        },
        cst::ItemNode::Name(_) => Seq::empty(),
        cst::ItemNode::Number(_) => Seq::empty(),
        cst::ItemNode::String(_) => Seq::empty(),
        cst::ItemNode::Invalid => Seq::empty(),
        _ => seq![msg(MessageKind::ExpectedExpression, item.span)],
    }
}

/// The messages reported when reading each of `items` as an expression, in
/// order.
pub open spec fn expressions_messages(items: Seq<cst::Item>) -> Seq<Message>
    decreases items, 0nat,
{
    if items.len() == 0 {
        Seq::empty()
    } else {
        expressions_messages(items.drop_last()) + expression_messages(items.last())
    }
}

/// Whether `pat` is what the item `item` means as a pattern.
pub open spec fn pattern_of(item: cst::Item, pat: ast::Pattern) -> bool
    decreases item,
{
    let invalid = ast::Pattern {
        node: ast::PatternNode::Invalid(Reason::SyntaxError),
        span: item.span,
    };
    match item.node {
        cst::ItemNode::Annotation(inner, ty) => {
            &&& pat.span == item.span
            &&& pat.node matches ast::PatternNode::Annotate(p, t)
            &&& pattern_of(*inner, *p)
            &&& type_of(*ty, t)
        },
        cst::ItemNode::Group(items) => if items@.len() == 0 {
            pat == (ast::Pattern { node: ast::PatternNode::Unit, span: item.span })
        } else if items@.len() == 1 {
            pattern_of(items@[0], pat)
        } else {
            pat == invalid
        },
        cst::ItemNode::Name(name) => pat == (ast::Pattern {
            node: ast::PatternNode::Name(ast::Identifier { span: item.span, name }),
            span: item.span,
        }),
        _ => pat == invalid,
    }
}

/// The messages reported when reading `item` as a pattern.
pub open spec fn pattern_messages(item: cst::Item) -> Seq<Message>
    decreases item,
{
    match item.node {
        cst::ItemNode::Annotation(inner, ty) => pattern_messages(*inner) + type_messages(*ty),
        cst::ItemNode::Group(items) => if items@.len() == 0 {
            Seq::empty()
        } else if items@.len() == 1 {
            pattern_messages(items@[0])
        } else {
            seq![msg(MessageKind::ExpectedPattern, item.span)]
        },
        cst::ItemNode::Name(_) => Seq::empty(),
        cst::ItemNode::Invalid => Seq::empty(),
        _ => seq![msg(MessageKind::ExpectedPattern, item.span)],
    }
}

/// An item split into what stands left of its type annotation and the
/// annotation, looking through groups of one item.
pub open spec fn annotation_parts(item: cst::Item) -> (cst::Item, Option<cst::Item>)
    decreases item,
{
    match item.node {
        cst::ItemNode::Annotation(inner, ty) => (*inner, Some(*ty)),
        cst::ItemNode::Group(items) => if items@.len() == 1 {
            annotation_parts(items@[0])
        } else {
            (item, None)
        },
        _ => (item, None),
    }
}

/// The messages reported when splitting off the annotation of `item`.
pub open spec fn annotation_messages(item: cst::Item) -> Seq<Message> {
    match annotation_parts(item).1 {
        Some(ty) => type_messages(ty),
        None => Seq::empty(),
    }
}

/// Whether `ast_item` is what the item `item` means as a declaration, if it
/// means anything.
pub open spec fn item_of(item: cst::Item, ast_item: Option<ast::Item>) -> bool {
    match item.node {
        cst::ItemNode::Let { pattern, body } => {
            let (left, anno) = annotation_parts(*pattern);
            &&& ast_item matches Some(ast::Item::Let { pattern: p, anno: a, body: b })
            &&& pattern_of(left, p)
            &&& match anno {
                Some(ty) => a matches Some(t) && type_of(ty, t),
                None => a is None,
            }
            &&& match body {
                Some(body) => b matches Some(e) && expression_of(*body, e),
                None => b is None,
            }
        },
        _ => ast_item is None,
    }
}

/// The messages reported when reading `item` as a declaration.
pub open spec fn item_messages(item: cst::Item) -> Seq<Message> {
    match item.node {
        cst::ItemNode::Let { pattern, body } => annotation_messages(*pattern) + pattern_messages(
            annotation_parts(*pattern).0,
        ) + match body {
            Some(body) => expression_messages(*body),
            None => Seq::empty(),
        },
        cst::ItemNode::Invalid => Seq::empty(),
        _ => seq![msg(MessageKind::ExpectedItem, item.span)],
    }
}

/// The text `0`.
fn zero() -> (s: String)
    ensures
        s@ == seq!['0'],
{
    let z = "0";
    proof {
        reveal_strlit("0");
    }
    z.to_owned()
}

/// Produce an abstract syntax tree for a declarative-level binding.
pub fn abstract_item(item: cst::Item, messages: &mut Vec<Message>) -> (r: Option<ast::Item>)
    ensures
        item_of(item, r),
        final(messages)@ == old(messages)@ + item_messages(item),
{
    let ghost orig = item;
    let span = item.span;
    match item.node {
        cst::ItemNode::Let { pattern, body } => {
            let (pattern, anno) = extract_annotation(*pattern, messages);
            let pattern = abstract_pattern(pattern, messages);
            let body = match body {
                Some(body) => Some(abstract_expression(*body, messages)),
                None => None,
            };
            proof {
                assert(final(messages)@ =~= old(messages)@ + item_messages(orig));
            }
            Some(ast::Item::Let { pattern, anno, body })
        },
        cst::ItemNode::Invalid => {
            assert(final(messages)@ =~= old(messages)@ + item_messages(orig));
            None
        },
        _ => {
            messages.expected_item(span);
            assert(final(messages)@ =~= old(messages)@ + item_messages(orig));
            None
        },
    }
}

/// Read an item as a type.
fn abstract_type(item: cst::Item, messages: &mut Vec<Message>) -> (ty: ast::Type)
    ensures
        type_of(item, ty),
        final(messages)@ == old(messages)@ + type_messages(item),
    decreases item,
{
    let ghost orig = item;
    let span = item.span;
    let node = match item.node {
        cst::ItemNode::Number(number) => {
            let lower = ast::Expression { span, node: ast::ExpressionNode::Number(zero()) };
            let upper = ast::Expression { span, node: ast::ExpressionNode::Number(number) };
            ast::TypeNode::Range { clusivity: ast::Clusivity::exclusive(), lower, upper }
        },
        cst::ItemNode::Group(mut items) => {
            if items.len() == 1 {
                let ghost all = items@;
                let inner = items.pop().unwrap();
                assert(inner == all[0]);
                return abstract_type(inner, messages);
            }
            messages.expected_type(span);
            ast::TypeNode::Invalid(Reason::SyntaxError)
        },
        cst::ItemNode::Invalid => ast::TypeNode::Invalid(Reason::SyntaxError),
        _ => {
            messages.expected_type(span);
            ast::TypeNode::Invalid(Reason::SyntaxError)
        },
    };
    assert(final(messages)@ =~= old(messages)@ + type_messages(orig));
    ast::Type { span, node }
}

/// Read an item as an expression.
#[verifier::loop_isolation(false)]
fn abstract_expression(item: cst::Item, messages: &mut Vec<Message>) -> (expr: ast::Expression)
    ensures
        expression_of(item, expr),
        final(messages)@ == old(messages)@ + expression_messages(item),
    decreases item,
{
    let ghost orig = item;
    let span = item.span;
    let node = match item.node {
        cst::ItemNode::Annotation(inner, ty) => {
            let inner = Box::new(abstract_expression(*inner, messages));
            let ty = Box::new(abstract_type(*ty, messages));
            ast::ExpressionNode::Annotate(inner, ty)
        },
        cst::ItemNode::Group(mut items) => {
            if items.len() == 0 {
                assert(expressions_messages(items@) =~= Seq::<Message>::empty());
                ast::ExpressionNode::Unit
            } else if items.len() == 1 {
                let ghost all = items@;
                let inner = items.pop().unwrap();
                assert(inner == all[0]);
                return abstract_expression(inner, messages);
            } else {
                let ghost all = items@;
                let mut rest = reversed(items);
                let mut exprs: Vec<ast::Expression> = Vec::new();
                let ghost start = messages@;
                while rest.len() > 0
                    invariant
                        exprs@.len() + rest@.len() == all.len(),
                        forall|i: int|
                            0 <= i < rest@.len() ==> #[trigger] rest@[i] == all[all.len() - 1
                                - i],
                        forall|i: int|
                            0 <= i < exprs@.len() ==> expression_of(
                                all[i],
                                #[trigger] exprs@[i],
                            ),
                        messages@ == start + expressions_messages(
                            all.subrange(0, exprs@.len() as int),
                        ),
                        forall|i: int| 0 <= i < all.len() ==> decreases_to!(orig => #[trigger] all[i]),
                    decreases rest@.len(),
                {
                    let k = exprs.len();
                    let next = rest.pop().unwrap();
                    assert(next == all[k as int]);
                    let expr = abstract_expression(next, messages);
                    exprs.push(expr);
                    assert(all.subrange(0, k + 1).drop_last() =~= all.subrange(0, k as int));
                }
                assert(all.subrange(0, all.len() as int) =~= all);
                assert(expression_messages(orig) == expressions_messages(all));
                assert(messages@ == old(messages)@ + expressions_messages(all));
                ast::ExpressionNode::Block(exprs)
            }
        },
        cst::ItemNode::Name(name) => ast::ExpressionNode::Name(ast::Identifier { span, name }),
        cst::ItemNode::Number(number) => ast::ExpressionNode::Number(number),
        cst::ItemNode::String(string) => ast::ExpressionNode::String(string),
        cst::ItemNode::Invalid => ast::ExpressionNode::Invalid(Reason::SyntaxError),
        _ => {
            messages.expected_expression(span);
            ast::ExpressionNode::Invalid(Reason::SyntaxError)
        },
    };
    assert(final(messages)@ =~= old(messages)@ + expression_messages(orig));
    ast::Expression { span, node }
}

/// Read an item as a pattern.
fn abstract_pattern(item: cst::Item, messages: &mut Vec<Message>) -> (pat: ast::Pattern)
    ensures
        pattern_of(item, pat),
        final(messages)@ == old(messages)@ + pattern_messages(item),
    decreases item,
{
    let ghost orig = item;
    let span = item.span;
    let node = match item.node {
        cst::ItemNode::Annotation(inner, ty) => {
            let inner = Box::new(abstract_pattern(*inner, messages));
            let ty = abstract_type(*ty, messages);
            ast::PatternNode::Annotate(inner, ty)
        },
        cst::ItemNode::Group(mut items) => {
            if items.len() == 0 {
                ast::PatternNode::Unit
            } else if items.len() == 1 {
                let ghost all = items@;
                let inner = items.pop().unwrap();
                assert(inner == all[0]);
                return abstract_pattern(inner, messages);
            } else {
                messages.expected_pattern(span);
                ast::PatternNode::Invalid(Reason::SyntaxError)
            }
        },
        cst::ItemNode::Name(name) => ast::PatternNode::Name(ast::Identifier { span, name }),
        cst::ItemNode::Invalid => ast::PatternNode::Invalid(Reason::SyntaxError),
        _ => {
            messages.expected_pattern(span);
            ast::PatternNode::Invalid(Reason::SyntaxError)
        },
    };
    assert(final(messages)@ =~= old(messages)@ + pattern_messages(orig));
    ast::Pattern { span, node }
}

/// "Strip" an item of its type annotation, if any, looking through groups
/// of one item.
pub fn extract_annotation(item: cst::Item, messages: &mut Vec<Message>) -> (r: (
    cst::Item,
    Option<ast::Type>,
))
    ensures
        r.0 == annotation_parts(item).0,
        match annotation_parts(item).1 {
            Some(ty) => r.1 matches Some(t) && type_of(ty, t),
            None => r.1 is None,
        },
        final(messages)@ == old(messages)@ + annotation_messages(item),
    decreases item,
{
    let ghost orig = item;
    let span = item.span;
    match item.node {
        cst::ItemNode::Annotation(right, ty) => {
            let ty = abstract_type(*ty, messages);
            (*right, Some(ty))
        },
        cst::ItemNode::Group(mut items) => {
            if items.len() == 1 {
                let ghost all = items@;
                let inner = items.pop().unwrap();
                assert(inner == all[0]);
                extract_annotation(inner, messages)
            } else {
                assert(final(messages)@ =~= old(messages)@ + annotation_messages(orig));
                (cst::Item { span, node: cst::ItemNode::Group(items) }, None)
            }
        },
        node => {
            assert(final(messages)@ =~= old(messages)@ + annotation_messages(orig));
            (cst::Item { span, node }, None)
        },
    }
}

} // verus!
