//! The type-level declarations that kind checking works on, with every name
//! resolved to a number.

use vstd::prelude::*;

use crate::source::Span;

verus! {

/// A type expression.
#[derive(Debug)]
pub struct Type {
    pub node: TypeNode,
    pub span: Span,
}

#[derive(Debug)]
pub enum TypeNode {
    /// A reference to a named type.
    Name(usize),
    /// A range of numbers.
    Range(i64, i64),
    /// A function type.
    Fun(Box<Type>, Box<Type>),
    /// A product type.
    Product(Box<Type>, Box<Type>),
    /// The type of numbers.
    Number,
    /// A type to be inferred.
    Wildcard,
    /// The kind `type`.
    Type,
    Invalid,
}

/// A pattern binding type names.
#[derive(Debug)]
pub struct Pat {
    pub node: PatNode,
    pub span: Span,
}

#[derive(Debug)]
pub enum PatNode {
    Name(usize),
    Tuple(Box<Pat>, Box<Pat>),
    Anno(Box<Pat>, Type),
    Wildcard,
    Invalid,
}

/// A type definition `type pat : anno = bind`.
#[derive(Debug)]
pub struct TypeDef {
    pub span: Span,
    pub pat: Pat,
    pub anno: Type,
    pub bind: Type,
}

/// The names bound by a pattern, in order.
pub open spec fn pat_names(pat: Pat) -> Seq<usize>
    decreases pat,
{
    match pat.node {
        PatNode::Name(name) => seq![name],
        PatNode::Tuple(a, b) => pat_names(*a) + pat_names(*b),
        PatNode::Anno(a, _) => pat_names(*a),
        _ => Seq::empty(),
    }
}

/// The number of nodes of a type.
pub open spec fn type_size(ty: Type) -> nat
    decreases ty,
{
    match ty.node {
        TypeNode::Fun(a, b) | TypeNode::Product(a, b) => 1 + type_size(*a) + type_size(*b),
        _ => 1,
    }
}

/// The number of nodes of a pattern, counting those of its annotations.
pub open spec fn pat_size(pat: Pat) -> nat
    decreases pat,
{
    match pat.node {
        PatNode::Tuple(a, b) => 1 + pat_size(*a) + pat_size(*b),
        PatNode::Anno(a, ty) => 1 + pat_size(*a) + type_size(ty),
        _ => 1,
    }
}

/// Whether `ty` refers only to names satisfying `bound` and does not use
/// the kind `type` as a type.
pub open spec fn type_ok(ty: Type, bound: Set<usize>) -> bool
    decreases ty,
{
    match ty.node {
        TypeNode::Name(name) => bound.contains(name),
        TypeNode::Fun(a, b) | TypeNode::Product(a, b) => type_ok(*a, bound) && type_ok(*b, bound),
        TypeNode::Type => false,
        _ => true,
    }
}

/// The names bound by the patterns of `defs`, in order.
pub open spec fn defs_names(defs: Seq<TypeDef>) -> Seq<usize>
    decreases defs.len(),
{
    if defs.len() == 0 {
        Seq::empty()
    } else {
        defs_names(defs.drop_last()) + pat_names(defs.last().pat)
    }
}

/// The total size of the patterns of `defs`.
pub open spec fn pats_size(defs: Seq<TypeDef>) -> nat
    decreases defs.len(),
{
    if defs.len() == 0 {
        0
    } else {
        pats_size(defs.drop_last()) + pat_size(defs.last().pat)
    }
}

/// The total size of the bodies and annotations of `defs`.
pub open spec fn types_size(defs: Seq<TypeDef>) -> nat
    decreases defs.len(),
{
    if defs.len() == 0 {
        0
    } else {
        types_size(defs.drop_last()) + type_size(defs.last().bind) + type_size(defs.last().anno)
    }
}

/// The names bound by the patterns of every component, in order.
pub open spec fn comps_names(comps: Seq<Seq<TypeDef>>) -> Seq<usize>
    decreases comps.len(),
{
    if comps.len() == 0 {
        Seq::empty()
    } else {
        comps_names(comps.drop_last()) + defs_names(comps.last())
    }
}

/// The total size of every component.
pub open spec fn comps_size(comps: Seq<Seq<TypeDef>>) -> nat
    decreases comps.len(),
{
    if comps.len() == 0 {
        0
    } else {
        comps_size(comps.drop_last()) + pats_size(comps.last()) + types_size(comps.last())
    }
}

/// The components as sequences.
pub open spec fn comps_view(comps: Seq<Vec<TypeDef>>) -> Seq<Seq<TypeDef>> {
    comps.map_values(|c: Vec<TypeDef>| c@)
}

/// Components of type definitions that can be kind checked in order: no
/// name is bound twice, and the body of a definition only refers to names
/// bound in its own component or an earlier one.
pub open spec fn components_ok(comps: Seq<Seq<TypeDef>>) -> bool {
    &&& comps_names(comps).no_duplicates()
    &&& forall|i: int, j: int|
        0 <= i < comps.len() && 0 <= j < comps[i].len() ==> type_ok(
            #[trigger] comps[i][j].bind,
            comps_names(comps.take(i + 1)).to_set(),
        )
}

} // verus!

verus! {

pub proof fn lemma_defs_names_step(defs: Seq<TypeDef>, j: int)
    requires
        0 <= j < defs.len(),
    ensures
        defs_names(defs.take(j + 1)) == defs_names(defs.take(j)) + pat_names(defs[j].pat),
        pats_size(defs.take(j + 1)) == pats_size(defs.take(j)) + pat_size(defs[j].pat),
        types_size(defs.take(j + 1)) == types_size(defs.take(j)) + type_size(defs[j].bind)
            + type_size(defs[j].anno),
{
    assert(defs.take(j + 1).drop_last() =~= defs.take(j));
}

pub proof fn lemma_comps_step(comps: Seq<Seq<TypeDef>>, i: int)
    requires
        0 <= i < comps.len(),
    ensures
        comps_names(comps.take(i + 1)) == comps_names(comps.take(i)) + defs_names(comps[i]),
        comps_size(comps.take(i + 1)) == comps_size(comps.take(i)) + pats_size(comps[i])
            + types_size(comps[i]),
{
    assert(comps.take(i + 1).drop_last() =~= comps.take(i));
}

/// The names of a prefix of the components come first.
pub proof fn lemma_comps_prefix(comps: Seq<Seq<TypeDef>>, i: int)
    requires
        0 <= i <= comps.len(),
    ensures
        comps_names(comps.take(i)).is_prefix_of(comps_names(comps)),
        comps_size(comps.take(i)) <= comps_size(comps),
    decreases comps.len() - i,
{
    if i == comps.len() {
        assert(comps.take(i) =~= comps);
        assert(comps_names(comps).is_prefix_of(comps_names(comps)));
    } else {
        lemma_comps_prefix(comps, i + 1);
        lemma_comps_step(comps, i);
        assert(comps_names(comps.take(i)).is_prefix_of(comps_names(comps.take(i + 1))));
    }
}

pub proof fn lemma_defs_size_all(defs: Seq<TypeDef>)
    ensures
        defs.take(defs.len() as int) == defs,
{
    assert(defs.take(defs.len() as int) =~= defs);
}

} // verus!

verus! {

pub proof fn lemma_defs_prefix(defs: Seq<TypeDef>, k: int)
    requires
        0 <= k <= defs.len(),
    ensures
        defs_names(defs.take(k)).is_prefix_of(defs_names(defs)),
        pats_size(defs.take(k)) <= pats_size(defs),
        types_size(defs.take(k)) <= types_size(defs),
    decreases defs.len() - k,
{
    if k == defs.len() {
        assert(defs.take(k) =~= defs);
        assert(defs_names(defs).is_prefix_of(defs_names(defs)));
    } else {
        lemma_defs_prefix(defs, k + 1);
        lemma_defs_names_step(defs, k);
        assert(defs_names(defs.take(k)).is_prefix_of(defs_names(defs.take(k + 1))));
    }
}

pub proof fn lemma_concat_contains<A>(a: Seq<A>, b: Seq<A>, x: A)
    ensures
        (a + b).contains(x) <==> a.contains(x) || b.contains(x),
{
    if (a + b).contains(x) {
        let m = choose|m: int| 0 <= m < (a + b).len() && (a + b)[m] == x;
        if m < a.len() {
            assert(a[m] == x);
        } else {
            assert(b[m - a.len()] == x);
        }
    }
    if a.contains(x) {
        let m = choose|m: int| 0 <= m < a.len() && a[m] == x;
        assert((a + b)[m] == x);
    }
    if b.contains(x) {
        let m = choose|m: int| 0 <= m < b.len() && b[m] == x;
        assert((a + b)[a.len() + m] == x);
    }
}

pub proof fn lemma_type_ok_mono(ty: Type, s1: Set<usize>, s2: Set<usize>)
    requires
        type_ok(ty, s1),
        s1.subset_of(s2),
    ensures
        type_ok(ty, s2),
    decreases ty,
{
    match ty.node {
        TypeNode::Fun(a, b) | TypeNode::Product(a, b) => {
            lemma_type_ok_mono(*a, s1, s2);
            lemma_type_ok_mono(*b, s1, s2);
        },
        _ => {},
    }
}

} // verus!
