//! This IR represents a "flattened" view of the syntax tree. Whereas earlier
//! representations use a straightforward and easy-to-use encoding of the
//! tree, this one flattens it completely. Every item, import and expression
//! is stored in a flat list in the module where it is defined, and
//! references to them are done through indices into that list. This also
//! means that flattened modules give us an easy way of directly looking up
//! any item or expression, no matter how deeply nested.

use vstd::prelude::*;

use crate::ast::Clusivity;
use crate::invalid::Reason;
use crate::names::{ItemName, LocalName, Name};
use crate::resolved::{Alias, Identifier, ImportedName};
use crate::source::Span;

verus! {

/// Represents a kind of reference to some [`Item`].
#[derive(Clone, Copy, Debug, PartialEq, Eq, Hash, Structural)]
pub struct ItemIndex(usize);

/// Represents a kind of reference to some [`Import`].
#[derive(Clone, Copy, Debug, PartialEq, Eq, Hash, Structural)]
pub struct ImportIndex(usize);

/// Represents a kind of reference to an [`Expression`].
#[derive(Clone, Copy, Debug, PartialEq, Eq, Hash, Structural)]
pub struct TypeExpression(usize);

impl ItemIndex {
    /// The position of the item in its module.
    pub closed spec fn index(self) -> nat {
        self.0 as nat
    }
}

impl ImportIndex {
    /// The position of the import in its module.
    pub closed spec fn index(self) -> nat {
        self.0 as nat
    }
}

impl TypeExpression {
    /// The position of the expression in its module.
    pub closed spec fn index(self) -> nat {
        self.0 as nat
    }
}

/// Represents a list of names imported from the result of a given
/// expression.
#[derive(Debug)]
pub struct Import {
    pub from: TypeExpression,
    pub names: Vec<ImportedName>,
}

/// An item is some binding in a declarative scope.
#[derive(Debug)]
pub enum Item {
    Let { pattern: Pattern<ItemName>, anno: Option<Type>, body: Option<TypeExpression> },
}

#[derive(Debug)]
pub struct Type {
    pub node: TypeNode,
    pub span: Span,
}

#[derive(Debug)]
pub enum TypeNode {
    Range { clusivity: Clusivity, lower: TypeExpression, upper: TypeExpression },
    Invalid(Reason),
}

#[derive(Debug)]
pub struct Expression {
    pub node: ExpressionNode,
    pub span: Span,
}

#[derive(Debug)]
pub enum ExpressionNode {
    Entry(Entry),
    Let { pattern: Pattern<LocalName>, anno: Option<Type>, body: Option<TypeExpression> },
    Block(Vec<TypeExpression>),
    Annotate(TypeExpression, Type),
    Path(TypeExpression, Identifier),
    Name(Name),
    Alias(Alias),
    Number(String),
    String(String),
    Unit,
    Invalid(Reason),
}

#[derive(Debug)]
pub struct Entry {
    /// Every item bound in this entry
    pub items: Vec<ItemIndex>,
    /// Every import bound in this entry
    pub imports: Vec<ImportIndex>,
}

/// A pattern parameterized by the kind of name it can bind.
#[derive(Debug)]
pub struct Pattern<N> {
    pub node: PatternNode<N>,
    pub span: Span,
}

#[derive(Debug)]
pub enum PatternNode<N> {
    Annotate(Box<Pattern<N>>, Type),
    Name(N),
    Unit,
    Invalid(Reason),
}

/// Whether the expressions a type refers to are among the first `exprs`.
pub open spec fn type_refs_ok(ty: Type, exprs: nat) -> bool {
    match ty.node {
        TypeNode::Range { lower, upper, .. } => lower.index() < exprs && upper.index() < exprs,
        TypeNode::Invalid(_) => true,
    }
}

/// Whether the expressions a pattern refers to are among the first `exprs`.
pub open spec fn pattern_refs_ok<N>(pattern: Pattern<N>, exprs: nat) -> bool
    decreases pattern,
{
    match pattern.node {
        PatternNode::Annotate(inner, ty) => pattern_refs_ok(*inner, exprs) && type_refs_ok(
            ty,
            exprs,
        ),
        _ => true,
    }
}

/// Whether the expressions an item refers to are among the first `exprs`.
pub open spec fn item_refs_ok(item: Item, exprs: nat) -> bool {
    match item {
        Item::Let { pattern, anno, body } => {
            &&& pattern_refs_ok(pattern, exprs)
            &&& anno matches Some(ty) ==> type_refs_ok(ty, exprs)
            &&& body matches Some(b) ==> b.index() < exprs
        },
    }
}

/// Whether an entry refers only to the first `items` items and the first
/// `imports` imports.
pub open spec fn entry_refs_ok(entry: Entry, items: nat, imports: nat) -> bool {
    &&& forall|i: int| 0 <= i < entry.items@.len() ==> (#[trigger] entry.items@[i]).index() < items
    &&& forall|i: int|
        0 <= i < entry.imports@.len() ==> (#[trigger] entry.imports@[i]).index() < imports
}

/// Whether an expression refers only to expressions before the `index`th,
/// to the first `items` items and to the first `imports` imports.
pub open spec fn expression_refs_ok(expr: Expression, index: nat, items: nat, imports: nat) -> bool {
    match expr.node {
        ExpressionNode::Entry(entry) => entry_refs_ok(entry, items, imports),
        ExpressionNode::Let { pattern, anno, body } => {
            &&& pattern_refs_ok(pattern, index)
            &&& anno matches Some(ty) ==> type_refs_ok(ty, index)
            &&& body matches Some(b) ==> b.index() < index
        },
        ExpressionNode::Block(exprs) => forall|i: int|
            0 <= i < exprs@.len() ==> (#[trigger] exprs@[i]).index() < index,
        ExpressionNode::Annotate(inner, ty) => inner.index() < index && type_refs_ok(ty, index),
        ExpressionNode::Path(inner, _) => inner.index() < index,
        _ => true,
    }
}

/// Whether every index stored in `items`, `imports` and `exprs` refers to
/// an entry of these lists, and every expression only to expressions before
/// it.
pub open spec fn lists_ok(items: Seq<Item>, imports: Seq<Import>, exprs: Seq<Expression>) -> bool {
    &&& forall|i: int| 0 <= i < items.len() ==> item_refs_ok(#[trigger] items[i], exprs.len())
    &&& forall|i: int| 0 <= i < imports.len() ==> (#[trigger] imports[i]).from.index() < exprs.len()
    &&& forall|i: int|
        0 <= i < exprs.len() ==> expression_refs_ok(
            #[trigger] exprs[i],
            i as nat,
            items.len(),
            imports.len(),
        )
}

pub proof fn lemma_pattern_refs_mono<N>(pattern: Pattern<N>, a: nat, b: nat)
    requires
        pattern_refs_ok(pattern, a),
        a <= b,
    ensures
        pattern_refs_ok(pattern, b),
    decreases pattern,
{
    match pattern.node {
        PatternNode::Annotate(inner, _) => lemma_pattern_refs_mono(*inner, a, b),
        _ => {},
    }
}

/// Utility struct to safely create [`Module`]s with the correct indices.
pub struct ModuleBuilder {
    name: ItemName,
    items: Vec<Item>,
    item_names: Vec<Vec<ItemName>>,
    imports: Vec<Import>,
    expressions: Vec<Expression>,
}

impl ModuleBuilder {
    /// The items added so far.
    pub closed spec fn items(self) -> Seq<Item> {
        self.items@
    }

    /// The names bound by each item added so far.
    pub closed spec fn item_names(self) -> Seq<Seq<ItemName>> {
        Seq::new(self.item_names@.len(), |i: int| self.item_names@[i]@)
    }

    /// The imports added so far.
    pub closed spec fn imports(self) -> Seq<Import> {
        self.imports@
    }

    /// The expressions added so far.
    pub closed spec fn expressions(self) -> Seq<Expression> {
        self.expressions@
    }

    /// The name of the module being built.
    pub closed spec fn name(self) -> ItemName {
        self.name
    }

    /// Each item has its list of names.
    pub closed spec fn sized(self) -> bool {
        self.items@.len() == self.item_names@.len()
    }

    /// Each item has its names, and every index in the lists refers to
    /// something added before.
    pub closed spec fn wf(self) -> bool {
        &&& self.sized()
        &&& lists_ok(self.items@, self.imports@, self.expressions@)
    }

    pub proof fn lemma_wf_sized(self)
        requires
            self.wf(),
        ensures
            self.sized(),
    {
    }

    pub fn new(name: ItemName) -> (b: Self)
        ensures
            b.wf(),
            b.sized(),
            b.name() == name,
            b.items().len() == 0,
            b.imports().len() == 0,
            b.expressions().len() == 0,
    {
        ModuleBuilder {
            name,
            items: Vec::new(),
            item_names: Vec::new(),
            imports: Vec::new(),
            expressions: Vec::new(),
        }
    }

    /// Build the module whose entry is `entry`.
    pub fn build(self, entry: Entry) -> (m: Module)
        requires
            self.sized(),
        ensures
            self.wf() && entry_refs_ok(entry, self.items().len(), self.imports().len()) ==> m.wf(),
            m.name == self.name(),
            m.items.items() == self.items(),
            m.items.names() == self.item_names(),
            m.imports.imports() == self.imports(),
            m.type_exprs.expressions() == self.expressions(),
            m.entry == entry,
    {
        let items = Items { items: self.items, names: self.item_names };
        let imports = Imports { imports: self.imports };
        let type_exprs = TypeExpressions { expressions: self.expressions };
        Module { name: self.name, entry, items, imports, type_exprs }
    }

    /// Add an item binding all of the specified names to this module.
    pub fn add_item(&mut self, names: Vec<ItemName>, item: Item) -> (index: ItemIndex)
        requires
            old(self).sized(),
        ensures
            final(self).sized(),
            old(self).wf() && item_refs_ok(item, old(self).expressions().len()) ==> final(self).wf(),
            index.index() == old(self).items().len(),
            index.index() == old(self).item_names().len(),
            final(self).items() == old(self).items().push(item),
            final(self).item_names() == old(self).item_names().push(names@),
            final(self).imports() == old(self).imports(),
            final(self).expressions() == old(self).expressions(),
            final(self).name() == old(self).name(),
    {
        let index = ItemIndex(self.items.len());
        self.items.push(item);
        self.item_names.push(names);
        proof {
            assert(self.item_names() =~= old(self).item_names().push(names@));
            if old(self).wf() && item_refs_ok(item, old(self).expressions().len()) {
            assert forall|i: int| 0 <= i < self.expressions@.len() implies expression_refs_ok(
                #[trigger] self.expressions@[i],
                i as nat,
                self.items@.len(),
                self.imports@.len(),
            ) by {
                assert(expression_refs_ok(
                    old(self).expressions@[i],
                    i as nat,
                    old(self).items@.len(),
                    old(self).imports@.len(),
                ));
            }
            }
        }
        index
    }

    /// Add an import to this module.
    pub fn add_import(&mut self, import: Import) -> (index: ImportIndex)
        requires
            old(self).sized(),
        ensures
            final(self).sized(),
            old(self).wf() && import.from.index() < old(self).expressions().len() ==> final(self).wf(),
            index.index() == old(self).imports().len(),
            final(self).imports() == old(self).imports().push(import),
            final(self).items() == old(self).items(),
            final(self).item_names() == old(self).item_names(),
            final(self).expressions() == old(self).expressions(),
            final(self).name() == old(self).name(),
    {
        let index = ImportIndex(self.imports.len());
        self.imports.push(import);
        proof {
            if old(self).wf() && import.from.index() < old(self).expressions().len() {
            assert forall|i: int| 0 <= i < self.expressions@.len() implies expression_refs_ok(
                #[trigger] self.expressions@[i],
                i as nat,
                self.items@.len(),
                self.imports@.len(),
            ) by {
                assert(expression_refs_ok(
                    old(self).expressions@[i],
                    i as nat,
                    old(self).items@.len(),
                    old(self).imports@.len(),
                ));
            }
            }
        }
        index
    }

    /// Add an expression, which may refer to the expressions added before
    /// it, to this module.
    pub fn add_type_expression(&mut self, expr: Expression) -> (index: TypeExpression)
        requires
            old(self).sized(),
        ensures
            final(self).sized(),
            old(self).wf() && expression_refs_ok(
                expr,
                old(self).expressions().len(),
                old(self).items().len(),
                old(self).imports().len(),
            ) ==> final(self).wf(),
            index.index() == old(self).expressions().len(),
            final(self).expressions() == old(self).expressions().push(expr),
            final(self).items() == old(self).items(),
            final(self).item_names() == old(self).item_names(),
            final(self).imports() == old(self).imports(),
            final(self).name() == old(self).name(),
    {
        let index = TypeExpression(self.expressions.len());
        self.expressions.push(expr);
        proof {
            if old(self).wf() && expression_refs_ok(
                expr,
                old(self).expressions().len(),
                old(self).items().len(),
                old(self).imports().len(),
            ) {
            assert forall|i: int| 0 <= i < self.items@.len() implies item_refs_ok(
                #[trigger] self.items@[i],
                self.expressions@.len(),
            ) by {
                let item = self.items@[i];
                assert(item_refs_ok(item, old(self).expressions@.len()));
                match item {
                    Item::Let { pattern, anno, body } => {
                        lemma_pattern_refs_mono(
                            pattern,
                            old(self).expressions@.len(),
                            self.expressions@.len(),
                        );
                    },
                }
            }
            }
        }
        index
    }
}

/// A flattened module: its items, imports and expressions, and the entry
/// that binds its top-level items and imports.
#[derive(Debug)]
pub struct Module {
    /// The name of this module
    pub name: ItemName,
    pub entry: Entry,
    /// Every item declared in this module and any nested entries.
    pub items: Items,
    /// Every import declared in this module and any nested entries.
    pub imports: Imports,
    /// Every expression of this module.
    pub type_exprs: TypeExpressions,
}

impl Module {
    /// Every index stored in the module refers to an item, import or
    /// expression of it.
    pub open spec fn wf(self) -> bool {
        &&& self.items.wf()
        &&& lists_ok(self.items.items(), self.imports.imports(), self.type_exprs.expressions())
        &&& entry_refs_ok(self.entry, self.items.items().len(), self.imports.imports().len())
    }

    /// Get the item this index refers to.
    pub fn item(&self, index: &ItemIndex) -> (item: &Item)
        requires
            index.index() < self.items.items().len(),
        ensures
            *item == self.items.items()[index.index() as int],
    {
        self.items.get(index)
    }

    /// Get the import this index refers to.
    pub fn import(&self, index: &ImportIndex) -> (import: &Import)
        requires
            index.index() < self.imports.imports().len(),
        ensures
            *import == self.imports.imports()[index.index() as int],
    {
        self.imports.get(index)
    }

    /// Get the expression from the given type expression.
    pub fn type_expression(&self, expr: &TypeExpression) -> (e: &Expression)
        requires
            expr.index() < self.type_exprs.expressions().len(),
        ensures
            *e == self.type_exprs.expressions()[expr.index() as int],
    {
        self.type_exprs.get(expr)
    }
}

#[derive(Debug)]
pub struct Items {
    items: Vec<Item>,
    /// All the names each item defines.
    names: Vec<Vec<ItemName>>,
}

impl Items {
    pub closed spec fn items(self) -> Seq<Item> {
        self.items@
    }

    pub closed spec fn names(self) -> Seq<Seq<ItemName>> {
        Seq::new(self.names@.len(), |i: int| self.names@[i]@)
    }

    pub closed spec fn wf(self) -> bool {
        self.items@.len() == self.names@.len()
    }

    /// Get the item corresponding to the given index.
    pub fn get(&self, index: &ItemIndex) -> (item: &Item)
        requires
            index.index() < self.items().len(),
        ensures
            *item == self.items()[index.index() as int],
    {
        &self.items[index.0]
    }

    /// Get every name defined by the given item.
    pub fn names_of(&self, index: &ItemIndex) -> (names: &Vec<ItemName>)
        requires
            self.wf(),
            index.index() < self.items().len(),
        ensures
            names@ == self.names()[index.index() as int],
    {
        &self.names[index.0]
    }
}

#[derive(Debug)]
pub struct Imports {
    imports: Vec<Import>,
}

impl Imports {
    pub closed spec fn imports(self) -> Seq<Import> {
        self.imports@
    }

    /// Get the import corresponding to the given index.
    pub fn get(&self, index: &ImportIndex) -> (import: &Import)
        requires
            index.index() < self.imports().len(),
        ensures
            *import == self.imports()[index.index() as int],
    {
        &self.imports[index.0]
    }
}

#[derive(Debug)]
pub struct TypeExpressions {
    expressions: Vec<Expression>,
}

impl TypeExpressions {
    pub closed spec fn expressions(self) -> Seq<Expression> {
        self.expressions@
    }

    /// Get the expression corresponding to the given index.
    pub fn get(&self, expr: &TypeExpression) -> (e: &Expression)
        requires
            expr.index() < self.expressions().len(),
        ensures
            *e == self.expressions()[expr.index() as int],
    {
        &self.expressions[expr.0]
    }
}

} // verus!
