//! Declaring: finding every name that a module declares, and where.
//!
//! Items are declared within the scope they stand in; what an item's
//! annotation and body declare is declared within the item's name, or within
//! an unnamable scope where its pattern binds none. An entry declares its
//! items within the name it is bound to, or within an unnamable scope.

use vstd::prelude::*;

use crate::ast::{
    AstSource, Expression, ExpressionNode, Import, ImportedName, Item, Pattern, PatternNode, Type,
    TypeNode,
};
use crate::messages::{msg, Message, MessageKind};
use crate::names::{
    find_name, find_raw, lemma_lists_grow, lemma_lists_push, lemma_lists_raw_grow,
    lemma_lists_raw_push, lists, lists_raw, only_items, take_names, DeclarableName, ItemName, Name, NameDb,
    NamePath, NameTable, RawName, UnnamableNameKind,
};
use crate::source::Span;

verus! {

/// What declaring has found so far within one scope.
pub struct Found {
    /// Each name declared, with where.
    pub names: Map<NamePath, Span>,
    /// Each name imported into the scope, with where.
    pub imports: Map<Seq<char>, Span>,
    /// The messages reported so far.
    pub messages: Seq<Message>,
    /// Whether no name has been declared within two different scopes of the
    /// same name.
    pub ok: bool,
}

/// Nothing found yet, after `messages`.
pub open spec fn fresh(messages: Seq<Message>) -> Found {
    Found { names: Map::empty(), imports: Map::empty(), messages, ok: true }
}

/// What `outer` found, with what a scope nested in it found added. A name
/// found by both stays as `outer` found it, and makes the result not ok.
pub open spec fn nest(outer: Found, inner: Found) -> Found {
    Found {
        names: inner.names.union_prefer_right(outer.names),
        imports: outer.imports,
        messages: inner.messages,
        ok: outer.ok && inner.ok && forall|p: NamePath|
            !(#[trigger] outer.names.contains_key(p) && inner.names.contains_key(p)),
    }
}

/// The item named `text` within `root`.
pub open spec fn item_path(root: NamePath, text: Seq<char>) -> NamePath {
    NamePath::Item { parent: Some(Box::new(root)), name: text }
}

/// Declare the item named `text` within `root` at `span`. A name declared
/// before keeps its first span; one that an import brought in, or that names
/// a module, is reported but declared.
pub open spec fn declare_name(
    f: Found,
    root: NamePath,
    text: Seq<char>,
    span: Span,
    modules: Set<NamePath>,
) -> Found {
    let name = item_path(root, text);
    if f.names.contains_key(name) {
        Found {
            names: f.names,
            imports: f.imports,
            messages: f.messages.push(
                msg(MessageKind::DuplicateDefinition { previous: f.names[name] }, span),
            ),
            ok: f.ok,
        }
    } else {
        let m1 = if f.imports.contains_key(text) {
            f.messages.push(msg(MessageKind::DuplicateDefinition { previous: f.imports[text] }, span))
        } else {
            f.messages
        };
        let m2 = if modules.contains(name) {
            m1.push(msg(MessageKind::DuplicateModuleDefinition, span))
        } else {
            m1
        };
        Found { names: f.names.insert(name, span), imports: f.imports, messages: m2, ok: f.ok }
    }
}

/// Declare the aliases of the first `n` imported names; an alias imported
/// before is reported and keeps its first span.
pub open spec fn declare_aliases(f: Found, names: Seq<ImportedName>, n: nat) -> Found
    decreases n,
{
    if n == 0 || n > names.len() {
        f
    } else {
        let g = declare_aliases(f, names, (n - 1) as nat);
        let name = names[n - 1];
        let alias = name.alias.name@;
        if g.imports.contains_key(alias) {
            Found {
                names: g.names,
                imports: g.imports,
                messages: g.messages.push(
                    msg(MessageKind::DuplicateDefinition { previous: g.imports[alias] }, name.span),
                ),
                ok: g.ok,
            }
        } else {
            Found {
                names: g.names,
                imports: g.imports.insert(alias, name.span),
                messages: g.messages,
                ok: g.ok,
            }
        }
    }
}

/// The name a pattern binds within `root`, if any.
pub open spec fn pattern_name(p: Pattern, root: NamePath) -> Option<NamePath>
    decreases p,
{
    match p.node {
        PatternNode::Annotate(inner, _) => pattern_name(*inner, root),
        PatternNode::Name(id) => Some(item_path(root, id.name@)),
        _ => None,
    }
}

/// What is declared within, beside a pattern: the name it binds, or else
/// the unnamable scope of the pattern.
pub open spec fn pattern_scope(p: Pattern, root: NamePath) -> NamePath {
    match pattern_name(p, root) {
        Some(name) => name,
        None => NamePath::Unnamable {
            kind: UnnamableNameKind::Pattern,
            parent: Some(Box::new(root)),
            span: p.span,
        },
    }
}

/// What the scope of an entry is: the name it is bound to, or else its own
/// unnamable scope within `parent`.
pub open spec fn entry_scope(e: Expression, parent: NamePath, bind: Option<NamePath>) -> NamePath {
    match bind {
        Some(b) => b,
        None => NamePath::Unnamable {
            kind: UnnamableNameKind::Entry,
            parent: Some(Box::new(parent)),
            span: e.span,
        },
    }
}

/// Declare what the first `n` imports declare, within `root`.
pub open spec fn declare_imports(
    f: Found,
    imports: Seq<Import>,
    n: nat,
    root: NamePath,
    modules: Set<NamePath>,
) -> Found
    decreases imports, n,
{
    if n == 0 || n > imports.len() {
        f
    } else {
        declare_import(
            declare_imports(f, imports, (n - 1) as nat, root, modules),
            imports[n - 1],
            root,
            modules,
        )
    }
}

/// Declare what an import declares, within `root`.
pub open spec fn declare_import(f: Found, import: Import, root: NamePath, modules: Set<NamePath>) -> Found
    decreases import, 0nat,
{
    let g = match import.from {
        Some(from) => nest(f, declare_expression(fresh(f.messages), from, root, None, modules)),
        None => f,
    };
    declare_aliases(g, import.names@, import.names@.len())
}

/// Declare what the first `n` items declare, within `root`.
pub open spec fn declare_items(
    f: Found,
    items: Seq<Item>,
    n: nat,
    root: NamePath,
    modules: Set<NamePath>,
) -> Found
    decreases items, n,
{
    if n == 0 || n > items.len() {
        f
    } else {
        declare_item(
            declare_items(f, items, (n - 1) as nat, root, modules),
            items[n - 1],
            root,
            modules,
        )
    }
}

/// Declare what an item declares, within `root`.
pub open spec fn declare_item(f: Found, item: Item, root: NamePath, modules: Set<NamePath>) -> Found
    decreases item, 0nat,
{
    match item {
        Item::Let { pattern, anno, body } => {
            let g = declare_pattern(f, pattern, root, modules);
            let scope = pattern_scope(pattern, root);
            let l0 = fresh(g.messages);
            let l1 = match anno {
                Some(ty) => declare_type(l0, ty, scope, modules),
                None => l0,
            };
            let l2 = match body {
                Some(body) => declare_expression(l1, body, scope, pattern_name(pattern, root), modules),
                None => l1,
            };
            nest(g, l2)
        },
    }
}

/// Declare what a pattern declares, within `root`.
pub open spec fn declare_pattern(f: Found, p: Pattern, root: NamePath, modules: Set<NamePath>) -> Found
    decreases p, 0nat,
{
    match p.node {
        PatternNode::Annotate(inner, ty) => {
            let g = declare_pattern(f, *inner, root, modules);
            nest(g, declare_type(fresh(g.messages), ty, pattern_scope(p, root), modules))
        },
        PatternNode::Name(id) => declare_name(f, root, id.name@, p.span, modules),
        _ => f,
    }
}

/// Declare what a type declares, within `parent`.
pub open spec fn declare_type(f: Found, ty: Type, parent: NamePath, modules: Set<NamePath>) -> Found
    decreases ty, 0nat,
{
    match ty.node {
        TypeNode::Range { lower, upper, .. } => declare_expression(
            declare_expression(f, lower, parent, None, modules),
            upper,
            parent,
            None,
            modules,
        ),
        TypeNode::Invalid(_) => f,
    }
}

/// Declare what an expression declares, within `parent`, where the
/// expression is bound to `bind`, if to anything.
pub open spec fn declare_expression(
    f: Found,
    e: Expression,
    parent: NamePath,
    bind: Option<NamePath>,
    modules: Set<NamePath>,
) -> Found
    decreases e, 0nat,
{
    match e.node {
        ExpressionNode::Entry { items, imports } => {
            let root = entry_scope(e, parent, bind);
            let g = declare_imports(fresh(f.messages), imports@, imports@.len(), root, modules);
            nest(f, declare_items(g, items@, items@.len(), root, modules))
        },
        ExpressionNode::Block(es) => declare_expressions(f, es@, es@.len(), parent, modules),
        ExpressionNode::Annotate(inner, ty) => declare_type(
            declare_expression(f, *inner, parent, bind, modules),
            *ty,
            parent,
            modules,
        ),
        ExpressionNode::Path(inner, _) => declare_expression(f, *inner, parent, bind, modules),
        _ => f,
    }
}

/// Declare what the first `n` expressions of a block declare, within
/// `parent`.
pub open spec fn declare_expressions(
    f: Found,
    es: Seq<Expression>,
    n: nat,
    parent: NamePath,
    modules: Set<NamePath>,
) -> Found
    decreases es, n,
{
    if n == 0 || n > es.len() {
        f
    } else {
        declare_expression(
            declare_expressions(f, es, (n - 1) as nat, parent, modules),
            es[n - 1],
            parent,
            None,
            modules,
        )
    }
}

/// Declare what the first `n` sources of a module declare, within `root`.
pub open spec fn declare_sources(
    f: Found,
    sources: Seq<AstSource>,
    n: nat,
    root: NamePath,
    modules: Set<NamePath>,
) -> Found
    decreases n,
{
    if n == 0 || n > sources.len() {
        f
    } else {
        let g = declare_sources(f, sources, (n - 1) as nat, root, modules);
        let source = sources[n - 1];
        let h = declare_imports(g, source.imports@, source.imports@.len(), root, modules);
        declare_items(h, source.items@, source.items@.len(), root, modules)
    }
}

/// What declaring a whole module finds, after `messages`.
pub open spec fn declared(
    messages: Seq<Message>,
    sources: Seq<AstSource>,
    root: NamePath,
    modules: Set<NamePath>,
) -> Found {
    declare_sources(fresh(messages), sources, sources.len(), root, modules)
}

/// The names that the first `n` imports declare, within `root`: those that
/// the expressions they are from declare.
pub open spec fn names_in_imports(imports: Seq<Import>, n: nat, root: NamePath) -> Set<NamePath>
    decreases imports, n,
{
    if n == 0 || n > imports.len() {
        Set::empty()
    } else {
        names_in_imports(imports, (n - 1) as nat, root).union(names_in_import(imports[n - 1], root))
    }
}

/// The names that an import declares, within `root`.
pub open spec fn names_in_import(import: Import, root: NamePath) -> Set<NamePath>
    decreases import, 0nat,
{
    match import.from {
        Some(from) => names_in_expression(from, root, None),
        None => Set::empty(),
    }
}

/// The names that the first `n` items declare, within `root`.
pub open spec fn names_in_items(items: Seq<Item>, n: nat, root: NamePath) -> Set<NamePath>
    decreases items, n,
{
    if n == 0 || n > items.len() {
        Set::empty()
    } else {
        names_in_items(items, (n - 1) as nat, root).union(names_in_item(items[n - 1], root))
    }
}

/// The names that an item declares, within `root`: the one its pattern
/// binds, and those of the entries in its annotations and body.
pub open spec fn names_in_item(item: Item, root: NamePath) -> Set<NamePath>
    decreases item, 0nat,
{
    match item {
        Item::Let { pattern, anno, body } => {
            let scope = pattern_scope(pattern, root);
            names_in_pattern(pattern, root).union(
                match anno {
                    Some(ty) => names_in_type(ty, scope),
                    None => Set::empty(),
                },
            ).union(
                match body {
                    Some(b) => names_in_expression(b, scope, pattern_name(pattern, root)),
                    None => Set::empty(),
                },
            )
        },
    }
}

/// The names that a pattern of an item declares, within `root`.
pub open spec fn names_in_pattern(p: Pattern, root: NamePath) -> Set<NamePath>
    decreases p, 0nat,
{
    match p.node {
        PatternNode::Annotate(inner, ty) => names_in_pattern(*inner, root).union(
            names_in_type(ty, pattern_scope(p, root)),
        ),
        PatternNode::Name(id) => set![item_path(root, id.name@)],
        _ => Set::empty(),
    }
}

/// The names that the entries within a type declare, within `parent`.
pub open spec fn names_in_type(ty: Type, parent: NamePath) -> Set<NamePath>
    decreases ty, 0nat,
{
    match ty.node {
        TypeNode::Range { lower, upper, .. } => names_in_expression(lower, parent, None).union(
            names_in_expression(upper, parent, None),
        ),
        TypeNode::Invalid(_) => Set::empty(),
    }
}

/// The names that the entries within an expression declare, within
/// `parent`, where it is bound to `bind`, if to anything.
pub open spec fn names_in_expression(e: Expression, parent: NamePath, bind: Option<NamePath>) -> Set<NamePath>
    decreases e, 0nat,
{
    match e.node {
        ExpressionNode::Entry { items, imports } => {
            let root = entry_scope(e, parent, bind);
            names_in_imports(imports@, imports@.len(), root).union(names_in_items(items@, items@.len(), root))
        },
        ExpressionNode::Block(es) => names_in_expressions(es@, es@.len(), parent),
        ExpressionNode::Annotate(inner, ty) => names_in_expression(*inner, parent, bind).union(
            names_in_type(*ty, parent),
        ),
        ExpressionNode::Path(inner, _) => names_in_expression(*inner, parent, bind),
        _ => Set::empty(),
    }
}

/// The names that the entries within the first `n` expressions of a block
/// declare, within `parent`.
pub open spec fn names_in_expressions(es: Seq<Expression>, n: nat, parent: NamePath) -> Set<NamePath>
    decreases es, n,
{
    if n == 0 || n > es.len() {
        Set::empty()
    } else {
        names_in_expressions(es, (n - 1) as nat, parent).union(names_in_expression(es[n - 1], parent, None))
    }
}

/// The names that the first `n` sources of the module named by `root`
/// declare.
pub open spec fn names_in_sources(sources: Seq<AstSource>, n: nat, root: NamePath) -> Set<NamePath>
    decreases n,
{
    if n == 0 || n > sources.len() {
        Set::empty()
    } else {
        let source = sources[n - 1];
        names_in_sources(sources, (n - 1) as nat, root).union(
            names_in_imports(source.imports@, source.imports@.len(), root),
        ).union(names_in_items(source.items@, source.items@.len(), root))
    }
}

proof fn lemma_nest_names(f: Found, g: Found)
    ensures
        nest(f, g).names.dom() == f.names.dom().union(g.names.dom()),
{
    assert(nest(f, g).names.dom() =~= f.names.dom().union(g.names.dom()));
}

proof fn lemma_aliases_names(f: Found, names: Seq<ImportedName>, n: nat)
    ensures
        declare_aliases(f, names, n).names == f.names,
    decreases n,
{
    if n > 0 && n <= names.len() {
        lemma_aliases_names(f, names, (n - 1) as nat);
    }
}

proof fn lemma_imports_names(f: Found, imports: Seq<Import>, n: nat, root: NamePath, modules: Set<NamePath>)
    ensures
        declare_imports(f, imports, n, root, modules).names.dom() == f.names.dom().union(
            names_in_imports(imports, n, root),
        ),
    decreases imports, n,
{
    if n == 0 || n > imports.len() {
        assert(f.names.dom().union(Set::empty()) =~= f.names.dom());
    } else {
        let g = declare_imports(f, imports, (n - 1) as nat, root, modules);
        lemma_imports_names(f, imports, (n - 1) as nat, root, modules);
        lemma_import_names(g, imports[n - 1], root, modules);
        assert(declare_imports(f, imports, n, root, modules).names.dom() =~= f.names.dom().union(
            names_in_imports(imports, n, root),
        ));
    }
}

proof fn lemma_import_names(f: Found, import: Import, root: NamePath, modules: Set<NamePath>)
    ensures
        declare_import(f, import, root, modules).names.dom() == f.names.dom().union(
            names_in_import(import, root),
        ),
    decreases import, 0nat,
{
    let g = match import.from {
        Some(from) => nest(f, declare_expression(fresh(f.messages), from, root, None, modules)),
        None => f,
    };
    lemma_aliases_names(g, import.names@, import.names@.len());
    match import.from {
        Some(from) => {
            let inner = declare_expression(fresh(f.messages), from, root, None, modules);
            lemma_expression_names(fresh(f.messages), from, root, None, modules);
            lemma_nest_names(f, inner);
            assert(fresh(f.messages).names.dom() =~= Set::empty());
            assert(g.names.dom() =~= f.names.dom().union(names_in_import(import, root)));
        },
        None => {
            assert(f.names.dom().union(Set::empty()) =~= f.names.dom());
        },
    }
}

proof fn lemma_items_names(f: Found, items: Seq<Item>, n: nat, root: NamePath, modules: Set<NamePath>)
    ensures
        declare_items(f, items, n, root, modules).names.dom() == f.names.dom().union(
            names_in_items(items, n, root),
        ),
    decreases items, n,
{
    if n == 0 || n > items.len() {
        assert(f.names.dom().union(Set::empty()) =~= f.names.dom());
    } else {
        let g = declare_items(f, items, (n - 1) as nat, root, modules);
        lemma_items_names(f, items, (n - 1) as nat, root, modules);
        lemma_item_names(g, items[n - 1], root, modules);
        assert(declare_items(f, items, n, root, modules).names.dom() =~= f.names.dom().union(
            names_in_items(items, n, root),
        ));
    }
}

proof fn lemma_item_names(f: Found, item: Item, root: NamePath, modules: Set<NamePath>)
    ensures
        declare_item(f, item, root, modules).names.dom() == f.names.dom().union(
            names_in_item(item, root),
        ),
    decreases item, 0nat,
{
    match item {
        Item::Let { pattern, anno, body } => {
            let g = declare_pattern(f, pattern, root, modules);
            lemma_pattern_names(f, pattern, root, modules);
            let scope = pattern_scope(pattern, root);
            let l0 = fresh(g.messages);
            let l1 = match anno {
                Some(ty) => declare_type(l0, ty, scope, modules),
                None => l0,
            };
            let l2 = match body {
                Some(body) => declare_expression(l1, body, scope, pattern_name(pattern, root), modules),
                None => l1,
            };
            let a = match anno {
                Some(ty) => names_in_type(ty, scope),
                None => Set::empty(),
            };
            let b = match body {
                Some(b) => names_in_expression(b, scope, pattern_name(pattern, root)),
                None => Set::empty(),
            };
            match anno {
                Some(ty) => lemma_type_names(l0, ty, scope, modules),
                None => {},
            }
            match body {
                Some(bd) => lemma_expression_names(l1, bd, scope, pattern_name(pattern, root), modules),
                None => {},
            }
            assert(l1.names.dom() =~= a);
            assert(l2.names.dom() =~= a.union(b));
            lemma_nest_names(g, l2);
            assert(declare_item(f, item, root, modules).names.dom() =~= f.names.dom().union(
                names_in_item(item, root),
            ));
        },
    }
}

proof fn lemma_pattern_names(f: Found, p: Pattern, root: NamePath, modules: Set<NamePath>)
    ensures
        declare_pattern(f, p, root, modules).names.dom() == f.names.dom().union(
            names_in_pattern(p, root),
        ),
    decreases p, 0nat,
{
    match p.node {
        PatternNode::Annotate(inner, ty) => {
            let g = declare_pattern(f, *inner, root, modules);
            lemma_pattern_names(f, *inner, root, modules);
            let l = declare_type(fresh(g.messages), ty, pattern_scope(p, root), modules);
            lemma_type_names(fresh(g.messages), ty, pattern_scope(p, root), modules);
            lemma_nest_names(g, l);
            assert(declare_pattern(f, p, root, modules).names.dom() =~= f.names.dom().union(
                names_in_pattern(p, root),
            ));
        },
        PatternNode::Name(id) => {
            assert(declare_pattern(f, p, root, modules).names.dom() =~= f.names.dom().union(
                names_in_pattern(p, root),
            ));
        },
        _ => {
            assert(f.names.dom().union(Set::empty()) =~= f.names.dom());
        },
    }
}

proof fn lemma_type_names(f: Found, ty: Type, parent: NamePath, modules: Set<NamePath>)
    ensures
        declare_type(f, ty, parent, modules).names.dom() == f.names.dom().union(
            names_in_type(ty, parent),
        ),
    decreases ty, 0nat,
{
    match ty.node {
        TypeNode::Range { lower, upper, .. } => {
            let g = declare_expression(f, lower, parent, None, modules);
            lemma_expression_names(f, lower, parent, None, modules);
            lemma_expression_names(g, upper, parent, None, modules);
            assert(declare_type(f, ty, parent, modules).names.dom() =~= f.names.dom().union(
                names_in_type(ty, parent),
            ));
        },
        TypeNode::Invalid(_) => {
            assert(f.names.dom().union(Set::empty()) =~= f.names.dom());
        },
    }
}

proof fn lemma_expression_names(
    f: Found,
    e: Expression,
    parent: NamePath,
    bind: Option<NamePath>,
    modules: Set<NamePath>,
)
    ensures
        declare_expression(f, e, parent, bind, modules).names.dom() == f.names.dom().union(
            names_in_expression(e, parent, bind),
        ),
    decreases e, 0nat,
{
    match e.node {
        ExpressionNode::Entry { items, imports } => {
            let root = entry_scope(e, parent, bind);
            let g = declare_imports(fresh(f.messages), imports@, imports@.len(), root, modules);
            lemma_imports_names(fresh(f.messages), imports@, imports@.len(), root, modules);
            let h = declare_items(g, items@, items@.len(), root, modules);
            lemma_items_names(g, items@, items@.len(), root, modules);
            lemma_nest_names(f, h);
            assert(fresh(f.messages).names.dom() =~= Set::empty());
            assert(declare_expression(f, e, parent, bind, modules).names.dom() =~= f.names.dom().union(
                names_in_expression(e, parent, bind),
            ));
        },
        ExpressionNode::Block(es) => {
            lemma_expressions_names(f, es@, es@.len(), parent, modules);
        },
        ExpressionNode::Annotate(inner, ty) => {
            let g = declare_expression(f, *inner, parent, bind, modules);
            lemma_expression_names(f, *inner, parent, bind, modules);
            lemma_type_names(g, *ty, parent, modules);
            assert(declare_expression(f, e, parent, bind, modules).names.dom() =~= f.names.dom().union(
                names_in_expression(e, parent, bind),
            ));
        },
        ExpressionNode::Path(inner, _) => {
            lemma_expression_names(f, *inner, parent, bind, modules);
        },
        _ => {
            assert(f.names.dom().union(Set::empty()) =~= f.names.dom());
        },
    }
}

proof fn lemma_expressions_names(f: Found, es: Seq<Expression>, n: nat, parent: NamePath, modules: Set<NamePath>)
    ensures
        declare_expressions(f, es, n, parent, modules).names.dom() == f.names.dom().union(
            names_in_expressions(es, n, parent),
        ),
    decreases es, n,
{
    if n == 0 || n > es.len() {
        assert(f.names.dom().union(Set::empty()) =~= f.names.dom());
    } else {
        let g = declare_expressions(f, es, (n - 1) as nat, parent, modules);
        lemma_expressions_names(f, es, (n - 1) as nat, parent, modules);
        lemma_expression_names(g, es[n - 1], parent, None, modules);
        assert(declare_expressions(f, es, n, parent, modules).names.dom() =~= f.names.dom().union(
            names_in_expressions(es, n, parent),
        ));
    }
}

proof fn lemma_sources_names(f: Found, sources: Seq<AstSource>, n: nat, root: NamePath, modules: Set<NamePath>)
    ensures
        declare_sources(f, sources, n, root, modules).names.dom() == f.names.dom().union(
            names_in_sources(sources, n, root),
        ),
    decreases n,
{
    if n == 0 || n > sources.len() {
        assert(f.names.dom().union(Set::empty()) =~= f.names.dom());
    } else {
        let g = declare_sources(f, sources, (n - 1) as nat, root, modules);
        lemma_sources_names(f, sources, (n - 1) as nat, root, modules);
        let source = sources[n - 1];
        let h = declare_imports(g, source.imports@, source.imports@.len(), root, modules);
        lemma_imports_names(g, source.imports@, source.imports@.len(), root, modules);
        lemma_items_names(h, source.items@, source.items@.len(), root, modules);
        assert(declare_sources(f, sources, n, root, modules).names.dom() =~= f.names.dom().union(
            names_in_sources(sources, n, root),
        ));
    }
}

/// Declaring a module finds exactly the names that its items declare,
/// within the module or within the items and entries that enclose them,
/// whatever is reported on the way.
pub proof fn law_declared_names(
    messages: Seq<Message>,
    sources: Seq<AstSource>,
    root: NamePath,
    modules: Set<NamePath>,
)
    ensures
        declared(messages, sources, root, modules).names.dom() == names_in_sources(
            sources,
            sources.len(),
            root,
        ),
{
    lemma_sources_names(fresh(messages), sources, sources.len(), root, modules);
    assert(fresh(messages).names.dom() =~= Set::empty());
    assert(Set::<NamePath>::empty().union(names_in_sources(sources, sources.len(), root)) =~= names_in_sources(
        sources,
        sources.len(),
        root,
    ));
}

/// The spelled out name of `bind`, if any.
pub open spec fn bind_path(t: NameTable, bind: Option<Name>) -> Option<NamePath> {
    match bind {
        Some(n) => Some(t.name_path(n)),
        None => None,
    }
}

/// The spelled out name of `name`, if any.
pub open spec fn item_name_path(t: NameTable, name: Option<ItemName>) -> Option<NamePath> {
    match name {
        Some(n) => Some(t.path(DeclarableName::Item(n))),
        None => None,
    }
}

/// `db` became `db2` by adding texts and names to its table, and messages.
pub open spec fn db_grows(db: NameDb, db2: NameDb) -> bool {
    &&& db2.wf()
    &&& db.table.grows_into(db2.table)
    &&& db2.modules == db.modules
    &&& db2.module_paths() == db.module_paths()
}

/// Every name declared within the module named `module`, with where it is
/// first declared. Names declared twice within one scope, or that an import
/// of the scope or a module already use, are reported.
pub fn declared_names(db: &mut NameDb, module: ItemName, sources: &Vec<AstSource>) -> (names: Vec<(Name, Span)>)
    requires
        old(db).wf(),
        old(db).table.has(DeclarableName::Item(module)),
        declared(
            old(db).messages@,
            sources@,
            old(db).table.path(DeclarableName::Item(module)),
            old(db).module_paths(),
        ).ok,
    ensures
        db_grows(*old(db), *final(db)),
        lists(
            final(db).table,
            names@,
            declared(
                old(db).messages@,
                sources@,
                old(db).table.path(DeclarableName::Item(module)),
                old(db).module_paths(),
            ).names,
        ),
        only_items(names@),
        final(db).messages@ == declared(
            old(db).messages@,
            sources@,
            old(db).table.path(DeclarableName::Item(module)),
            old(db).module_paths(),
        ).messages,
{
    let ghost root = db.table.path(DeclarableName::Item(module));
    let ghost modules = db.module_paths();
    let mut declarer = Declarer::new(db, DeclarableName::Item(module));
    let mut i: usize = 0;
    while i < sources.len()
        invariant
            db_grows(*old(db), *db),
            modules == old(db).module_paths(),
            root == old(db).table.path(DeclarableName::Item(module)),
            declarer.inv(db),
            declarer.parent == DeclarableName::Item(module),
            db.table.path(declarer.parent) == root,
            i <= sources@.len(),
            declarer.found@ == declare_sources(fresh(old(db).messages@), sources@, i as nat, root, modules),
        decreases sources@.len() - i,
    {
        declarer.declare_source(db, &sources[i]);
        i = i + 1;
    }
    declarer.names
}

/// Declares the names of one scope of items.
pub struct Declarer {
    /// The name everything here is declared within.
    parent: DeclarableName,
    /// The names declared so far, with where.
    names: Vec<(Name, Span)>,
    /// The names imported so far, with where.
    imports: Vec<(RawName, Span)>,
    /// What has been found so far.
    found: Ghost<Found>,
}

/// Declares the names within the expressions of one scope.
struct LocalDeclarer {
    /// The name everything here is declared within.
    parent: DeclarableName,
    /// The names declared so far, with where.
    names: Vec<(Name, Span)>,
    /// What has been found so far.
    found: Ghost<Found>,
}

impl Declarer {
    /// The lists hold what has been found, in `t`.
    pub closed spec fn holds(self, t: NameTable) -> bool {
        &&& t.has(self.parent)
        &&& lists(t, self.names@, self.found@.names)
        &&& only_items(self.names@)
        &&& lists_raw(t, self.imports@, self.found@.imports)
    }

    /// The lists hold what has been found, in the table of `db`, and the
    /// messages found are those of `db`.
    pub closed spec fn inv(self, db: &NameDb) -> bool {
        &&& self.holds(db.table)
        &&& self.found@.messages == db.messages@
    }

    /// What has been found so far.
    pub closed spec fn found(self) -> Found {
        self.found@
    }

    /// The name everything here is declared within.
    pub closed spec fn root(self) -> DeclarableName {
        self.parent
    }

    /// Keep the lists as the table grows.
    proof fn lemma_grow(self, t: NameTable, t2: NameTable)
        requires
            self.holds(t),
            t.grows_into(t2),
        ensures
            self.holds(t2),
    {
        lemma_lists_grow(t, t2, self.names@, self.found@.names);
        lemma_lists_raw_grow(t, t2, self.imports@, self.found@.imports);
    }

    /// A declarer of names within `root`, that has found nothing yet.
    pub fn new(db: &NameDb, root: DeclarableName) -> (d: Self)
        requires
            db.table.has(root),
        ensures
            d.inv(db),
            d.root() == root,
            d.found() == fresh(db.messages@),
    {
        Declarer {
            parent: root,
            names: Vec::new(),
            imports: Vec::new(),
            found: Ghost(fresh(db.messages@)),
        }
    }

    /// Declare the imports and then the items of a source.
    pub fn declare_source(&mut self, db: &mut NameDb, source: &AstSource)
        requires
            old(db).wf(),
            old(self).inv(old(db)),
        ensures
            db_grows(*old(db), *final(db)),
            final(self).inv(final(db)),
            final(self).root() == old(self).root(),
            final(self).found() == declare_items(
                declare_imports(
                    old(self).found(),
                    source.imports@,
                    source.imports@.len(),
                    old(db).table.path(old(self).root()),
                    old(db).module_paths(),
                ),
                source.items@,
                source.items@.len(),
                old(db).table.path(old(self).root()),
                old(db).module_paths(),
            ),
    {
        self.declare_imports(db, &source.imports);
        self.declare_items(db, &source.items);
    }

    /// Declare what some imports declare.
    fn declare_imports(&mut self, db: &mut NameDb, imports: &Vec<Import>)
        requires
            old(db).wf(),
            old(self).inv(old(db)),
        ensures
            db_grows(*old(db), *final(db)),
            final(self).inv(final(db)),
            final(self).parent == old(self).parent,
            final(self).found@ == declare_imports(
                old(self).found@,
                imports@,
                imports@.len(),
                old(db).table.path(old(self).parent),
                old(db).module_paths(),
            ),
        decreases imports@, 0nat,
    {
        let ghost root = db.table.path(self.parent);
        let ghost f0 = self.found@;
        let mut i: usize = 0;
        while i < imports.len()
            invariant
                db_grows(*old(db), *db),
                self.inv(db),
                self.parent == old(self).parent,
                root == old(db).table.path(old(self).parent),
                db.table.path(self.parent) == root,
                i <= imports@.len(),
                self.found@ == declare_imports(f0, imports@, i as nat, root, old(db).module_paths()),
            decreases imports@.len() - i,
        {
            self.declare_import(db, &imports[i]);
            i = i + 1;
        }
    }

    /// Declare what the expression an import is from declares, and the
    /// aliases it brings in.
    fn declare_import(&mut self, db: &mut NameDb, import: &Import)
        requires
            old(db).wf(),
            old(self).inv(old(db)),
        ensures
            db_grows(*old(db), *final(db)),
            final(self).inv(final(db)),
            final(self).parent == old(self).parent,
            final(self).found@ == declare_import(
                old(self).found@,
                *import,
                old(db).table.path(old(self).parent),
                old(db).module_paths(),
            ),
        decreases *import, 0nat,
    {
        let ghost root = db.table.path(self.parent);
        let ghost modules = db.module_paths();
        if let Some(from) = &import.from {
            let ghost before = *db;
            let mut locals = LocalDeclarer::new(db, self.parent);
            locals.declare_expression(db, from, None);
            proof {
                self.lemma_grow(before.table, db.table);
            }
            self.take_nested(db, locals.names, locals.found);
        }
        let ghost g = self.found@;
        let mut i: usize = 0;
        while i < import.names.len()
            invariant
                db_grows(*old(db), *db),
                self.inv(db),
                self.parent == old(self).parent,
                root == old(db).table.path(old(self).parent),
                db.table.path(self.parent) == root,
                modules == old(db).module_paths(),
                i <= import.names@.len(),
                self.found@ == declare_aliases(g, import.names@, i as nat),
            decreases import.names@.len() - i,
        {
            let name = &import.names[i];
            let span = name.span;
            let ghost before = *db;
            let alias = db.table.raw(&name.alias.name);
            proof {
                self.lemma_grow(before.table, db.table);
                before.lemma_module_paths(*db);
            }
            match find_raw(&db.table, &self.imports, alias, Ghost(self.found@.imports)) {
                Some(previous) => {
                    db.messages.push(
                        Message { kind: MessageKind::DuplicateDefinition { previous }, span },
                    );
                    proof {
                        self.found@ = Found {
                            names: self.found@.names,
                            imports: self.found@.imports,
                            messages: db.messages@,
                            ok: self.found@.ok,
                        };
                    }
                },
                None => {
                    proof {
                        lemma_lists_raw_push(db.table, self.imports@, self.found@.imports, alias, span);
                        let f = self.found@;
                        self.found@ = Found {
                            names: f.names,
                            imports: f.imports.insert(name.alias.name@, span),
                            messages: f.messages,
                            ok: f.ok,
                        };
                    }
                    self.imports.push((alias, span));
                },
            }
            i = i + 1;
        }
    }

    /// Declare what some items declare.
    fn declare_items(&mut self, db: &mut NameDb, items: &Vec<Item>)
        requires
            old(db).wf(),
            old(self).inv(old(db)),
        ensures
            db_grows(*old(db), *final(db)),
            final(self).inv(final(db)),
            final(self).parent == old(self).parent,
            final(self).found@ == declare_items(
                old(self).found@,
                items@,
                items@.len(),
                old(db).table.path(old(self).parent),
                old(db).module_paths(),
            ),
        decreases items@, 0nat,
    {
        let ghost root = db.table.path(self.parent);
        let ghost f0 = self.found@;
        let mut i: usize = 0;
        while i < items.len()
            invariant
                db_grows(*old(db), *db),
                self.inv(db),
                self.parent == old(self).parent,
                root == old(db).table.path(old(self).parent),
                db.table.path(self.parent) == root,
                i <= items@.len(),
                self.found@ == declare_items(f0, items@, i as nat, root, old(db).module_paths()),
            decreases items@.len() - i,
        {
            self.declare_item(db, &items[i]);
            i = i + 1;
        }
    }

    /// Declare what an item declares: the name its pattern binds here, and
    /// what its annotation and body declare within that name.
    fn declare_item(&mut self, db: &mut NameDb, item: &Item)
        requires
            old(db).wf(),
            old(self).inv(old(db)),
        ensures
            db_grows(*old(db), *final(db)),
            final(self).inv(final(db)),
            final(self).parent == old(self).parent,
            final(self).found@ == declare_item(
                old(self).found@,
                *item,
                old(db).table.path(old(self).parent),
                old(db).module_paths(),
            ),
        decreases *item, 0nat,
    {
        let ghost root = db.table.path(self.parent);
        match item {
            Item::Let { pattern, anno, body } => {
                let name = self.declare_pattern(db, pattern);
                let ghost before = *db;
                let scope = match name {
                    Some(name) => DeclarableName::Item(name),
                    None => DeclarableName::Unnamable(
                        db.table.unnamable(UnnamableNameKind::Pattern, Some(self.parent), pattern.span),
                    ),
                };
                proof {
                    self.lemma_grow(before.table, db.table);
                    before.lemma_module_paths(*db);
                }
                let mut locals = LocalDeclarer::new(db, scope);
                if let Some(anno) = anno {
                    locals.declare_type(db, anno);
                }
                if let Some(body) = body {
                    let bind = match name {
                        Some(name) => Some(Name::Item(name)),
                        None => None,
                    };
                    locals.declare_expression(db, body, bind);
                }
                proof {
                    self.lemma_grow(before.table, db.table);
                }
                self.take_nested(db, locals.names, locals.found);
            },
        }
    }

    /// Declare the name a pattern binds, and what the annotations within it
    /// declare; give the name, if any.
    fn declare_pattern(&mut self, db: &mut NameDb, pattern: &Pattern) -> (name: Option<ItemName>)
        requires
            old(db).wf(),
            old(self).inv(old(db)),
        ensures
            db_grows(*old(db), *final(db)),
            final(self).inv(final(db)),
            final(self).parent == old(self).parent,
            final(self).found@ == declare_pattern(
                old(self).found@,
                *pattern,
                old(db).table.path(old(self).parent),
                old(db).module_paths(),
            ),
            name matches Some(n) ==> final(db).table.has(DeclarableName::Item(n)),
            item_name_path(final(db).table, name) == pattern_name(*pattern, old(db).table.path(old(self).parent)),
        decreases *pattern, 0nat,
    {
        let span = pattern.span;
        match &pattern.node {
            PatternNode::Annotate(inner, ty) => {
                let name = self.declare_pattern(db, inner);
                let ghost before = *db;
                let root = match name {
                    Some(root) => DeclarableName::Item(root),
                    None => DeclarableName::Unnamable(
                        db.table.unnamable(UnnamableNameKind::Pattern, Some(self.parent), span),
                    ),
                };
                proof {
                    self.lemma_grow(before.table, db.table);
                    before.lemma_module_paths(*db);
                }
                let mut locals = LocalDeclarer::new(db, root);
                locals.declare_type(db, ty);
                proof {
                    self.lemma_grow(before.table, db.table);
                }
                self.take_nested(db, locals.names, locals.found);
                name
            },
            PatternNode::Name(id) => {
                let ghost before = *db;
                let raw = db.table.raw(&id.name);
                let name = db.table.item(Some(self.parent), raw);
                proof {
                    self.lemma_grow(before.table, db.table);
                    before.lemma_module_paths(*db);
                }
                self.try_declare_name(db, name, raw, span);
                Some(name)
            },
            PatternNode::Unit => None,
            PatternNode::Invalid(_) => None,
        }
    }

    /// Declare `name`, whose text is that of `text`, at `span`, unless it is
    /// declared already; report it if it was, or if an import or a module
    /// uses it.
    fn try_declare_name(&mut self, db: &mut NameDb, name: ItemName, text: RawName, span: Span)
        requires
            old(db).wf(),
            old(self).inv(old(db)),
            old(db).table.has(DeclarableName::Item(name)),
            old(db).table.has_raw(text),
            old(db).table.path(DeclarableName::Item(name)) == item_path(
                old(db).table.path(old(self).parent),
                old(db).table.texts()[text.0 as int],
            ),
        ensures
            db_grows(*old(db), *final(db)),
            final(db).table == old(db).table,
            final(self).inv(final(db)),
            final(self).parent == old(self).parent,
            final(self).found@ == declare_name(
                old(self).found@,
                old(db).table.path(old(self).parent),
                old(db).table.texts()[text.0 as int],
                span,
                old(db).module_paths(),
            ),
    {
        proof {
            db.lemma_module_paths(*db);
        }
        let n = Name::Item(name);
        match find_name(&db.table, &self.names, n, Ghost(self.found@.names)) {
            Some(previous) => {
                db.messages.push(Message { kind: MessageKind::DuplicateDefinition { previous }, span });
                proof {
                    self.found@ = Found {
                        names: self.found@.names,
                        imports: self.found@.imports,
                        messages: db.messages@,
                        ok: self.found@.ok,
                    };
                }
                return;
            },
            None => {},
        }
        if let Some(previous) = find_raw(&db.table, &self.imports, text, Ghost(self.found@.imports)) {
            db.messages.push(Message { kind: MessageKind::DuplicateDefinition { previous }, span });
        }
        if db.is_module(name) {
            db.messages.push(Message { kind: MessageKind::DuplicateModuleDefinition, span });
        }
        proof {
            lemma_lists_push(db.table, self.names@, self.found@.names, n, span);
            let f = self.found@;
            self.found@ = Found {
                names: f.names.insert(db.table.name_path(n), span),
                imports: f.imports,
                messages: db.messages@,
                ok: f.ok,
            };
        }
        self.names.push((n, span));
    }

    /// Add what a nested scope found to what this one found.
    fn take_nested(&mut self, db: &NameDb, names: Vec<(Name, Span)>, found: Ghost<Found>)
        requires
            db.wf(),
            lists(db.table, names@, found@.names),
            only_items(names@),
            found@.messages == db.messages@,
            old(self).holds(db.table),
        ensures
            final(self).inv(db),
            final(self).parent == old(self).parent,
            final(self).found@ == nest(old(self).found@, found@),
    {
        let ghost outer = self.found@;
        take_names(&db.table, &mut self.names, names, Ghost(outer.names), Ghost(found@.names));
        self.found = Ghost(nest(outer, found@));
    }
}

impl LocalDeclarer {
    /// The list holds what has been found, in `t`.
    spec fn holds(self, t: NameTable) -> bool {
        &&& t.has(self.parent)
        &&& lists(t, self.names@, self.found@.names)
        &&& only_items(self.names@)
    }

    /// The list holds what has been found, in the table of `db`, and the
    /// messages found are those of `db`.
    spec fn inv(self, db: &NameDb) -> bool {
        &&& self.holds(db.table)
        &&& self.found@.messages == db.messages@
        &&& self.found@.imports == Map::<Seq<char>, Span>::empty()
    }

    /// Keep the list as the table grows.
    proof fn lemma_grow(self, t: NameTable, t2: NameTable)
        requires
            self.holds(t),
            t.grows_into(t2),
        ensures
            self.holds(t2),
    {
        lemma_lists_grow(t, t2, self.names@, self.found@.names);
    }

    /// A declarer of names within `root`, that has found nothing yet.
    fn new(db: &NameDb, root: DeclarableName) -> (d: Self)
        requires
            db.table.has(root),
        ensures
            d.inv(db),
            d.parent == root,
            d.found@ == fresh(db.messages@),
    {
        LocalDeclarer { parent: root, names: Vec::new(), found: Ghost(fresh(db.messages@)) }
    }

    /// Declare what the bounds of a type declare.
    fn declare_type(&mut self, db: &mut NameDb, ty: &Type)
        requires
            old(db).wf(),
            old(self).inv(old(db)),
        ensures
            db_grows(*old(db), *final(db)),
            final(self).inv(final(db)),
            final(self).parent == old(self).parent,
            final(self).found@ == declare_type(
                old(self).found@,
                *ty,
                old(db).table.path(old(self).parent),
                old(db).module_paths(),
            ),
        decreases *ty, 0nat,
    {
        match &ty.node {
            TypeNode::Range { clusivity: _, lower, upper } => {
                self.declare_expression(db, lower, None);
                self.declare_expression(db, upper, None);
            },
            TypeNode::Invalid(_) => {},
        }
    }

    /// Declare what an expression declares, where it is bound to `bind`, if
    /// to anything.
    fn declare_expression(&mut self, db: &mut NameDb, expression: &Expression, bind: Option<Name>)
        requires
            old(db).wf(),
            old(self).inv(old(db)),
            bind matches Some(b) ==> old(db).table.has(b.spec_declarable()),
        ensures
            db_grows(*old(db), *final(db)),
            final(self).inv(final(db)),
            final(self).parent == old(self).parent,
            final(self).found@ == declare_expression(
                old(self).found@,
                *expression,
                old(db).table.path(old(self).parent),
                bind_path(old(db).table, bind),
                old(db).module_paths(),
            ),
        decreases *expression, 0nat,
    {
        let span = expression.span;
        match &expression.node {
            ExpressionNode::Entry { items, imports } => {
                let ghost before = *db;
                let root = match bind {
                    Some(bind) => bind.declarable(),
                    None => DeclarableName::Unnamable(
                        db.table.unnamable(UnnamableNameKind::Entry, Some(self.parent), span),
                    ),
                };
                proof {
                    self.lemma_grow(before.table, db.table);
                    before.lemma_module_paths(*db);
                }
                let mut declarer = Declarer::new(db, root);
                declarer.declare_imports(db, imports);
                declarer.declare_items(db, items);
                proof {
                    self.lemma_grow(before.table, db.table);
                }
                let ghost outer = self.found@;
                take_names(&db.table, &mut self.names, declarer.names, Ghost(outer.names), Ghost(declarer.found@.names));
                self.found = Ghost(nest(outer, declarer.found@));
            },
            ExpressionNode::Block(expressions) => {
                self.declare_expressions(db, expressions);
            },
            ExpressionNode::Annotate(inner, ty) => {
                self.declare_expression(db, inner, bind);
                self.declare_type(db, ty);
            },
            ExpressionNode::Path(inner, _) => {
                self.declare_expression(db, inner, bind);
            },
            ExpressionNode::Name(_)
            | ExpressionNode::Number(_)
            | ExpressionNode::String(_)
            | ExpressionNode::Unit
            | ExpressionNode::Invalid(_) => {},
        }
    }

    /// Declare what the expressions of a block declare.
    fn declare_expressions(&mut self, db: &mut NameDb, expressions: &Vec<Expression>)
        requires
            old(db).wf(),
            old(self).inv(old(db)),
        ensures
            db_grows(*old(db), *final(db)),
            final(self).inv(final(db)),
            final(self).parent == old(self).parent,
            final(self).found@ == declare_expressions(
                old(self).found@,
                expressions@,
                expressions@.len(),
                old(db).table.path(old(self).parent),
                old(db).module_paths(),
            ),
        decreases expressions@, 0nat,
    {
        let ghost parent = db.table.path(self.parent);
        let ghost f0 = self.found@;
        let mut i: usize = 0;
        while i < expressions.len()
            invariant
                db_grows(*old(db), *db),
                self.inv(db),
                self.parent == old(self).parent,
                parent == old(db).table.path(old(self).parent),
                db.table.path(self.parent) == parent,
                i <= expressions@.len(),
                self.found@ == declare_expressions(f0, expressions@, i as nat, parent, old(db).module_paths()),
            decreases expressions@.len() - i,
        {
            self.declare_expression(db, &expressions[i], None);
            i = i + 1;
        }
    }
}

} // verus!
