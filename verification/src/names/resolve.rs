//! Resolving: replacing each name of a module's syntax tree by what it
//! refers to.
//!
//! A name refers to the innermost item of that name that is declared, imported
//! or a module, looking within the scope the name stands in, then within each
//! scope that one is declared within, and then in the scopes of items around.

use vstd::prelude::*;

use crate::ast::{
    AstSource, Expression, ExpressionNode, Import, ImportedName, Item, Pattern, PatternNode, Type,
    TypeNode,
};
use crate::invalid::Reason;
use crate::messages::{Message, MessageKind};
use crate::names::declare::{
    bind_path, db_grows, declared, declared_names, entry_scope, item_name_path, item_path,
    pattern_name, pattern_scope,
};
use crate::names::{
    find_name, lemma_lists_grow as lemma_lists_grow_in, lists, only_items, DeclarableName, ItemName, Name, NameDb, NamePath, NameTable,
    RawName, UnnamableNameKind,
};
use crate::resolved;
use crate::source::Span;

verus! {

/// A scope of items as resolving sees it: the name everything there is
/// declared within, and the aliases its imports bring in, each as the item
/// name it is known by, its text, and where it is imported.
pub struct Part {
    pub parent: NamePath,
    pub imports: Seq<(NamePath, Seq<char>, Span)>,
}

/// What the module declares, and the modules there are.
pub struct Known {
    pub declared: Set<NamePath>,
    pub modules: Set<NamePath>,
}

/// What a name refers to.
pub enum Resolution {
    /// A declared item, or a module.
    Name(NamePath),
    /// An alias brought in by an import: its text and where it is imported.
    Alias(Seq<char>, Span),
    /// Nothing.
    Neither,
}

/// What is to be reported while resolving.
pub enum Report {
    /// An import from nothing, at a span.
    BareImport(Span),
    /// A name that refers to nothing: its text, and where it stands.
    Unresolved(Seq<char>, Span),
}

/// Whether `m` is the message for `r`.
pub open spec fn reported(m: Message, r: Report) -> bool {
    match r {
        Report::BareImport(span) => m.kind == MessageKind::BareImportUnsupported && m.span == span,
        Report::Unresolved(text, span) => m.span == span && (m.kind matches MessageKind::UnresolvedName(s)
            && s@ == text),
    }
}

/// `after` is `before` with a message for each report of `rs` added, in order.
pub open spec fn reports(before: Seq<Message>, after: Seq<Message>, rs: Seq<Report>) -> bool {
    &&& after.len() == before.len() + rs.len()
    &&& forall|i: int| 0 <= i < before.len() ==> after[i] == before[i]
    &&& forall|i: int| 0 <= i < rs.len() ==> reported(#[trigger] after[before.len() + i], rs[i])
}

/// Reporting `r1` and then `r2` reports `r1 + r2`.
pub proof fn lemma_reports(m0: Seq<Message>, m1: Seq<Message>, m2: Seq<Message>, r1: Seq<Report>, r2: Seq<Report>)
    requires
        reports(m0, m1, r1),
        reports(m1, m2, r2),
    ensures
        reports(m0, m2, r1 + r2),
{
    let rs = r1 + r2;
    assert forall|i: int| 0 <= i < rs.len() implies reported(#[trigger] m2[m0.len() + i], rs[i]) by {
        if i < r1.len() {
            assert(m2[m0.len() + i] == m1[m0.len() + i]);
        } else {
            let j = i - r1.len();
            assert(m2[m1.len() + j] == m2[m0.len() + i]);
        }
    }
}

/// Nothing reported.
pub proof fn lemma_reports_none(m: Seq<Message>)
    ensures
        reports(m, m, Seq::empty()),
{
}

/// The alias imported last under the item name `key`, among the first `n`.
pub open spec fn import_alias(imports: Seq<(NamePath, Seq<char>, Span)>, key: NamePath, n: nat) -> Option<(Seq<char>, Span)>
    decreases n,
{
    if n == 0 || n > imports.len() {
        None
    } else if imports[n - 1].0 == key {
        Some((imports[n - 1].1, imports[n - 1].2))
    } else {
        import_alias(imports, key, (n - 1) as nat)
    }
}

/// What `text` refers to in `part`: the item of that name within `parent`,
/// if it is declared, imported or a module, or else what it refers to within
/// the name `parent` is declared within, up to the top level.
pub open spec fn resolve_within(parent: Option<Box<NamePath>>, text: Seq<char>, part: Part, k: Known) -> Resolution
    decreases parent,
{
    let item = NamePath::Item { parent, name: text };
    if k.declared.contains(item) {
        Resolution::Name(item)
    } else {
        match import_alias(part.imports, item, part.imports.len()) {
            Some(alias) => Resolution::Alias(alias.0, alias.1),
            None => if k.modules.contains(item) {
                Resolution::Name(item)
            } else {
                match parent {
                    Some(p) => match *p {
                        NamePath::Item { parent: q, .. } => resolve_within(q, text, part, k),
                        NamePath::Local { parent: q, .. } => resolve_within(q, text, part, k),
                        NamePath::Unnamable { parent: q, .. } => resolve_within(q, text, part, k),
                    },
                    None => Resolution::Neither,
                }
            },
        }
    }
}

/// What `text` refers to among the scopes of items `env`, innermost last.
pub open spec fn lookup(env: Seq<Part>, text: Seq<char>, k: Known) -> Resolution
    decreases env.len(),
{
    if env.len() == 0 {
        Resolution::Neither
    } else {
        let part = env.last();
        match resolve_within(Some(Box::new(part.parent)), text, part, k) {
            Resolution::Neither => lookup(env.drop_last(), text, k),
            r => r,
        }
    }
}

/// A name declared in the innermost scope of items is what the name refers
/// to there, before any import, module or outer scope.
pub proof fn law_declared_first(env: Seq<Part>, text: Seq<char>, k: Known)
    requires
        env.len() > 0,
        k.declared.contains(item_path(env.last().parent, text)),
    ensures
        lookup(env, text, k) == Resolution::Name(item_path(env.last().parent, text)),
{
}

/// What an alias is found as was brought in by one of the imports.
proof fn lemma_import_alias_from(imports: Seq<(NamePath, Seq<char>, Span)>, key: NamePath, n: nat)
    ensures
        import_alias(imports, key, n) matches Some(a) ==> exists|j: int|
            0 <= j < imports.len() && (#[trigger] imports[j]).0 == key && imports[j].1 == a.0
                && imports[j].2 == a.1,
    decreases n,
{
    if n > 0 && n <= imports.len() && imports[n - 1].0 != key {
        lemma_import_alias_from(imports, key, (n - 1) as nat);
    }
}

/// What a name is found to refer to within a scope exists.
proof fn lemma_resolve_within_exists(parent: Option<Box<NamePath>>, text: Seq<char>, part: Part, k: Known)
    ensures
        match resolve_within(parent, text, part, k) {
            Resolution::Name(p) => k.declared.contains(p) || k.modules.contains(p),
            Resolution::Alias(a, s) => exists|j: int|
                0 <= j < part.imports.len() && (#[trigger] part.imports[j]).1 == a && part.imports[j].2 == s,
            Resolution::Neither => true,
        },
    decreases parent,
{
    let item = NamePath::Item { parent, name: text };
    lemma_import_alias_from(part.imports, item, part.imports.len());
    match parent {
        Some(p) => match *p {
            NamePath::Item { parent: q, .. } => lemma_resolve_within_exists(q, text, part, k),
            NamePath::Local { parent: q, .. } => lemma_resolve_within_exists(q, text, part, k),
            NamePath::Unnamable { parent: q, .. } => lemma_resolve_within_exists(q, text, part, k),
        },
        None => {},
    }
}

/// A name refers only to what exists: an item that is declared, a module,
/// or an alias that an import of one of the scopes around brings in.
pub proof fn law_resolution_exists(env: Seq<Part>, text: Seq<char>, k: Known)
    ensures
        match lookup(env, text, k) {
            Resolution::Name(p) => k.declared.contains(p) || k.modules.contains(p),
            Resolution::Alias(a, s) => exists|i: int, j: int|
                0 <= i < env.len() && 0 <= j < env[i].imports.len() && (#[trigger] env[i].imports[j]).1 == a
                    && env[i].imports[j].2 == s,
            Resolution::Neither => true,
        },
    decreases env.len(),
{
    if env.len() > 0 {
        let part = env.last();
        lemma_resolve_within_exists(Some(Box::new(part.parent)), text, part, k);
        law_resolution_exists(env.drop_last(), text, k);
        match lookup(env, text, k) {
            Resolution::Alias(a, s) => {
                if resolve_within(Some(Box::new(part.parent)), text, part, k) is Neither {
                    let (i, j) = choose|i: int, j: int|
                        0 <= i < env.drop_last().len() && 0 <= j < env.drop_last()[i].imports.len()
                            && (#[trigger] env.drop_last()[i].imports[j]).1 == a && env.drop_last()[i].imports[j].2 == s;
                    assert(env[i] == env.drop_last()[i]);
                } else {
                    let j = choose|j: int|
                        0 <= j < part.imports.len() && (#[trigger] part.imports[j]).1 == a && part.imports[j].2 == s;
                    assert(env[env.len() - 1] == part);
                    assert(env[env.len() - 1].imports[j].1 == a);
                }
            },
            _ => {},
        }
    }
}

/// The aliases that the first `n` imports bring in, as items within `within`.
pub open spec fn imported(imports: Seq<Import>, within: NamePath, n: nat) -> Seq<(NamePath, Seq<char>, Span)>
    decreases n,
{
    if n == 0 || n > imports.len() {
        Seq::empty()
    } else {
        imported(imports, within, (n - 1) as nat) + imports[n - 1].names@.map_values(
            |name: ImportedName| (item_path(within, name.alias.name@), name.alias.name@, name.span),
        )
    }
}

/// How many of the first `n` imports are from something.
pub open spec fn kept(imports: Seq<Import>, n: nat) -> nat
    decreases n,
{
    if n == 0 || n > imports.len() {
        0
    } else {
        kept(imports, (n - 1) as nat) + if imports[n - 1].from is Some { 1nat } else { 0nat }
    }
}

/// The scope of items an entry opens within `parent`.
pub open spec fn entry_part(e: Expression, parent: NamePath, bind: Option<NamePath>) -> Part {
    match e.node {
        ExpressionNode::Entry { imports, .. } => Part {
            parent: entry_scope(e, parent, bind),
            imports: imported(imports@, parent, imports@.len()),
        },
        _ => Part { parent: entry_scope(e, parent, bind), imports: Seq::empty() },
    }
}

/// Whether `r` is the identifier `id`, its text by number in `t`.
pub open spec fn res_ident(t: NameTable, id: crate::ast::Identifier, r: resolved::Identifier) -> bool {
    &&& r.span == id.span
    &&& t.has_raw(r.name)
    &&& t.texts()[r.name.0 as int] == id.name@
}

/// Whether `r` is the alias `a`, its text by number in `t`.
pub open spec fn res_alias(t: NameTable, a: (Seq<char>, Span), r: resolved::Alias) -> bool {
    &&& t.has_raw(r.name)
    &&& t.texts()[r.name.0 as int] == a.0
    &&& r.defined == a.1
}

/// Whether `r` is the type `ty` resolved among `env`, within `parent`.
pub open spec fn res_type(t: NameTable, ty: Type, r: resolved::Type, env: Seq<Part>, parent: NamePath, k: Known) -> bool
    decreases ty, 0nat,
{
    &&& r.span == ty.span
    &&& match ty.node {
        TypeNode::Range { clusivity, lower, upper } => {
            &&& r.node matches resolved::TypeNode::Range { clusivity: c, lower: l, upper: u }
            &&& c == clusivity
            &&& res_expr(t, lower, *l, env, parent, None, k)
            &&& res_expr(t, upper, *u, env, parent, None, k)
        },
        TypeNode::Invalid(reason) => r.node == resolved::TypeNode::Invalid(reason),
    }
}

/// Whether `r` is the expression `e` resolved among `env`, within `parent`,
/// where `e` is bound to `bind`, if to anything.
pub open spec fn res_expr(
    t: NameTable,
    e: Expression,
    r: resolved::Expression,
    env: Seq<Part>,
    parent: NamePath,
    bind: Option<NamePath>,
    k: Known,
) -> bool
    decreases e, 0nat,
{
    &&& r.span == e.span
    &&& match e.node {
        ExpressionNode::Entry { items, imports } => {
            let inner = env.push(entry_part(e, parent, bind));
            &&& r.node matches resolved::ExpressionNode::Entry { items: ri, imports: rm }
            &&& ri@.len() == items@.len()
            &&& forall|i: int| 0 <= i < items@.len() ==> res_item(t, items@[i], #[trigger] ri@[i], inner, k)
            &&& rm@.len() == kept(imports@, imports@.len())
            &&& forall|i: int|
                0 <= i < imports@.len() && (#[trigger] imports@[i]).from is Some ==> res_import(
                    t,
                    imports@[i],
                    rm@[kept(imports@, i as nat) as int],
                    inner,
                    k,
                )
        },
        ExpressionNode::Block(es) => {
            &&& r.node matches resolved::ExpressionNode::Block(rs)
            &&& rs@.len() == es@.len()
            &&& forall|i: int| 0 <= i < es@.len() ==> res_expr(t, es@[i], #[trigger] rs@[i], env, parent, None, k)
        },
        ExpressionNode::Annotate(inner, ty) => {
            &&& r.node matches resolved::ExpressionNode::Annotate(ri, rt)
            &&& res_expr(t, *inner, *ri, env, parent, bind, k)
            &&& res_type(t, *ty, *rt, env, parent, k)
        },
        ExpressionNode::Path(inner, field) => {
            &&& r.node matches resolved::ExpressionNode::Path(ri, rf)
            &&& res_expr(t, *inner, *ri, env, parent, bind, k)
            &&& res_ident(t, field, rf)
        },
        ExpressionNode::Name(id) => match lookup(env, id.name@, k) {
            Resolution::Name(p) => r.node matches resolved::ExpressionNode::Name(n) && t.has(
                n.spec_declarable(),
            ) && t.name_path(n) == p,
            Resolution::Alias(text, span) => r.node matches resolved::ExpressionNode::Alias(a)
                && res_alias(t, (text, span), a),
            Resolution::Neither => r.node == resolved::ExpressionNode::Invalid(Reason::NameError),
        },
        ExpressionNode::Number(s) => r.node matches resolved::ExpressionNode::Number(rs) && rs@ == s@,
        ExpressionNode::String(s) => r.node matches resolved::ExpressionNode::String(rs) && rs@ == s@,
        ExpressionNode::Unit => r.node is Unit,
        ExpressionNode::Invalid(reason) => r.node == resolved::ExpressionNode::Invalid(reason),
    }
}

/// Whether `r` is the item `item` resolved in the innermost scope of items
/// of `env`.
pub open spec fn res_item(t: NameTable, item: Item, r: resolved::Item, env: Seq<Part>, k: Known) -> bool
    decreases item, 0nat,
{
    match item {
        Item::Let { pattern, anno, body } => {
            let root = env.last().parent;
            let scope = pattern_scope(pattern, root);
            &&& r matches resolved::Item::Let { pattern: rp, anno: ra, body: rb }
            &&& res_pattern(t, pattern, rp, env, root, k)
            &&& match anno {
                Some(ty) => ra matches Some(rt) && res_type(t, ty, rt, env, scope, k),
                None => ra is None,
            }
            &&& match body {
                Some(b) => rb matches Some(re) && res_expr(t, b, re, env, scope, pattern_name(pattern, root), k),
                None => rb is None,
            }
        },
    }
}

/// Whether `r` is the pattern `p` of an item within `root` resolved among
/// `env`.
pub open spec fn res_pattern(
    t: NameTable,
    p: Pattern,
    r: resolved::Pattern<ItemName>,
    env: Seq<Part>,
    root: NamePath,
    k: Known,
) -> bool
    decreases p, 0nat,
{
    &&& r.span == p.span
    &&& match p.node {
        PatternNode::Annotate(inner, ty) => {
            &&& r.node matches resolved::PatternNode::Annotate(ri, rt)
            &&& res_pattern(t, *inner, *ri, env, root, k)
            &&& res_type(t, ty, rt, env, pattern_scope(p, root), k)
        },
        PatternNode::Name(id) => r.node matches resolved::PatternNode::Name(n) && t.has(
            DeclarableName::Item(n),
        ) && t.path(DeclarableName::Item(n)) == item_path(root, id.name@),
        PatternNode::Unit => r.node is Unit,
        PatternNode::Invalid(reason) => r.node == resolved::PatternNode::<ItemName>::Invalid(reason),
    }
}

/// Whether `r` is the import `import`, which is from something, resolved in
/// the innermost scope of items of `env`.
pub open spec fn res_import(t: NameTable, import: Import, r: resolved::Import, env: Seq<Part>, k: Known) -> bool
    decreases import, 0nat,
{
    let part = env.last();
    &&& import.from matches Some(from) && res_expr(t, from, r.from, env, part.parent, None, k)
    &&& r.names@.len() == import.names@.len()
    &&& forall|j: int|
        #![trigger import.names@[j]]
        0 <= j < import.names@.len() ==> {
            &&& r.names@[j].span == import.names@[j].span
            &&& res_ident(t, import.names@[j].name, r.names@[j].name)
            &&& import_alias(
                part.imports,
                item_path(part.parent, import.names@[j].alias.name@),
                part.imports.len(),
            ) matches Some(a) && res_alias(t, a, r.names@[j].alias)
        }
}

/// What resolving a type within `parent` reports.
pub open spec fn rep_type(ty: Type, env: Seq<Part>, parent: NamePath, k: Known) -> Seq<Report>
    decreases ty, 0nat,
{
    match ty.node {
        TypeNode::Range { lower, upper, .. } => rep_expr(lower, env, parent, None, k) + rep_expr(
            upper,
            env,
            parent,
            None,
            k,
        ),
        TypeNode::Invalid(_) => Seq::empty(),
    }
}

/// What resolving an expression within `parent`, bound to `bind`, reports.
pub open spec fn rep_expr(e: Expression, env: Seq<Part>, parent: NamePath, bind: Option<NamePath>, k: Known) -> Seq<Report>
    decreases e, 0nat,
{
    match e.node {
        ExpressionNode::Entry { items, imports } => {
            let inner = env.push(entry_part(e, parent, bind));
            rep_imports(imports@, imports@.len(), inner, k) + rep_items(items@, items@.len(), inner, k)
        },
        ExpressionNode::Block(es) => rep_exprs(es@, es@.len(), env, parent, k),
        ExpressionNode::Annotate(inner, ty) => rep_expr(*inner, env, parent, bind, k) + rep_type(
            *ty,
            env,
            parent,
            k,
        ),
        ExpressionNode::Path(inner, _) => rep_expr(*inner, env, parent, bind, k),
        ExpressionNode::Name(id) => if lookup(env, id.name@, k) is Neither {
            seq![Report::Unresolved(id.name@, e.span)]
        } else {
            Seq::empty()
        },
        _ => Seq::empty(),
    }
}

/// What resolving the first `n` expressions of a block reports.
pub open spec fn rep_exprs(es: Seq<Expression>, n: nat, env: Seq<Part>, parent: NamePath, k: Known) -> Seq<Report>
    decreases es, n,
{
    if n == 0 || n > es.len() {
        Seq::empty()
    } else {
        rep_exprs(es, (n - 1) as nat, env, parent, k) + rep_expr(es[n - 1], env, parent, None, k)
    }
}

/// What resolving the first `n` imports reports.
pub open spec fn rep_imports(imports: Seq<Import>, n: nat, env: Seq<Part>, k: Known) -> Seq<Report>
    decreases imports, n,
{
    if n == 0 || n > imports.len() {
        Seq::empty()
    } else {
        rep_imports(imports, (n - 1) as nat, env, k) + rep_import(imports[n - 1], env, k)
    }
}

/// What resolving an import reports.
pub open spec fn rep_import(import: Import, env: Seq<Part>, k: Known) -> Seq<Report>
    decreases import, 0nat,
{
    match import.from {
        Some(from) => rep_expr(from, env, env.last().parent, None, k),
        None => seq![Report::BareImport(import.span)],
    }
}

/// What resolving the first `n` items reports.
pub open spec fn rep_items(items: Seq<Item>, n: nat, env: Seq<Part>, k: Known) -> Seq<Report>
    decreases items, n,
{
    if n == 0 || n > items.len() {
        Seq::empty()
    } else {
        rep_items(items, (n - 1) as nat, env, k) + rep_item(items[n - 1], env, k)
    }
}

/// What resolving an item reports.
pub open spec fn rep_item(item: Item, env: Seq<Part>, k: Known) -> Seq<Report>
    decreases item, 0nat,
{
    match item {
        Item::Let { pattern, anno, body } => {
            let root = env.last().parent;
            let scope = pattern_scope(pattern, root);
            rep_pattern(pattern, env, root, k) + match anno {
                Some(ty) => rep_type(ty, env, scope, k),
                None => Seq::empty(),
            } + match body {
                Some(b) => rep_expr(b, env, scope, pattern_name(pattern, root), k),
                None => Seq::empty(),
            }
        },
    }
}

/// What resolving the pattern of an item within `root` reports.
pub open spec fn rep_pattern(p: Pattern, env: Seq<Part>, root: NamePath, k: Known) -> Seq<Report>
    decreases p, 0nat,
{
    match p.node {
        PatternNode::Annotate(inner, ty) => rep_pattern(*inner, env, root, k) + rep_type(
            ty,
            env,
            pattern_scope(p, root),
            k,
        ),
        _ => Seq::empty(),
    }
}

/// Whether every import of an entry found within `parent`, bound to `bind`,
/// can be given its aliases: that is so when the entry's scope is `parent`
/// itself, or no such import names anything.
pub open spec fn ok_expr(e: Expression, parent: NamePath, bind: Option<NamePath>) -> bool
    decreases e, 0nat,
{
    match e.node {
        ExpressionNode::Entry { items, imports } => {
            let root = entry_scope(e, parent, bind);
            &&& forall|i: int|
                0 <= i < imports@.len() ==> (#[trigger] imports@[i]).from is None
                    || imports@[i].names@.len() == 0 || root == parent
            &&& forall|i: int| 0 <= i < imports@.len() ==> ok_import(#[trigger] imports@[i], root)
            &&& forall|i: int| 0 <= i < items@.len() ==> ok_item(#[trigger] items@[i], root)
        },
        ExpressionNode::Block(es) => forall|i: int| 0 <= i < es@.len() ==> ok_expr(#[trigger] es@[i], parent, None),
        ExpressionNode::Annotate(inner, ty) => ok_expr(*inner, parent, bind) && ok_type(*ty, parent),
        ExpressionNode::Path(inner, _) => ok_expr(*inner, parent, bind),
        _ => true,
    }
}

/// Whether the expressions of a type within `parent` can be resolved.
pub open spec fn ok_type(ty: Type, parent: NamePath) -> bool
    decreases ty, 0nat,
{
    match ty.node {
        TypeNode::Range { lower, upper, .. } => ok_expr(lower, parent, None) && ok_expr(upper, parent, None),
        TypeNode::Invalid(_) => true,
    }
}

/// Whether the expression an import within `root` is from can be resolved.
pub open spec fn ok_import(import: Import, root: NamePath) -> bool
    decreases import, 0nat,
{
    match import.from {
        Some(from) => ok_expr(from, root, None),
        None => true,
    }
}

/// Whether an item within `root` can be resolved.
pub open spec fn ok_item(item: Item, root: NamePath) -> bool
    decreases item, 0nat,
{
    match item {
        Item::Let { pattern, anno, body } => {
            let scope = pattern_scope(pattern, root);
            &&& ok_pattern(pattern, root)
            &&& match anno {
                Some(ty) => ok_type(ty, scope),
                None => true,
            }
            &&& match body {
                Some(b) => ok_expr(b, scope, pattern_name(pattern, root)),
                None => true,
            }
        },
    }
}

/// Whether the pattern of an item within `root` can be resolved.
pub open spec fn ok_pattern(p: Pattern, root: NamePath) -> bool
    decreases p, 0nat,
{
    match p.node {
        PatternNode::Annotate(inner, ty) => ok_pattern(*inner, root) && ok_type(ty, pattern_scope(p, root)),
        _ => true,
    }
}

/// Resolved trees stay resolved as the table grows.
proof fn lemma_res_type_grow(t: NameTable, t2: NameTable, ty: Type, r: resolved::Type, env: Seq<Part>, parent: NamePath, k: Known)
    requires
        t.grows_into(t2),
        res_type(t, ty, r, env, parent, k),
    ensures
        res_type(t2, ty, r, env, parent, k),
    decreases ty, 0nat,
{
    match ty.node {
        TypeNode::Range { lower, upper, .. } => match r.node {
            resolved::TypeNode::Range { lower: l, upper: u, .. } => {
                lemma_res_expr_grow(t, t2, lower, *l, env, parent, None, k);
                lemma_res_expr_grow(t, t2, upper, *u, env, parent, None, k);
            },
            _ => {},
        },
        TypeNode::Invalid(_) => {},
    }
}

/// Resolved trees stay resolved as the table grows.
proof fn lemma_res_expr_grow(
    t: NameTable,
    t2: NameTable,
    e: Expression,
    r: resolved::Expression,
    env: Seq<Part>,
    parent: NamePath,
    bind: Option<NamePath>,
    k: Known,
)
    requires
        t.grows_into(t2),
        res_expr(t, e, r, env, parent, bind, k),
    ensures
        res_expr(t2, e, r, env, parent, bind, k),
    decreases e, 0nat,
{
    match e.node {
        ExpressionNode::Entry { items, imports } => match r.node {
            resolved::ExpressionNode::Entry { items: ri, imports: rm } => {
                let inner = env.push(entry_part(e, parent, bind));
                assert forall|i: int| 0 <= i < items@.len() implies res_item(t2, items@[i], #[trigger] ri@[i], inner, k) by {
                    lemma_res_item_grow(t, t2, items@[i], ri@[i], inner, k);
                }
                assert forall|i: int|
                    0 <= i < imports@.len() && (#[trigger] imports@[i]).from is Some implies res_import(
                    t2,
                    imports@[i],
                    rm@[kept(imports@, i as nat) as int],
                    inner,
                    k,
                ) by {
                    lemma_res_import_grow(t, t2, imports@[i], rm@[kept(imports@, i as nat) as int], inner, k);
                }
            },
            _ => {},
        },
        ExpressionNode::Block(es) => match r.node {
            resolved::ExpressionNode::Block(rs) => {
                assert forall|i: int| 0 <= i < es@.len() implies res_expr(t2, es@[i], #[trigger] rs@[i], env, parent, None, k) by {
                    lemma_res_expr_grow(t, t2, es@[i], rs@[i], env, parent, None, k);
                }
            },
            _ => {},
        },
        ExpressionNode::Annotate(inner, ty) => match r.node {
            resolved::ExpressionNode::Annotate(ri, rt) => {
                lemma_res_expr_grow(t, t2, *inner, *ri, env, parent, bind, k);
                lemma_res_type_grow(t, t2, *ty, *rt, env, parent, k);
            },
            _ => {},
        },
        ExpressionNode::Path(inner, _) => match r.node {
            resolved::ExpressionNode::Path(ri, _) => {
                lemma_res_expr_grow(t, t2, *inner, *ri, env, parent, bind, k);
            },
            _ => {},
        },
        ExpressionNode::Name(_) => match r.node {
            resolved::ExpressionNode::Name(n) => {
                if t.has(n.spec_declarable()) {
                    assert(t2.name_path(n) == t.name_path(n));
                }
            },
            _ => {},
        },
        _ => {},
    }
}

/// Resolved trees stay resolved as the table grows.
proof fn lemma_res_item_grow(t: NameTable, t2: NameTable, item: Item, r: resolved::Item, env: Seq<Part>, k: Known)
    requires
        t.grows_into(t2),
        res_item(t, item, r, env, k),
    ensures
        res_item(t2, item, r, env, k),
    decreases item, 0nat,
{
    match item {
        Item::Let { pattern, anno, body } => match r {
            resolved::Item::Let { pattern: rp, anno: ra, body: rb } => {
                let root = env.last().parent;
                let scope = pattern_scope(pattern, root);
                lemma_res_pattern_grow(t, t2, pattern, rp, env, root, k);
                match anno {
                    Some(ty) => match ra {
                        Some(rt) => lemma_res_type_grow(t, t2, ty, rt, env, scope, k),
                        None => {},
                    },
                    None => {},
                }
                match body {
                    Some(b) => match rb {
                        Some(re) => lemma_res_expr_grow(t, t2, b, re, env, scope, pattern_name(pattern, root), k),
                        None => {},
                    },
                    None => {},
                }
            },
        },
    }
}

/// Resolved trees stay resolved as the table grows.
proof fn lemma_res_pattern_grow(
    t: NameTable,
    t2: NameTable,
    p: Pattern,
    r: resolved::Pattern<ItemName>,
    env: Seq<Part>,
    root: NamePath,
    k: Known,
)
    requires
        t.grows_into(t2),
        res_pattern(t, p, r, env, root, k),
    ensures
        res_pattern(t2, p, r, env, root, k),
    decreases p, 0nat,
{
    match p.node {
        PatternNode::Annotate(inner, ty) => match r.node {
            resolved::PatternNode::Annotate(ri, rt) => {
                lemma_res_pattern_grow(t, t2, *inner, *ri, env, root, k);
                lemma_res_type_grow(t, t2, ty, rt, env, pattern_scope(p, root), k);
            },
            _ => {},
        },
        PatternNode::Name(_) => match r.node {
            resolved::PatternNode::Name(n) => {
                assert(t2.path(DeclarableName::Item(n)) == t.path(DeclarableName::Item(n)));
            },
            _ => {},
        },
        _ => {},
    }
}

/// Resolved trees stay resolved as the table grows.
proof fn lemma_res_import_grow(t: NameTable, t2: NameTable, import: Import, r: resolved::Import, env: Seq<Part>, k: Known)
    requires
        t.grows_into(t2),
        res_import(t, import, r, env, k),
    ensures
        res_import(t2, import, r, env, k),
    decreases import, 0nat,
{
    match import.from {
        Some(from) => lemma_res_expr_grow(t, t2, from, r.from, env, env.last().parent, None, k),
        None => {},
    }
    let part = env.last();
    assert forall|j: int|
        #![trigger import.names@[j]]
        0 <= j < import.names@.len() implies {
            &&& r.names@[j].span == import.names@[j].span
            &&& res_ident(t2, import.names@[j].name, r.names@[j].name)
            &&& import_alias(
                part.imports,
                item_path(part.parent, import.names@[j].alias.name@),
                part.imports.len(),
            ) matches Some(a) && res_alias(t2, a, r.names@[j].alias)
        } by {
        let n = import.names@[j];
        assert(t.has_raw(r.names@[j].name.name));
        assert(t.has_raw(r.names@[j].alias.name));
    }
}

/// The aliases of some imports, as the item name each is known by, its
/// text, and where it is imported.
pub open spec fn imports_view(t: NameTable, v: Seq<(ItemName, resolved::Alias)>) -> Seq<(NamePath, Seq<char>, Span)> {
    v.map_values(
        |e: (ItemName, resolved::Alias)|
            (t.path(DeclarableName::Item(e.0)), t.texts()[e.1.name.0 as int], e.1.defined),
    )
}

/// Whether every alias of `v` and the name it is known by are of `t`.
pub open spec fn imports_in(t: NameTable, v: Seq<(ItemName, resolved::Alias)>) -> bool {
    forall|j: int|
        0 <= j < v.len() ==> t.has(DeclarableName::Item((#[trigger] v[j]).0)) && t.has_raw(v[j].1.name)
}

/// A scope of items being resolved: the name everything there is declared
/// within, and the aliases its imports bring in, each under the item name it
/// is known by.
pub struct PartResolver {
    parent: DeclarableName,
    imports: Vec<(ItemName, resolved::Alias)>,
}

impl PartResolver {
    /// Whether the names of this scope are of `t`.
    pub closed spec fn wf_in(self, t: NameTable) -> bool {
        &&& t.has(self.parent)
        &&& imports_in(t, self.imports@)
    }

    /// This scope as resolving sees it.
    pub closed spec fn view_in(self, t: NameTable) -> Part {
        Part { parent: t.path(self.parent), imports: imports_view(t, self.imports@) }
    }

    /// Growing the table keeps this scope as it is.
    pub proof fn lemma_grow(self, t: NameTable, t2: NameTable)
        requires
            t.grows_into(t2),
            self.wf_in(t),
        ensures
            self.wf_in(t2),
            self.view_in(t2) == self.view_in(t),
    {
        assert(imports_view(t2, self.imports@) =~= imports_view(t, self.imports@)) by {
            assert forall|j: int| 0 <= j < self.imports@.len() implies t2.path(DeclarableName::Item(self.imports@[j].0)) == t.path(DeclarableName::Item(self.imports@[j].0)) && t2.texts()[self.imports@[j].1.name.0 as int] == t.texts()[self.imports@[j].1.name.0 as int] by {
                assert(t.has(DeclarableName::Item(self.imports@[j].0)));
                assert(t.has_raw(self.imports@[j].1.name));
            }
        }
    }
}

/// What a name was found to refer to.
#[derive(Clone, Copy)]
enum ResolvedName {
    Name(Name),
    Alias(resolved::Alias),
    Neither,
}

/// Whether `r` is `res`, by numbers of `t`.
spec fn resolved_as(t: NameTable, r: ResolvedName, res: Resolution) -> bool {
    match res {
        Resolution::Name(p) => r matches ResolvedName::Name(n) && t.has(n.spec_declarable()) && t.name_path(n) == p,
        Resolution::Alias(text, span) => r matches ResolvedName::Alias(a) && res_alias(t, (text, span), a),
        Resolution::Neither => r is Neither,
    }
}

/// The aliases that some imports bring in, each under the item name within
/// `within` it is known by.
fn imported_names(db: &mut NameDb, within: DeclarableName, imports: &Vec<Import>) -> (r: Vec<(ItemName, resolved::Alias)>)
    requires
        old(db).wf(),
        old(db).table.has(within),
    ensures
        super::declare::db_grows(*old(db), *final(db)),
        final(db).messages == old(db).messages,
        imports_in(final(db).table, r@),
        imports_view(final(db).table, r@) == imported(imports@, old(db).table.path(within), imports@.len()),
{
    let ghost w = db.table.path(within);
    let mut result: Vec<(ItemName, resolved::Alias)> = Vec::new();
    let mut i: usize = 0;
    while i < imports.len()
        invariant
            old(db).wf(),
            db.table.has(within),
            super::declare::db_grows(*old(db), *db),
            db.messages == old(db).messages,
            db.table.path(within) == w,
            w == old(db).table.path(within),
            i <= imports@.len(),
            imports_in(db.table, result@),
            imports_view(db.table, result@) == imported(imports@, w, i as nat),
        decreases imports@.len() - i,
    {
        let names = &imports[i].names;
        let ghost before_i = imports_view(db.table, result@);
        let mut j: usize = 0;
        while j < names.len()
            invariant
                old(db).wf(),
                db.table.has(within),
                super::declare::db_grows(*old(db), *db),
                db.messages == old(db).messages,
                db.table.path(within) == w,
                w == old(db).table.path(within),
                i < imports@.len(),
                names == imports@[i as int].names,
                j <= names@.len(),
                imports_in(db.table, result@),
                imports_view(db.table, result@) == before_i + names@.take(j as int).map_values(
                    |name: ImportedName| (item_path(w, name.alias.name@), name.alias.name@, name.span),
                ),
            decreases names@.len() - j,
        {
            let name = &names[j];
            let ghost t0 = db.table;
            let ghost v0 = result@;
            let raw = db.table.raw(&name.alias.name);
            let key = db.table.item(Some(within), raw);
            proof {
                old(db).lemma_module_paths(*db);
                assert(imports_view(db.table, v0) =~= imports_view(t0, v0)) by {
                    assert forall|x: int| 0 <= x < v0.len() implies db.table.path(DeclarableName::Item(v0[x].0)) == t0.path(DeclarableName::Item(v0[x].0)) && db.table.texts()[v0[x].1.name.0 as int] == t0.texts()[v0[x].1.name.0 as int] by {
                        assert(t0.has(DeclarableName::Item((v0[x]).0)));
                        assert(t0.has_raw(v0[x].1.name));
                    }
                }
            }
            result.push((key, resolved::Alias { name: raw, defined: name.span }));
            proof {
                assert(names@.take(j + 1) =~= names@.take(j as int).push(names@[j as int]));
                assert(imports_view(db.table, result@) =~= imports_view(db.table, v0).push(
                    (item_path(w, name.alias.name@), name.alias.name@, name.span),
                ));
                assert(imports_in(db.table, result@)) by {
                    assert forall|x: int| 0 <= x < result@.len() implies db.table.has(DeclarableName::Item((#[trigger] result@[x]).0)) && db.table.has_raw(result@[x].1.name) by {
                        if x < v0.len() {
                            assert(result@[x] == v0[x]);
                            assert(t0.has(DeclarableName::Item(v0[x].0)));
                        }
                    }
                }
            }
            j = j + 1;
        }
        proof {
            assert(names@.take(names@.len() as int) =~= names@);
        }
        i = i + 1;
    }
    result
}

/// Resolves the names of a module's tree, scope by scope.
struct Resolver {
    /// The names the module declares.
    declared: Vec<(Name, Span)>,
    /// Each name the module declares, with where.
    found: Ghost<Map<NamePath, Span>>,
    /// What the module declares, and the modules there are.
    known: Ghost<Known>,
    /// The scopes of items around what is being resolved, innermost last.
    parts: Vec<PartResolver>,
}

impl Resolver {
    /// The names are those of `db`.
    spec fn inv(self, db: &NameDb) -> bool {
        &&& db.wf()
        &&& lists(db.table, self.declared@, self.found@)
        &&& only_items(self.declared@)
        &&& self.known@.declared == self.found@.dom()
        &&& self.known@.modules == db.module_paths()
        &&& forall|i: int| 0 <= i < self.parts@.len() ==> (#[trigger] self.parts@[i]).wf_in(db.table)
    }

    /// The scopes of items around, as resolving sees them.
    spec fn env(self, t: NameTable) -> Seq<Part> {
        self.parts@.map_values(|p: PartResolver| p.view_in(t))
    }

    /// Growing the table keeps the names.
    proof fn lemma_grow(self, db: &NameDb, db2: &NameDb)
        requires
            self.inv(db),
            db2.table.wf(),
            db.table.grows_into(db2.table),
            db2.modules == db.modules,
        ensures
            self.inv(db2),
            super::declare::db_grows(*db, *db2),
            self.env(db2.table) == self.env(db.table),
    {
        assert forall|i: int| 0 <= i < db2.modules@.len() implies db2.table.has(
            DeclarableName::Item(#[trigger] db2.modules@[i]),
        ) by {
            assert(db.table.has(DeclarableName::Item(db.modules@[i])));
        }
        db.lemma_module_paths(*db2);
        lemma_lists_grow_in(db.table, db2.table, self.declared@, self.found@);
        assert forall|i: int| 0 <= i < self.parts@.len() implies (#[trigger] self.parts@[i]).wf_in(db2.table)
            && self.parts@[i].view_in(db2.table) == self.parts@[i].view_in(db.table) by {
            self.parts@[i].lemma_grow(db.table, db2.table);
        }
        assert(self.env(db2.table) =~= self.env(db.table));
    }
}

/// Whether every name of `import` can be given the alias it is imported
/// under in `part`.
pub open spec fn aliases_found(part: Part, import: Import) -> bool {
    forall|j: int|
        #![trigger import.names@[j]]
        0 <= j < import.names@.len() ==> import_alias(
            part.imports,
            item_path(part.parent, import.names@[j].alias.name@),
            part.imports.len(),
        ) is Some
}

/// An alias imported under `key` is found under it.
proof fn lemma_import_alias_some(imports: Seq<(NamePath, Seq<char>, Span)>, key: NamePath, n: nat, x: int)
    requires
        0 <= x < n <= imports.len(),
        imports[x].0 == key,
    ensures
        import_alias(imports, key, n) is Some,
    decreases n,
{
    if imports[n - 1].0 != key {
        lemma_import_alias_some(imports, key, (n - 1) as nat, x);
    }
}

/// No alias is found under `key` where none is imported under it.
proof fn lemma_import_alias_none(imports: Seq<(NamePath, Seq<char>, Span)>, key: NamePath, n: nat)
    requires
        n <= imports.len(),
        forall|x: int| 0 <= x < n ==> imports[x].0 != key,
    ensures
        import_alias(imports, key, n) is None,
    decreases n,
{
    if n > 0 {
        lemma_import_alias_none(imports, key, (n - 1) as nat);
    }
}

/// The aliases of the first `n` imports are among those that they import.
proof fn lemma_imported(imports: Seq<Import>, within: NamePath, n: nat, i: int, j: int)
    requires
        0 <= i < n <= imports.len(),
        0 <= j < imports[i].names@.len(),
    ensures
        exists|x: int|
            0 <= x < imported(imports, within, n).len() && (#[trigger] imported(imports, within, n)[x]).0
                == item_path(within, imports[i].names@[j].alias.name@),
    decreases n,
{
    let prev = imported(imports, within, (n - 1) as nat);
    let last = imports[n - 1].names@.map_values(
        |name: ImportedName| (item_path(within, name.alias.name@), name.alias.name@, name.span),
    );
    let all = imported(imports, within, n);
    assert(all == prev + last);
    if i == n - 1 {
        assert(all[prev.len() + j] == last[j]);
    } else {
        lemma_imported(imports, within, (n - 1) as nat, i, j);
        let x = choose|x: int|
            0 <= x < prev.len() && (#[trigger] prev[x]).0 == item_path(within, imports[i].names@[j].alias.name@);
        assert(all[x] == prev[x]);
    }
}

/// The imports of a scope that opens where its imports are found can all be
/// given their aliases.
proof fn lemma_aliases_found(imports: Seq<Import>, within: NamePath, i: int)
    requires
        0 <= i < imports.len(),
    ensures
        aliases_found(
            Part { parent: within, imports: imported(imports, within, imports.len()) },
            imports[i],
        ),
{
    let part = Part { parent: within, imports: imported(imports, within, imports.len()) };
    assert forall|j: int|
        #![trigger imports[i].names@[j]]
        0 <= j < imports[i].names@.len() implies import_alias(
            part.imports,
            item_path(part.parent, imports[i].names@[j].alias.name@),
            part.imports.len(),
        ) is Some by {
        lemma_imported(imports, within, imports.len(), i, j);
        let x = choose|x: int|
            0 <= x < part.imports.len() && (#[trigger] part.imports[x]).0 == item_path(within, imports[i].names@[j].alias.name@);
        lemma_import_alias_some(part.imports, item_path(within, imports[i].names@[j].alias.name@), part.imports.len(), x);
    }
}

/// The alias imported last under `key`, if any.
fn find_alias(t: &NameTable, imports: &Vec<(ItemName, resolved::Alias)>, key: ItemName) -> (r: Option<resolved::Alias>)
    requires
        t.wf(),
        imports_in(*t, imports@),
        t.has(DeclarableName::Item(key)),
    ensures
        match r {
            Some(a) => t.has_raw(a.name) && import_alias(
                imports_view(*t, imports@),
                t.path(DeclarableName::Item(key)),
                imports@.len(),
            ) == Some((t.texts()[a.name.0 as int], a.defined)),
            None => import_alias(
                imports_view(*t, imports@),
                t.path(DeclarableName::Item(key)),
                imports@.len(),
            ) is None,
        },
{
    let ghost view = imports_view(*t, imports@);
    let ghost kp = t.path(DeclarableName::Item(key));
    let mut i: usize = imports.len();
    while i > 0
        invariant
            t.wf(),
            imports_in(*t, imports@),
            t.has(DeclarableName::Item(key)),
            view == imports_view(*t, imports@),
            kp == t.path(DeclarableName::Item(key)),
            i <= imports@.len(),
            import_alias(view, kp, imports@.len() as nat) == import_alias(view, kp, i as nat),
        decreases i,
    {
        let entry = imports[i - 1];
        proof {
            assert(t.has(DeclarableName::Item(imports@[i - 1].0)));
            if view[i - 1].0 == kp {
                t.lemma_path_injective(DeclarableName::Item(entry.0), DeclarableName::Item(key));
            }
        }
        if entry.0 == key {
            return Some(entry.1);
        }
        i = i - 1;
    }
    None
}

impl Resolver {
    /// Nothing but the table and the messages differ between `self` and
    /// `other`.
    spec fn same(self, other: Self) -> bool {
        &&& other.declared@ == self.declared@
        &&& other.found@ == self.found@
        &&& other.known@ == self.known@
        &&& other.parts@ == self.parts@
    }

    /// What `raw` refers to in the scope of items numbered `index`, looking
    /// within it and each name it is declared within.
    fn resolve_in_part(&self, db: &NameDb, index: usize, raw: RawName) -> (r: ResolvedName)
        requires
            self.inv(db),
            index < self.parts@.len(),
            db.table.has_raw(raw),
        ensures
            resolved_as(
                db.table,
                r,
                resolve_within(
                    Some(Box::new(self.env(db.table)[index as int].parent)),
                    db.table.texts()[raw.0 as int],
                    self.env(db.table)[index as int],
                    self.known@,
                ),
            ),
    {
        let part = &self.parts[index];
        let ghost view = part.view_in(db.table);
        let ghost text = db.table.texts()[raw.0 as int];
        let ghost k = self.known@;
        let ghost goal = resolve_within(Some(Box::new(view.parent)), text, view, k);
        assert(part.wf_in(db.table));
        assert(self.env(db.table)[index as int] == view);
        let mut cur: Option<DeclarableName> = Some(part.parent);
        loop
            invariant
                self.inv(db),
                index < self.parts@.len(),
                goal == resolve_within(
                    Some(Box::new(self.env(db.table)[index as int].parent)),
                    text,
                    self.env(db.table)[index as int],
                    k,
                ),
                part.wf_in(db.table),
                db.table.has_raw(raw),
                view == part.view_in(db.table),
                text == db.table.texts()[raw.0 as int],
                k == self.known@,
                db.table.has_parent(cur, db.table.decls().len()),
                goal == resolve_within(db.table.parent_path(cur), text, view, k),
            decreases (match cur {
                Some(p) => p.index() + 1,
                None => 0,
            }),
        {
            let ghost item = NamePath::Item { parent: db.table.parent_path(cur), name: text };
            match db.table.find_item(cur, raw) {
                Some(n) => {
                    if find_name(&db.table, &self.declared, Name::Item(n), Ghost(self.found@)).is_some() {
                        return ResolvedName::Name(Name::Item(n));
                    }
                    match find_alias(&db.table, &part.imports, n) {
                        Some(alias) => {
                            return ResolvedName::Alias(alias);
                        },
                        None => {},
                    }
                    if db.is_module(n) {
                        return ResolvedName::Name(Name::Item(n));
                    }
                },
                None => {
                    proof {
                        if k.declared.contains(item) {
                            let i = choose|i: int| 0 <= i < self.declared@.len() && db.table.name_path(#[trigger] self.declared@[i].0) == item;
                            assert(db.table.has(self.declared@[i].0.spec_declarable()));
                        }
                        assert forall|x: int| 0 <= x < view.imports.len() implies view.imports[x].0 != item by {
                            assert(db.table.has(DeclarableName::Item(part.imports@[x].0)));
                        }
                        lemma_import_alias_none(view.imports, item, view.imports.len());
                        if k.modules.contains(item) {
                            let i = choose|i: int| 0 <= i < db.modules@.len() && db.table.path(
                                DeclarableName::Item(#[trigger] db.modules@[i]),
                            ) == item;
                            assert(db.table.has(DeclarableName::Item(db.modules@[i])));
                        }
                    }
                },
            }
            match cur {
                Some(p) => {
                    cur = db.table.parent(p);
                },
                None => {
                    return ResolvedName::Neither;
                },
            }
        }
    }

    /// What `raw` refers to among the scopes of items around.
    fn resolve_name(&self, db: &NameDb, raw: RawName) -> (r: ResolvedName)
        requires
            self.inv(db),
            db.table.has_raw(raw),
        ensures
            resolved_as(db.table, r, lookup(self.env(db.table), db.table.texts()[raw.0 as int], self.known@)),
    {
        let ghost env = self.env(db.table);
        let ghost text = db.table.texts()[raw.0 as int];
        let mut k: usize = self.parts.len();
        proof {
            assert(env.take(k as int) =~= env);
        }
        while k > 0
            invariant
                self.inv(db),
                db.table.has_raw(raw),
                env == self.env(db.table),
                text == db.table.texts()[raw.0 as int],
                k <= self.parts@.len(),
                lookup(env, text, self.known@) == lookup(env.take(k as int), text, self.known@),
            decreases k,
        {
            let r = self.resolve_in_part(db, k - 1, raw);
            proof {
                assert(env.take(k as int).last() == env[k - 1]);
                assert(env.take(k as int).drop_last() =~= env.take(k - 1));
            }
            match r {
                ResolvedName::Neither => {},
                _ => {
                    return r;
                },
            }
            k = k - 1;
        }
        ResolvedName::Neither
    }
}

impl Resolver {
    /// Resolve a type within `parent`.
    fn resolve_type(&mut self, db: &mut NameDb, parent: DeclarableName, ty: &Type) -> (r: resolved::Type)
        requires
            old(self).inv(old(db)),
            old(db).table.has(parent),
            ok_type(*ty, old(db).table.path(parent)),
        ensures
            db_grows(*old(db), *final(db)),
            final(self).inv(final(db)),
            old(self).same(*final(self)),
            res_type(final(db).table, *ty, r, old(self).env(old(db).table), old(db).table.path(parent), old(self).known@),
            reports(old(db).messages@, final(db).messages@, rep_type(*ty, old(self).env(old(db).table), old(db).table.path(parent), old(self).known@)),
        decreases *ty, 0nat,
    {
        let span = ty.span;
        match &ty.node {
            TypeNode::Range { clusivity, lower, upper } => {
                let ghost d0 = *db;
                let lower = self.resolve_expression(db, parent, lower, None);
                let ghost d1 = *db;
                proof {
                    self.lemma_grow(&d0, &d1);
                }
                let upper = self.resolve_expression(db, parent, upper, None);
                proof {
                    lemma_res_expr_grow(d1.table, db.table, ty.node->Range_lower, lower, self.env(d0.table), d0.table.path(parent), None, self.known@);
                    lemma_reports(d0.messages@, d1.messages@, db.messages@, rep_expr(ty.node->Range_lower, self.env(d0.table), d0.table.path(parent), None, self.known@), rep_expr(ty.node->Range_upper, self.env(d0.table), d0.table.path(parent), None, self.known@));
                }
                resolved::Type {
                    node: resolved::TypeNode::Range {
                        clusivity: *clusivity,
                        lower: Box::new(lower),
                        upper: Box::new(upper),
                    },
                    span,
                }
            },
            TypeNode::Invalid(reason) => {
                proof {
                    lemma_reports_none(db.messages@);
                }
                resolved::Type { node: resolved::TypeNode::Invalid(*reason), span }
            },
        }
    }

    /// Resolve an expression within `parent`, bound to `bind`, if to anything.
    fn resolve_expression(
        &mut self,
        db: &mut NameDb,
        parent: DeclarableName,
        expression: &Expression,
        bind: Option<Name>,
    ) -> (r: resolved::Expression)
        requires
            old(self).inv(old(db)),
            old(db).table.has(parent),
            bind matches Some(b) ==> old(db).table.has(b.spec_declarable()),
            ok_expr(*expression, old(db).table.path(parent), bind_path(old(db).table, bind)),
        ensures
            db_grows(*old(db), *final(db)),
            final(self).inv(final(db)),
            old(self).same(*final(self)),
            res_expr(
                final(db).table,
                *expression,
                r,
                old(self).env(old(db).table),
                old(db).table.path(parent),
                bind_path(old(db).table, bind),
                old(self).known@,
            ),
            reports(
                old(db).messages@,
                final(db).messages@,
                rep_expr(
                    *expression,
                    old(self).env(old(db).table),
                    old(db).table.path(parent),
                    bind_path(old(db).table, bind),
                    old(self).known@,
                ),
            ),
        decreases *expression, 0nat,
    {
        let ghost d0 = *db;
        let ghost env = self.env(db.table);
        let ghost pp = db.table.path(parent);
        let ghost bp = bind_path(db.table, bind);
        let ghost k = self.known@;
        let span = expression.span;
        match &expression.node {
            ExpressionNode::Entry { items, imports } => {
                let root = match bind {
                    Some(b) => b.declarable(),
                    None => DeclarableName::Unnamable(
                        db.table.unnamable(UnnamableNameKind::Entry, Some(parent), span),
                    ),
                };
                let imported = imported_names(db, parent, imports);
                let ghost d1 = *db;
                proof {
                    self.lemma_grow(&d0, &d1);
                    assert(d1.table.path(root) == entry_scope(*expression, pp, bp));
                }
                let part = PartResolver { parent: root, imports: imported };
                proof {
                    assert(part.view_in(d1.table) == entry_part(*expression, pp, bp));
                }
                self.parts.push(part);
                let ghost inner = env.push(entry_part(*expression, pp, bp));
                proof {
                    assert(self.env(d1.table) =~= inner);
                    assert forall|i: int| 0 <= i < imports@.len() && (#[trigger] imports@[i]).from is Some implies aliases_found(inner.last(), imports@[i]) by {
                        if imports@[i].names@.len() > 0 {
                            lemma_aliases_found(imports@, pp, i);
                        }
                    }
                }
                let new_imports = self.resolve_imports(db, imports);
                let ghost d2 = *db;
                proof {
                    self.lemma_grow(&d1, &d2);
                }
                let new_items = self.resolve_items(db, items);
                self.parts.pop();
                proof {
                    assert(self.parts@ =~= old(self).parts@);
                    assert forall|i: int|
                        0 <= i < imports@.len() && (#[trigger] imports@[i]).from is Some implies res_import(
                        db.table,
                        imports@[i],
                        new_imports@[kept(imports@, i as nat) as int],
                        inner,
                        k,
                    ) by {
                        lemma_res_import_grow(d2.table, db.table, imports@[i], new_imports@[kept(imports@, i as nat) as int], inner, k);
                    }
                    lemma_reports(d1.messages@, d2.messages@, db.messages@, rep_imports(imports@, imports@.len(), inner, k), rep_items(items@, items@.len(), inner, k));
                }
                resolved::Expression {
                    node: resolved::ExpressionNode::Entry { items: new_items, imports: new_imports },
                    span,
                }
            },
            ExpressionNode::Block(expressions) => {
                let new_exprs = self.resolve_expressions(db, parent, expressions);
                resolved::Expression { node: resolved::ExpressionNode::Block(new_exprs), span }
            },
            ExpressionNode::Annotate(inner, ty) => {
                let expr = self.resolve_expression(db, parent, inner, bind);
                let ghost d1 = *db;
                proof {
                    self.lemma_grow(&d0, &d1);
                }
                let ty2 = self.resolve_type(db, parent, ty);
                proof {
                    lemma_res_expr_grow(d1.table, db.table, **inner, expr, env, pp, bp, k);
                    lemma_reports(d0.messages@, d1.messages@, db.messages@, rep_expr(**inner, env, pp, bp, k), rep_type(**ty, env, pp, k));
                }
                resolved::Expression {
                    node: resolved::ExpressionNode::Annotate(Box::new(expr), Box::new(ty2)),
                    span,
                }
            },
            ExpressionNode::Path(inner, field) => {
                let expr = self.resolve_expression(db, parent, inner, bind);
                let ghost d1 = *db;
                let raw = db.table.raw(&field.name);
                proof {
                    self.lemma_grow(&d1, db);
                    d1.lemma_module_paths(*db);
                    lemma_res_expr_grow(d1.table, db.table, **inner, expr, env, pp, bp, k);
                }
                resolved::Expression {
                    node: resolved::ExpressionNode::Path(
                        Box::new(expr),
                        resolved::Identifier { span: field.span, name: raw },
                    ),
                    span,
                }
            },
            ExpressionNode::Name(id) => {
                let raw = db.table.raw(&id.name);
                proof {
                    d0.lemma_module_paths(*db);
                    self.lemma_grow(&d0, db);
                }
                let node = match self.resolve_name(db, raw) {
                    ResolvedName::Name(name) => resolved::ExpressionNode::Name(name),
                    ResolvedName::Alias(alias) => resolved::ExpressionNode::Alias(alias),
                    ResolvedName::Neither => {
                        db.messages.push(Message { kind: MessageKind::UnresolvedName(id.name.clone()), span });
                        resolved::ExpressionNode::Invalid(Reason::NameError)
                    },
                };
                resolved::Expression { node, span }
            },
            ExpressionNode::Number(number) => {
                resolved::Expression { node: resolved::ExpressionNode::Number(number.clone()), span }
            },
            ExpressionNode::String(string) => {
                resolved::Expression { node: resolved::ExpressionNode::String(string.clone()), span }
            },
            ExpressionNode::Unit => resolved::Expression { node: resolved::ExpressionNode::Unit, span },
            ExpressionNode::Invalid(reason) => {
                resolved::Expression { node: resolved::ExpressionNode::Invalid(*reason), span }
            },
        }
    }

    /// Resolve the expressions of a block within `parent`.
    fn resolve_expressions(&mut self, db: &mut NameDb, parent: DeclarableName, expressions: &Vec<Expression>) -> (r: Vec<resolved::Expression>)
        requires
            old(self).inv(old(db)),
            old(db).table.has(parent),
            forall|i: int| 0 <= i < expressions@.len() ==> ok_expr(#[trigger] expressions@[i], old(db).table.path(parent), None),
        ensures
            db_grows(*old(db), *final(db)),
            final(self).inv(final(db)),
            old(self).same(*final(self)),
            r@.len() == expressions@.len(),
            forall|i: int| 0 <= i < expressions@.len() ==> res_expr(final(db).table, expressions@[i], #[trigger] r@[i], old(self).env(old(db).table), old(db).table.path(parent), None, old(self).known@),
            reports(old(db).messages@, final(db).messages@, rep_exprs(expressions@, expressions@.len(), old(self).env(old(db).table), old(db).table.path(parent), old(self).known@)),
        decreases expressions@, 0nat,
    {
        let ghost env = self.env(db.table);
        let ghost pp = db.table.path(parent);
        let ghost k = self.known@;
        let mut result: Vec<resolved::Expression> = Vec::new();
        let mut i: usize = 0;
        proof {
            lemma_reports_none(db.messages@);
        }
        while i < expressions.len()
            invariant
                old(self).inv(old(db)),
                db_grows(*old(db), *db),
                self.inv(db),
                old(self).same(*self),
                env == old(self).env(old(db).table),
                env == self.env(db.table),
                pp == old(db).table.path(parent),
                pp == db.table.path(parent),
                k == old(self).known@,
                db.table.has(parent),
                forall|j: int| 0 <= j < expressions@.len() ==> ok_expr(#[trigger] expressions@[j], pp, None),
                i <= expressions@.len(),
                result@.len() == i,
                forall|j: int| 0 <= j < i ==> res_expr(db.table, expressions@[j], #[trigger] result@[j], env, pp, None, k),
                reports(old(db).messages@, db.messages@, rep_exprs(expressions@, i as nat, env, pp, k)),
            decreases expressions@.len() - i,
        {
            let ghost d1 = *db;
            let e = self.resolve_expression(db, parent, &expressions[i], None);
            proof {
                assert forall|j: int| 0 <= j < i implies res_expr(db.table, expressions@[j], #[trigger] result@[j], env, pp, None, k) by {
                    lemma_res_expr_grow(d1.table, db.table, expressions@[j], result@[j], env, pp, None, k);
                }
                lemma_reports(old(db).messages@, d1.messages@, db.messages@, rep_exprs(expressions@, i as nat, env, pp, k), rep_expr(expressions@[i as int], env, pp, None, k));
                self.lemma_grow(&d1, db);
            }
            result.push(e);
            i = i + 1;
        }
        result
    }

    /// Resolve an import of the innermost scope of items; an import from
    /// nothing is reported and gives nothing.
    fn resolve_import(&mut self, db: &mut NameDb, import: &Import) -> (r: Option<resolved::Import>)
        requires
            old(self).inv(old(db)),
            old(self).parts@.len() > 0,
            ok_import(*import, old(self).env(old(db).table).last().parent),
            import.from is Some ==> aliases_found(old(self).env(old(db).table).last(), *import),
        ensures
            db_grows(*old(db), *final(db)),
            final(self).inv(final(db)),
            old(self).same(*final(self)),
            r is Some == import.from is Some,
            r matches Some(ri) ==> res_import(final(db).table, *import, ri, old(self).env(old(db).table), old(self).known@),
            reports(old(db).messages@, final(db).messages@, rep_import(*import, old(self).env(old(db).table), old(self).known@)),
        decreases *import, 0nat,
    {
        let ghost d0 = *db;
        let ghost env = self.env(db.table);
        let ghost k = self.known@;
        let from = match &import.from {
            Some(from) => from,
            None => {
                db.messages.push(Message { kind: MessageKind::BareImportUnsupported, span: import.span });
                proof {
                    d0.lemma_module_paths(*db);
                    assert(reported(db.messages@[d0.messages@.len() as int], Report::BareImport(import.span)));
                }
                return None;
            },
        };
        let last = self.parts.len() - 1;
        let parent = self.parts[last].parent;
        proof {
            assert(self.parts@[last as int].wf_in(db.table));
            assert(env.last() == self.parts@[last as int].view_in(db.table));
        }
        let from = self.resolve_expression(db, parent, from, None);
        let ghost d1 = *db;
        proof {
            self.lemma_grow(&d0, &d1);
        }
        let ghost part = env.last();
        let mut names: Vec<resolved::ImportedName> = Vec::new();
        let mut j: usize = 0;
        while j < import.names.len()
            invariant
                old(self).inv(old(db)),
                db_grows(*old(db), *db),
                self.inv(db),
                old(self).same(*self),
                db.messages == d1.messages,
                d1.table.grows_into(db.table),
                env == old(self).env(old(db).table),
                env == self.env(db.table),
                part == env.last(),
                last == self.parts@.len() - 1,
                parent == self.parts@[last as int].parent,
                self.parts@[last as int].view_in(db.table) == part,
                self.parts@[last as int].wf_in(db.table),
                aliases_found(part, *import),
                j <= import.names@.len(),
                names@.len() == j,
                forall|x: int|
                    #![trigger import.names@[x]]
                    0 <= x < j ==> {
                        &&& names@[x].span == import.names@[x].span
                        &&& res_ident(db.table, import.names@[x].name, names@[x].name)
                        &&& import_alias(
                            part.imports,
                            item_path(part.parent, import.names@[x].alias.name@),
                            part.imports.len(),
                        ) matches Some(a) && res_alias(db.table, a, names@[x].alias)
                    },
            decreases import.names@.len() - j,
        {
            let name = &import.names[j];
            let ghost ds = *db;
            let from_raw = db.table.raw(&name.name.name);
            let alias_raw = db.table.raw(&name.alias.name);
            let key = db.table.item(Some(parent), alias_raw);
            proof {
                self.lemma_grow(&ds, db);
                self.parts@[last as int].lemma_grow(ds.table, db.table);
                assert(import.names@[j as int] == *name);
            }
            let alias = match find_alias(&db.table, &self.parts[last].imports, key) {
                Some(alias) => alias,
                None => {
                    proof {
                        assert(false);
                    }
                    return None;
                },
            };
            names.push(resolved::ImportedName {
                span: name.span,
                name: resolved::Identifier { span: name.name.span, name: from_raw },
                alias,
            });
            j = j + 1;
        }
        proof {
            lemma_res_expr_grow(d1.table, db.table, import.from->Some_0, from, env, part.parent, None, k);
        }
        Some(resolved::Import { from, names })
    }

    /// Resolve the imports of the innermost scope of items, keeping those
    /// from something.
    fn resolve_imports(&mut self, db: &mut NameDb, imports: &Vec<Import>) -> (r: Vec<resolved::Import>)
        requires
            old(self).inv(old(db)),
            old(self).parts@.len() > 0,
            forall|i: int| 0 <= i < imports@.len() ==> ok_import(#[trigger] imports@[i], old(self).env(old(db).table).last().parent),
            forall|i: int| 0 <= i < imports@.len() && (#[trigger] imports@[i]).from is Some ==> aliases_found(old(self).env(old(db).table).last(), imports@[i]),
        ensures
            db_grows(*old(db), *final(db)),
            final(self).inv(final(db)),
            old(self).same(*final(self)),
            r@.len() == kept(imports@, imports@.len()),
            forall|i: int|
                0 <= i < imports@.len() && (#[trigger] imports@[i]).from is Some ==> res_import(
                    final(db).table,
                    imports@[i],
                    r@[kept(imports@, i as nat) as int],
                    old(self).env(old(db).table),
                    old(self).known@,
                ),
            reports(old(db).messages@, final(db).messages@, rep_imports(imports@, imports@.len(), old(self).env(old(db).table), old(self).known@)),
        decreases imports@, 0nat,
    {
        let ghost env = self.env(db.table);
        let ghost k = self.known@;
        let mut result: Vec<resolved::Import> = Vec::new();
        let mut i: usize = 0;
        proof {
            lemma_reports_none(db.messages@);
        }
        while i < imports.len()
            invariant
                old(self).inv(old(db)),
                db_grows(*old(db), *db),
                self.inv(db),
                old(self).same(*self),
                self.parts@.len() > 0,
                env == old(self).env(old(db).table),
                env == self.env(db.table),
                k == old(self).known@,
                forall|x: int| 0 <= x < imports@.len() ==> ok_import(#[trigger] imports@[x], env.last().parent),
                forall|x: int| 0 <= x < imports@.len() && (#[trigger] imports@[x]).from is Some ==> aliases_found(env.last(), imports@[x]),
                i <= imports@.len(),
                result@.len() == kept(imports@, i as nat),
                forall|x: int|
                    0 <= x < i && (#[trigger] imports@[x]).from is Some ==> res_import(
                        db.table,
                        imports@[x],
                        result@[kept(imports@, x as nat) as int],
                        env,
                        k,
                    ),
                reports(old(db).messages@, db.messages@, rep_imports(imports@, i as nat, env, k)),
            decreases imports@.len() - i,
        {
            let ghost d1 = *db;
            let ghost before = result@;
            let r = self.resolve_import(db, &imports[i]);
            proof {
                self.lemma_grow(&d1, db);
                lemma_reports(old(db).messages@, d1.messages@, db.messages@, rep_imports(imports@, i as nat, env, k), rep_import(imports@[i as int], env, k));
            }
            match r {
                Some(r) => {
                    result.push(r);
                },
                None => {},
            }
            proof {
                assert forall|x: int|
                    0 <= x < i + 1 && (#[trigger] imports@[x]).from is Some implies res_import(
                    db.table,
                    imports@[x],
                    result@[kept(imports@, x as nat) as int],
                    env,
                    k,
                ) by {
                    if x < i {
                        lemma_kept_below(imports@, x as nat, i as nat);
                        assert(result@[kept(imports@, x as nat) as int] == before[kept(imports@, x as nat) as int]);
                        lemma_res_import_grow(d1.table, db.table, imports@[x], before[kept(imports@, x as nat) as int], env, k);
                    }
                }
            }
            i = i + 1;
        }
        result
    }

    /// Resolve the items of the innermost scope of items.
    fn resolve_items(&mut self, db: &mut NameDb, items: &Vec<Item>) -> (r: Vec<resolved::Item>)
        requires
            old(self).inv(old(db)),
            old(self).parts@.len() > 0,
            forall|i: int| 0 <= i < items@.len() ==> ok_item(#[trigger] items@[i], old(self).env(old(db).table).last().parent),
        ensures
            db_grows(*old(db), *final(db)),
            final(self).inv(final(db)),
            old(self).same(*final(self)),
            r@.len() == items@.len(),
            forall|i: int| 0 <= i < items@.len() ==> res_item(final(db).table, items@[i], #[trigger] r@[i], old(self).env(old(db).table), old(self).known@),
            reports(old(db).messages@, final(db).messages@, rep_items(items@, items@.len(), old(self).env(old(db).table), old(self).known@)),
        decreases items@, 0nat,
    {
        let ghost env = self.env(db.table);
        let ghost k = self.known@;
        let mut result: Vec<resolved::Item> = Vec::new();
        let mut i: usize = 0;
        proof {
            lemma_reports_none(db.messages@);
        }
        while i < items.len()
            invariant
                old(self).inv(old(db)),
                db_grows(*old(db), *db),
                self.inv(db),
                old(self).same(*self),
                self.parts@.len() > 0,
                env == old(self).env(old(db).table),
                env == self.env(db.table),
                k == old(self).known@,
                forall|x: int| 0 <= x < items@.len() ==> ok_item(#[trigger] items@[x], env.last().parent),
                i <= items@.len(),
                result@.len() == i,
                forall|x: int| 0 <= x < i ==> res_item(db.table, items@[x], #[trigger] result@[x], env, k),
                reports(old(db).messages@, db.messages@, rep_items(items@, i as nat, env, k)),
            decreases items@.len() - i,
        {
            let ghost d1 = *db;
            let item = self.resolve_item(db, &items[i]);
            proof {
                self.lemma_grow(&d1, db);
                assert forall|x: int| 0 <= x < i implies res_item(db.table, items@[x], #[trigger] result@[x], env, k) by {
                    lemma_res_item_grow(d1.table, db.table, items@[x], result@[x], env, k);
                }
                lemma_reports(old(db).messages@, d1.messages@, db.messages@, rep_items(items@, i as nat, env, k), rep_item(items@[i as int], env, k));
            }
            result.push(item);
            i = i + 1;
        }
        result
    }

    /// Resolve an item of the innermost scope of items.
    fn resolve_item(&mut self, db: &mut NameDb, item: &Item) -> (r: resolved::Item)
        requires
            old(self).inv(old(db)),
            old(self).parts@.len() > 0,
            ok_item(*item, old(self).env(old(db).table).last().parent),
        ensures
            db_grows(*old(db), *final(db)),
            final(self).inv(final(db)),
            old(self).same(*final(self)),
            res_item(final(db).table, *item, r, old(self).env(old(db).table), old(self).known@),
            reports(old(db).messages@, final(db).messages@, rep_item(*item, old(self).env(old(db).table), old(self).known@)),
        decreases *item, 0nat,
    {
        let ghost d0 = *db;
        let ghost env = self.env(db.table);
        let ghost k = self.known@;
        let last = self.parts.len() - 1;
        let root = self.parts[last].parent;
        proof {
            assert(self.parts@[last as int].wf_in(db.table));
            assert(env.last() == self.parts@[last as int].view_in(db.table));
        }
        let ghost rp = db.table.path(root);
        match item {
            Item::Let { pattern, anno, body } => {
                let pattern_span = pattern.span;
                let (new_pattern, name) = self.resolve_pattern(db, pattern);
                let ghost d1 = *db;
                let scope = match name {
                    Some(name) => DeclarableName::Item(name),
                    None => DeclarableName::Unnamable(
                        db.table.unnamable(UnnamableNameKind::Pattern, Some(root), pattern_span),
                    ),
                };
                let ghost d2 = *db;
                proof {
                    d1.lemma_module_paths(d2);
                    self.lemma_grow(&d0, &d2);
                    assert(d2.table.path(scope) == pattern_scope(*pattern, rp));
                    lemma_res_pattern_grow(d1.table, d2.table, *pattern, new_pattern, env, rp, k);
                }
                let new_anno = match anno {
                    Some(anno) => Some(self.resolve_type(db, scope, anno)),
                    None => None,
                };
                let ghost d3 = *db;
                proof {
                    self.lemma_grow(&d0, &d3);
                }
                let bind = match name {
                    Some(name) => Some(Name::Item(name)),
                    None => None,
                };
                proof {
                    assert(bind_path(d3.table, bind) == pattern_name(*pattern, rp));
                }
                let new_body = match body {
                    Some(body) => Some(self.resolve_expression(db, scope, body, bind)),
                    None => None,
                };
                proof {
                    lemma_res_pattern_grow(d2.table, db.table, *pattern, new_pattern, env, rp, k);
                    match anno {
                        Some(ty) => {
                            lemma_res_type_grow(d3.table, db.table, *ty, new_anno->Some_0, env, pattern_scope(*pattern, rp), k);
                        },
                        None => {
                            lemma_reports_none(d3.messages@);
                        },
                    }
                    let ra = match anno {
                        Some(ty) => rep_type(*ty, env, pattern_scope(*pattern, rp), k),
                        None => Seq::empty(),
                    };
                    let rb = match body {
                        Some(b) => rep_expr(*b, env, pattern_scope(*pattern, rp), pattern_name(*pattern, rp), k),
                        None => Seq::empty(),
                    };
                    if body is None {
                        lemma_reports_none(db.messages@);
                    }
                    lemma_reports(d0.messages@, d2.messages@, d3.messages@, rep_pattern(*pattern, env, rp, k), ra);
                    lemma_reports(d0.messages@, d3.messages@, db.messages@, rep_pattern(*pattern, env, rp, k) + ra, rb);
                }
                resolved::Item::Let { pattern: new_pattern, anno: new_anno, body: new_body }
            },
        }
    }

    /// Resolve the pattern of an item of the innermost scope of items; give
    /// the name it binds, if any.
    fn resolve_pattern(&mut self, db: &mut NameDb, pattern: &Pattern) -> (r: (resolved::Pattern<ItemName>, Option<ItemName>))
        requires
            old(self).inv(old(db)),
            old(self).parts@.len() > 0,
            ok_pattern(*pattern, old(self).env(old(db).table).last().parent),
        ensures
            db_grows(*old(db), *final(db)),
            final(self).inv(final(db)),
            old(self).same(*final(self)),
            res_pattern(final(db).table, *pattern, r.0, old(self).env(old(db).table), old(self).env(old(db).table).last().parent, old(self).known@),
            r.1 matches Some(n) ==> final(db).table.has(DeclarableName::Item(n)),
            item_name_path(final(db).table, r.1) == pattern_name(*pattern, old(self).env(old(db).table).last().parent),
            reports(old(db).messages@, final(db).messages@, rep_pattern(*pattern, old(self).env(old(db).table), old(self).env(old(db).table).last().parent, old(self).known@)),
        decreases *pattern, 0nat,
    {
        let ghost d0 = *db;
        let ghost env = self.env(db.table);
        let ghost k = self.known@;
        let span = pattern.span;
        let last = self.parts.len() - 1;
        let root = self.parts[last].parent;
        proof {
            assert(self.parts@[last as int].wf_in(db.table));
            assert(env.last() == self.parts@[last as int].view_in(db.table));
        }
        let ghost rp = db.table.path(root);
        match &pattern.node {
            PatternNode::Annotate(inner, ty) => {
                let (new_inner, name) = self.resolve_pattern(db, inner);
                let ghost d1 = *db;
                let scope = match name {
                    Some(name) => DeclarableName::Item(name),
                    None => DeclarableName::Unnamable(
                        db.table.unnamable(UnnamableNameKind::Pattern, Some(root), span),
                    ),
                };
                let ghost d2 = *db;
                proof {
                    d1.lemma_module_paths(d2);
                    self.lemma_grow(&d0, &d2);
                    assert(d2.table.path(scope) == pattern_scope(*pattern, rp));
                }
                let new_ty = self.resolve_type(db, scope, ty);
                proof {
                    lemma_res_pattern_grow(d1.table, db.table, **inner, new_inner, env, rp, k);
                    lemma_reports(d0.messages@, d2.messages@, db.messages@, rep_pattern(**inner, env, rp, k), rep_type(*ty, env, pattern_scope(*pattern, rp), k));
                }
                (resolved::Pattern { node: resolved::PatternNode::Annotate(Box::new(new_inner), new_ty), span }, name)
            },
            PatternNode::Name(id) => {
                let raw = db.table.raw(&id.name);
                let name = db.table.item(Some(root), raw);
                proof {
                    d0.lemma_module_paths(*db);
                    self.lemma_grow(&d0, db);
                    lemma_reports_none(db.messages@);
                }
                (resolved::Pattern { node: resolved::PatternNode::Name(name), span }, Some(name))
            },
            PatternNode::Unit => {
                proof {
                    lemma_reports_none(db.messages@);
                }
                (resolved::Pattern { node: resolved::PatternNode::Unit, span }, None)
            },
            PatternNode::Invalid(reason) => {
                proof {
                    lemma_reports_none(db.messages@);
                }
                (resolved::Pattern { node: resolved::PatternNode::Invalid(*reason), span }, None)
            },
        }
    }
}

/// The count of kept imports grows with the number looked at.
proof fn lemma_kept_below(imports: Seq<Import>, x: nat, n: nat)
    requires
        x < n <= imports.len(),
    ensures
        kept(imports, x) + (if imports[x as int].from is Some { 1nat } else { 0nat }) <= kept(imports, n),
    decreases n,
{
    if x + 1 < n {
        lemma_kept_below(imports, x, (n - 1) as nat);
    }
}

/// The scope of items of a source of the module named by `root`.
pub open spec fn source_part(source: AstSource, root: NamePath) -> Part {
    Part { parent: root, imports: imported(source.imports@, root, source.imports@.len()) }
}

/// Whether `r` is the source `source` of the module named by `root`,
/// resolved.
pub open spec fn res_source(t: NameTable, source: AstSource, r: resolved::ModulePart, root: NamePath, k: Known) -> bool {
    let env = seq![source_part(source, root)];
    &&& r.items@.len() == source.items@.len()
    &&& forall|i: int|
        0 <= i < source.items@.len() ==> res_item(t, source.items@[i], #[trigger] r.items@[i], env, k)
    &&& r.imports@.len() == kept(source.imports@, source.imports@.len())
    &&& forall|i: int|
        0 <= i < source.imports@.len() && (#[trigger] source.imports@[i]).from is Some ==> res_import(
            t,
            source.imports@[i],
            r.imports@[kept(source.imports@, i as nat) as int],
            env,
            k,
        )
}

/// What resolving the first `n` sources of the module named by `root`
/// reports.
pub open spec fn rep_sources(sources: Seq<AstSource>, n: nat, root: NamePath, k: Known) -> Seq<Report>
    decreases n,
{
    if n == 0 || n > sources.len() {
        Seq::empty()
    } else {
        let source = sources[n - 1];
        let env = seq![source_part(source, root)];
        rep_sources(sources, (n - 1) as nat, root, k) + rep_imports(
            source.imports@,
            source.imports@.len(),
            env,
            k,
        ) + rep_items(source.items@, source.items@.len(), env, k)
    }
}

/// Whether every import of the sources of the module named by `root` can
/// be resolved.
pub open spec fn ok_sources(sources: Seq<AstSource>, root: NamePath) -> bool {
    &&& forall|i: int, j: int|
        0 <= i < sources.len() && 0 <= j < sources[i].imports@.len() ==> ok_import(
            #[trigger] sources[i].imports@[j],
            root,
        )
    &&& forall|i: int, j: int|
        0 <= i < sources.len() && 0 <= j < sources[i].items@.len() ==> ok_item(
            #[trigger] sources[i].items@[j],
            root,
        )
}

/// What the module declares, and the modules there are, for resolving.
pub open spec fn known(messages: Seq<Message>, sources: Seq<AstSource>, root: NamePath, modules: Set<NamePath>) -> Known {
    Known { declared: declared(messages, sources, root, modules).names.dom(), modules }
}

/// Resolved sources stay resolved as the table grows.
proof fn lemma_res_source_grow(t: NameTable, t2: NameTable, source: AstSource, r: resolved::ModulePart, root: NamePath, k: Known)
    requires
        t.grows_into(t2),
        res_source(t, source, r, root, k),
    ensures
        res_source(t2, source, r, root, k),
{
    let env = seq![source_part(source, root)];
    assert forall|i: int| 0 <= i < source.items@.len() implies res_item(t2, source.items@[i], #[trigger] r.items@[i], env, k) by {
        lemma_res_item_grow(t, t2, source.items@[i], r.items@[i], env, k);
    }
    assert forall|i: int|
        0 <= i < source.imports@.len() && (#[trigger] source.imports@[i]).from is Some implies res_import(
        t2,
        source.imports@[i],
        r.imports@[kept(source.imports@, i as nat) as int],
        env,
        k,
    ) by {
        lemma_res_import_grow(t, t2, source.imports@[i], r.imports@[kept(source.imports@, i as nat) as int], env, k);
    }
}

/// Resolve every name of the module named `module`: each pattern of an item
/// gets the name it declares, and each name in an expression the item it
/// refers to, or is reported and made invalid. Imports from nothing are
/// reported and left out.
pub fn resolve_module(db: &mut NameDb, module: ItemName, sources: &Vec<AstSource>) -> (r: resolved::Module)
    requires
        old(db).wf(),
        old(db).table.has(DeclarableName::Item(module)),
        declared(
            old(db).messages@,
            sources@,
            old(db).table.path(DeclarableName::Item(module)),
            old(db).module_paths(),
        ).ok,
        ok_sources(sources@, old(db).table.path(DeclarableName::Item(module))),
    ensures
        db_grows(*old(db), *final(db)),
        r.name == module,
        r.parts@.len() == sources@.len(),
        forall|i: int|
            0 <= i < sources@.len() ==> res_source(
                final(db).table,
                sources@[i],
                #[trigger] r.parts@[i],
                old(db).table.path(DeclarableName::Item(module)),
                known(
                    old(db).messages@,
                    sources@,
                    old(db).table.path(DeclarableName::Item(module)),
                    old(db).module_paths(),
                ),
            ),
        reports(
            declared(
                old(db).messages@,
                sources@,
                old(db).table.path(DeclarableName::Item(module)),
                old(db).module_paths(),
            ).messages,
            final(db).messages@,
            rep_sources(
                sources@,
                sources@.len(),
                old(db).table.path(DeclarableName::Item(module)),
                known(
                    old(db).messages@,
                    sources@,
                    old(db).table.path(DeclarableName::Item(module)),
                    old(db).module_paths(),
                ),
            ),
        ),
{
    let ghost root = db.table.path(DeclarableName::Item(module));
    let ghost found = declared(db.messages@, sources@, root, db.module_paths());
    let ghost k = known(db.messages@, sources@, root, db.module_paths());
    let declared = declared_names(db, module, sources);
    let ghost after_declaring = db.messages@;
    let mut resolver = Resolver {
        declared,
        found: Ghost(found.names),
        known: Ghost(k),
        parts: Vec::new(),
    };
    let mut parts: Vec<resolved::ModulePart> = Vec::new();
    let mut i: usize = 0;
    proof {
        lemma_reports_none(db.messages@);
    }
    while i < sources.len()
        invariant
            old(db).wf(),
            db_grows(*old(db), *db),
            resolver.inv(db),
            resolver.found@ == found.names,
            resolver.known@ == k,
            k == known(old(db).messages@, sources@, root, old(db).module_paths()),
            root == old(db).table.path(DeclarableName::Item(module)),
            db.table.path(DeclarableName::Item(module)) == root,
            db.table.has(DeclarableName::Item(module)),
            after_declaring == found.messages,
            ok_sources(sources@, root),
            i <= sources@.len(),
            parts@.len() == i,
            forall|j: int| 0 <= j < i ==> res_source(db.table, sources@[j], #[trigger] parts@[j], root, k),
            reports(after_declaring, db.messages@, rep_sources(sources@, i as nat, root, k)),
        decreases sources@.len() - i,
    {
        let source = &sources[i];
        let ghost d0 = *db;
        let imported = imported_names(db, DeclarableName::Item(module), &source.imports);
        let ghost d1 = *db;
        resolver.parts = Vec::new();
        resolver.parts.push(PartResolver { parent: DeclarableName::Item(module), imports: imported });
        let ghost env = seq![source_part(*source, root)];
        proof {
            assert(resolver.parts@[0].wf_in(db.table));
            assert(resolver.inv(db));
            assert(resolver.env(db.table) =~= env);
            assert forall|x: int| 0 <= x < source.imports@.len() && (#[trigger] source.imports@[x]).from is Some implies aliases_found(env.last(), source.imports@[x]) by {
                lemma_aliases_found(source.imports@, root, x);
            }
            assert forall|x: int| 0 <= x < source.imports@.len() implies ok_import(#[trigger] source.imports@[x], env.last().parent) by {
                assert(sources@[i as int].imports@[x] == source.imports@[x]);
            }
            assert forall|x: int| 0 <= x < source.items@.len() implies ok_item(#[trigger] source.items@[x], env.last().parent) by {
                assert(sources@[i as int].items@[x] == source.items@[x]);
            }
        }
        let imports = resolver.resolve_imports(db, &source.imports);
        let ghost d2 = *db;
        proof {
            resolver.lemma_grow(&d1, &d2);
        }
        let items = resolver.resolve_items(db, &source.items);
        proof {
            assert forall|x: int|
                0 <= x < source.imports@.len() && (#[trigger] source.imports@[x]).from is Some implies res_import(
                db.table,
                source.imports@[x],
                imports@[kept(source.imports@, x as nat) as int],
                env,
                k,
            ) by {
                lemma_res_import_grow(d2.table, db.table, source.imports@[x], imports@[kept(source.imports@, x as nat) as int], env, k);
            }
            assert forall|j: int| 0 <= j < i implies res_source(db.table, sources@[j], #[trigger] parts@[j], root, k) by {
                lemma_res_source_grow(d0.table, db.table, sources@[j], parts@[j], root, k);
            }
            lemma_reports(d1.messages@, d2.messages@, db.messages@, rep_imports(source.imports@, source.imports@.len(), env, k), rep_items(source.items@, source.items@.len(), env, k));
            lemma_reports(after_declaring, d1.messages@, db.messages@, rep_sources(sources@, i as nat, root, k), rep_imports(source.imports@, source.imports@.len(), env, k) + rep_items(source.items@, source.items@.len(), env, k));
            assert(rep_sources(sources@, (i + 1) as nat, root, k) =~= rep_sources(sources@, i as nat, root, k) + (rep_imports(source.imports@, source.imports@.len(), env, k) + rep_items(source.items@, source.items@.len(), env, k)));
        }
        parts.push(resolved::ModulePart { imports, items });
        i = i + 1;
    }
    resolved::Module { name: module, parts }
}

} // verus!
