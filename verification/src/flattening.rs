//! Flattening stores every item, import and expression of a resolved module
//! in the lists of a flattened one, children before their parents, and
//! replaces each nested tree by its index.

use vstd::prelude::*;

use crate::flattened;
use crate::flattened::{
    entry_refs_ok, expression_refs_ok, item_refs_ok, pattern_refs_ok, type_refs_ok, ImportIndex,
    ItemIndex, ModuleBuilder, TypeExpression,
};
use crate::names::ItemName;
use crate::resolved;
use crate::vecs::copied;

verus! {

/// Whether `b2` holds everything `b1` holds, at the same indices.
pub open spec fn extends(b2: ModuleBuilder, b1: ModuleBuilder) -> bool {
    &&& b1.items().is_prefix_of(b2.items())
    &&& b1.item_names().is_prefix_of(b2.item_names())
    &&& b1.imports().is_prefix_of(b2.imports())
    &&& b1.expressions().is_prefix_of(b2.expressions())
    &&& b1.name() == b2.name()
}

/// The names a pattern binds, in order.
pub open spec fn pattern_names<N>(pattern: resolved::Pattern<N>) -> Seq<N>
    decreases pattern,
{
    match pattern.node {
        resolved::PatternNode::Annotate(inner, _) => pattern_names(*inner),
        resolved::PatternNode::Name(name) => seq![name],
        _ => Seq::empty(),
    }
}

/// Whether `f` is the type `t` with each expression replaced by its index
/// in `b`.
pub open spec fn flat_type(t: resolved::Type, f: flattened::Type, b: ModuleBuilder) -> bool
    decreases t, 0nat,
{
    &&& f.span == t.span
    &&& match t.node {
        resolved::TypeNode::Range { clusivity, lower, upper } => {
            &&& f.node matches flattened::TypeNode::Range { clusivity: c, lower: l, upper: u }
            &&& c == clusivity
            &&& flat_expr(*lower, l, b)
            &&& flat_expr(*upper, u, b)
        },
        resolved::TypeNode::Invalid(reason) => f.node == flattened::TypeNode::Invalid(reason),
    }
}

/// Whether `f` is the pattern `p` with each expression replaced by its
/// index in `b`.
pub open spec fn flat_pattern<N>(
    p: resolved::Pattern<N>,
    f: flattened::Pattern<N>,
    b: ModuleBuilder,
) -> bool
    decreases p, 0nat,
{
    &&& f.span == p.span
    &&& match p.node {
        resolved::PatternNode::Annotate(inner, ty) => {
            &&& f.node matches flattened::PatternNode::Annotate(fi, ft)
            &&& flat_pattern(*inner, *fi, b)
            &&& flat_type(ty, ft, b)
        },
        resolved::PatternNode::Name(name) => f.node == flattened::PatternNode::Name(name),
        resolved::PatternNode::Unit => f.node == flattened::PatternNode::<N>::Unit,
        resolved::PatternNode::Invalid(reason) => f.node == flattened::PatternNode::<N>::Invalid(
            reason,
        ),
    }
}

/// Whether the item at `index` in `b` is `item`, flattened, binding the
/// names of its pattern.
pub open spec fn flat_item(item: resolved::Item, index: ItemIndex, b: ModuleBuilder) -> bool
    decreases item, 0nat,
{
    &&& index.index() < b.items().len()
    &&& index.index() < b.item_names().len()
    &&& match item {
        resolved::Item::Let { pattern, anno, body } => {
            &&& b.items()[index.index() as int] matches flattened::Item::Let {
                pattern: p,
                anno: a,
                body: e,
            }
            &&& flat_pattern(pattern, p, b)
            &&& b.item_names()[index.index() as int] == pattern_names(pattern)
            &&& match anno {
                Some(ty) => a matches Some(ft) && flat_type(ty, ft, b),
                None => a is None,
            }
            &&& match body {
                Some(body) => e matches Some(fe) && flat_expr(body, fe, b),
                None => e is None,
            }
        },
    }
}

/// Whether the import at `index` in `b` is `import`, flattened.
pub open spec fn flat_import(import: resolved::Import, index: ImportIndex, b: ModuleBuilder) -> bool
    decreases import, 0nat,
{
    &&& index.index() < b.imports().len()
    &&& flat_expr(import.from, b.imports()[index.index() as int].from, b)
    &&& b.imports()[index.index() as int].names@ == import.names@
}

/// Whether the expression at `index` in `b` is `e`, flattened.
pub open spec fn flat_expr(e: resolved::Expression, index: TypeExpression, b: ModuleBuilder) -> bool
    decreases e, 1nat,
{
    &&& index.index() < b.expressions().len()
    &&& b.expressions()[index.index() as int].span == e.span
    &&& flat_node(e, b.expressions()[index.index() as int].node, b)
}

/// Whether the imports of `entry` were flattened before its items: the
/// expression each import reads from comes before the body of each item.
pub open spec fn imports_before_items(entry: flattened::Entry, b: ModuleBuilder) -> bool {
    forall|i: int, j: int|
        0 <= i < entry.imports@.len() && 0 <= j < entry.items@.len() ==> (
        b.items()[#[trigger] entry.items@[j].index() as int] matches flattened::Item::Let {
            body: Some(fe),
            ..
        } ==> b.imports()[#[trigger] entry.imports@[i].index() as int].from.index() < fe.index())
}

/// The order of an entry's imports and items stays in a builder that
/// extends the one it was made in.
proof fn lemma_order_mono(entry: flattened::Entry, b1: ModuleBuilder, b2: ModuleBuilder)
    requires
        extends(b2, b1),
        imports_before_items(entry, b1),
        forall|i: int| 0 <= i < entry.imports@.len() ==> (#[trigger] entry.imports@[i]).index() < b1.imports().len(),
        forall|j: int| 0 <= j < entry.items@.len() ==> (#[trigger] entry.items@[j]).index() < b1.items().len(),
    ensures
        imports_before_items(entry, b2),
{
    assert forall|i: int, j: int|
        0 <= i < entry.imports@.len() && 0 <= j < entry.items@.len() implies (
        b2.items()[#[trigger] entry.items@[j].index() as int] matches flattened::Item::Let {
            body: Some(fe),
            ..
        } ==> b2.imports()[#[trigger] entry.imports@[i].index() as int].from.index() < fe.index()) by {
        let x = entry.items@[j].index() as int;
        let y = entry.imports@[i].index() as int;
        assert(b2.items()[x] == b1.items()[x]);
        assert(b2.imports()[y] == b1.imports()[y]);
    }
}

proof fn lemma_entry_order_kept(
    e: resolved::Expression,
    node: flattened::ExpressionNode,
    b1: ModuleBuilder,
    b2: ModuleBuilder,
)
    requires
        flat_node(e, node, b1),
        extends(b2, b1),
        node matches flattened::ExpressionNode::Entry(entry) ==> imports_before_items(entry, b1),
    ensures
        node matches flattened::ExpressionNode::Entry(entry) ==> imports_before_items(entry, b2),
{
    if let flattened::ExpressionNode::Entry(entry) = node {
        if let resolved::ExpressionNode::Entry { items, imports } = e.node {
            assert forall|i: int| 0 <= i < entry.imports@.len() implies (#[trigger] entry.imports@[i]).index() < b1.imports().len() by {
                assert(flat_import(imports@[i], entry.imports@[i], b1));
            }
            assert forall|j: int| 0 <= j < entry.items@.len() implies (#[trigger] entry.items@[j]).index() < b1.items().len() by {
                assert(flat_item(items@[j], entry.items@[j], b1));
            }
            lemma_order_mono(entry, b1, b2);
        }
    }
}

/// Whether `f` is the node of `e`, flattened into `b`.
pub open spec fn flat_node(
    e: resolved::Expression,
    f: flattened::ExpressionNode,
    b: ModuleBuilder,
) -> bool
    decreases e, 0nat,
{
    match e.node {
        resolved::ExpressionNode::Entry { items, imports } => {
            &&& f matches flattened::ExpressionNode::Entry(entry)
            &&& entry.items@.len() == items@.len()
            &&& entry.imports@.len() == imports@.len()
            &&& forall|i: int|
                0 <= i < items@.len() ==> flat_item(items@[i], #[trigger] entry.items@[i], b)
            &&& forall|i: int|
                0 <= i < imports@.len() ==> flat_import(imports@[i], #[trigger] entry.imports@[i], b)
            &&& forall|i: int, j: int|
                0 <= i < j < imports@.len() ==> (#[trigger] entry.imports@[i]).index()
                    < (#[trigger] entry.imports@[j]).index()
            &&& forall|i: int, j: int|
                0 <= i < j < items@.len() ==> (#[trigger] entry.items@[i]).index()
                    < (#[trigger] entry.items@[j]).index()
        },
        resolved::ExpressionNode::Let { pattern, anno, body } => {
            &&& f matches flattened::ExpressionNode::Let { pattern: p, anno: a, body: fb }
            &&& flat_pattern(pattern, p, b)
            &&& match anno {
                Some(ty) => a matches Some(ft) && flat_type(ty, ft, b),
                None => a is None,
            }
            &&& match body {
                Some(body) => fb matches Some(fe) && flat_expr(*body, fe, b),
                None => fb is None,
            }
        },
        resolved::ExpressionNode::Block(exprs) => {
            &&& f matches flattened::ExpressionNode::Block(fs)
            &&& fs@.len() == exprs@.len()
            &&& forall|i: int| 0 <= i < exprs@.len() ==> flat_expr(exprs@[i], #[trigger] fs@[i], b)
        },
        resolved::ExpressionNode::Annotate(inner, ty) => {
            &&& f matches flattened::ExpressionNode::Annotate(fi, ft)
            &&& flat_expr(*inner, fi, b)
            &&& flat_type(*ty, ft, b)
        },
        resolved::ExpressionNode::Path(inner, field) => {
            &&& f matches flattened::ExpressionNode::Path(fi, ff)
            &&& ff == field
            &&& flat_expr(*inner, fi, b)
        },
        resolved::ExpressionNode::Name(name) => f == flattened::ExpressionNode::Name(name),
        resolved::ExpressionNode::Alias(alias) => f == flattened::ExpressionNode::Alias(alias),
        resolved::ExpressionNode::Number(number) => f matches flattened::ExpressionNode::Number(n)
            && n@ == number@,
        resolved::ExpressionNode::String(string) => f matches flattened::ExpressionNode::String(s)
            && s@ == string@,
        resolved::ExpressionNode::Unit => f is Unit,
        resolved::ExpressionNode::Invalid(reason) => f == flattened::ExpressionNode::Invalid(
            reason,
        ),
    }
}

proof fn lemma_type_mono(t: resolved::Type, f: flattened::Type, b1: ModuleBuilder, b2: ModuleBuilder)
    requires
        flat_type(t, f, b1),
        extends(b2, b1),
    ensures
        flat_type(t, f, b2),
    decreases t, 0nat,
{
    match t.node {
        resolved::TypeNode::Range { lower, upper, .. } => {
            let (l, u) = match f.node {
                flattened::TypeNode::Range { lower: l, upper: u, .. } => (l, u),
                _ => arbitrary(),
            };
            lemma_expr_mono(*lower, l, b1, b2);
            lemma_expr_mono(*upper, u, b1, b2);
        },
        _ => {},
    }
}

proof fn lemma_pattern_mono<N>(
    p: resolved::Pattern<N>,
    f: flattened::Pattern<N>,
    b1: ModuleBuilder,
    b2: ModuleBuilder,
)
    requires
        flat_pattern(p, f, b1),
        extends(b2, b1),
    ensures
        flat_pattern(p, f, b2),
    decreases p, 0nat,
{
    match p.node {
        resolved::PatternNode::Annotate(inner, ty) => {
            let (fi, ft) = match f.node {
                flattened::PatternNode::Annotate(fi, ft) => (*fi, ft),
                _ => arbitrary(),
            };
            lemma_pattern_mono(*inner, fi, b1, b2);
            lemma_type_mono(ty, ft, b1, b2);
        },
        _ => {},
    }
}

proof fn lemma_item_mono(item: resolved::Item, index: ItemIndex, b1: ModuleBuilder, b2: ModuleBuilder)
    requires
        flat_item(item, index, b1),
        extends(b2, b1),
    ensures
        flat_item(item, index, b2),
    decreases item, 0nat,
{
    let k = index.index() as int;
    assert(b2.items()[k] == b1.items()[k]);
    assert(b2.item_names()[k] == b1.item_names()[k]);
    match item {
        resolved::Item::Let { pattern, anno, body } => {
            let (p, a, e) = match b1.items()[k] {
                flattened::Item::Let { pattern: p, anno: a, body: e } => (p, a, e),
            };
            lemma_pattern_mono(pattern, p, b1, b2);
            match anno {
                Some(ty) => lemma_type_mono(ty, a.unwrap(), b1, b2),
                None => {},
            }
            match body {
                Some(body) => lemma_expr_mono(body, e.unwrap(), b1, b2),
                None => {},
            }
        },
    }
}

proof fn lemma_import_mono(
    import: resolved::Import,
    index: ImportIndex,
    b1: ModuleBuilder,
    b2: ModuleBuilder,
)
    requires
        flat_import(import, index, b1),
        extends(b2, b1),
    ensures
        flat_import(import, index, b2),
    decreases import, 0nat,
{
    let k = index.index() as int;
    assert(b2.imports()[k] == b1.imports()[k]);
    lemma_expr_mono(import.from, b1.imports()[k].from, b1, b2);
}

proof fn lemma_expr_mono(
    e: resolved::Expression,
    index: TypeExpression,
    b1: ModuleBuilder,
    b2: ModuleBuilder,
)
    requires
        flat_expr(e, index, b1),
        extends(b2, b1),
    ensures
        flat_expr(e, index, b2),
    decreases e, 1nat,
{
    let k = index.index() as int;
    assert(b2.expressions()[k] == b1.expressions()[k]);
    lemma_node_mono(e, b1.expressions()[k].node, b1, b2);
}

proof fn lemma_node_mono(
    e: resolved::Expression,
    f: flattened::ExpressionNode,
    b1: ModuleBuilder,
    b2: ModuleBuilder,
)
    requires
        flat_node(e, f, b1),
        extends(b2, b1),
    ensures
        flat_node(e, f, b2),
    decreases e, 0nat,
{
    match e.node {
        resolved::ExpressionNode::Entry { items, imports } => {
            let entry = f->Entry_0;
            assert forall|i: int| 0 <= i < items@.len() implies flat_item(
                items@[i],
                #[trigger] entry.items@[i],
                b2,
            ) by {
                lemma_item_mono(items@[i], entry.items@[i], b1, b2);
            }
            assert forall|i: int| 0 <= i < imports@.len() implies flat_import(
                imports@[i],
                #[trigger] entry.imports@[i],
                b2,
            ) by {
                lemma_import_mono(imports@[i], entry.imports@[i], b1, b2);
            }
        },
        resolved::ExpressionNode::Let { pattern, anno, body } => {
            let (p, a, fb) = match f {
                flattened::ExpressionNode::Let { pattern: p, anno: a, body: fb } => (p, a, fb),
                _ => arbitrary(),
            };
            lemma_pattern_mono(pattern, p, b1, b2);
            match anno {
                Some(ty) => lemma_type_mono(ty, a.unwrap(), b1, b2),
                None => {},
            }
            match body {
                Some(body) => lemma_expr_mono(*body, fb.unwrap(), b1, b2),
                None => {},
            }
        },
        resolved::ExpressionNode::Block(exprs) => {
            let fs = f->Block_0;
            assert forall|i: int| 0 <= i < exprs@.len() implies flat_expr(
                exprs@[i],
                #[trigger] fs@[i],
                b2,
            ) by {
                lemma_expr_mono(exprs@[i], fs@[i], b1, b2);
            }
        },
        resolved::ExpressionNode::Annotate(inner, ty) => {
            lemma_expr_mono(*inner, f->Annotate_0, b1, b2);
            lemma_type_mono(*ty, f->Annotate_1, b1, b2);
        },
        resolved::ExpressionNode::Path(inner, _) => {
            lemma_expr_mono(*inner, f->Path_0, b1, b2);
        },
        _ => {},
    }
}

proof fn lemma_extends_refl(b: ModuleBuilder)
    ensures
        extends(b, b),
{
    assert(b.items().is_prefix_of(b.items()));
    assert(b.item_names().is_prefix_of(b.item_names()));
    assert(b.imports().is_prefix_of(b.imports()));
    assert(b.expressions().is_prefix_of(b.expressions()));
}

proof fn lemma_extends_trans(b1: ModuleBuilder, b2: ModuleBuilder, b3: ModuleBuilder)
    requires
        extends(b2, b1),
        extends(b3, b2),
    ensures
        extends(b3, b1),
{
    assert(b1.items().is_prefix_of(b3.items()));
    assert(b1.item_names().is_prefix_of(b3.item_names()));
    assert(b1.imports().is_prefix_of(b3.imports()));
    assert(b1.expressions().is_prefix_of(b3.expressions()));
}

proof fn lemma_pattern_refs<N>(p: resolved::Pattern<N>, f: flattened::Pattern<N>, b: ModuleBuilder)
    requires
        flat_pattern(p, f, b),
    ensures
        pattern_refs_ok(f, b.expressions().len()),
    decreases p,
{
    match p.node {
        resolved::PatternNode::Annotate(inner, _) => {
            let (fi, ft) = match f.node {
                flattened::PatternNode::Annotate(fi, ft) => (*fi, ft),
                _ => arbitrary(),
            };
            lemma_pattern_refs(*inner, fi, b);
            lemma_type_refs(match p.node {
                resolved::PatternNode::Annotate(_, ty) => ty,
                _ => arbitrary(),
            }, ft, b);
        },
        _ => {},
    }
}

proof fn lemma_type_refs(t: resolved::Type, f: flattened::Type, b: ModuleBuilder)
    requires
        flat_type(t, f, b),
    ensures
        type_refs_ok(f, b.expressions().len()),
{
    match t.node {
        resolved::TypeNode::Range { lower, upper, .. } => {
            let (l, u) = match f.node {
                flattened::TypeNode::Range { lower: l, upper: u, .. } => (l, u),
                _ => arbitrary(),
            };
            assert(flat_expr(*lower, l, b));
            assert(flat_expr(*upper, u, b));
        },
        _ => {},
    }
}

/// Whether the top-level items and imports of the parts of `module`, in
/// order, are flattened into `m`, whose entry binds them.
pub open spec fn module_of(module: resolved::Module, m: flattened::Module) -> bool {
    exists|b: ModuleBuilder|
        {
            &&& b.items() == m.items.items()
            &&& b.item_names() == m.items.names()
            &&& b.imports() == m.imports.imports()
            &&& b.expressions() == m.type_exprs.expressions()
            &&& m.entry.items@.len() == parts_items(module.parts@).len()
            &&& m.entry.imports@.len() == parts_imports(module.parts@).len()
            &&& forall|i: int|
                0 <= i < m.entry.items@.len() ==> flat_item(
                    parts_items(module.parts@)[i],
                    #[trigger] m.entry.items@[i],
                    b,
                )
            &&& forall|i: int|
                0 <= i < m.entry.imports@.len() ==> flat_import(
                    parts_imports(module.parts@)[i],
                    #[trigger] m.entry.imports@[i],
                    b,
                )
        }
}

/// The items of `parts`, in order.
pub open spec fn parts_items(parts: Seq<resolved::ModulePart>) -> Seq<resolved::Item>
    decreases parts.len(),
{
    if parts.len() == 0 {
        Seq::empty()
    } else {
        parts_items(parts.drop_last()) + parts.last().items@
    }
}

/// The imports of `parts`, in order.
pub open spec fn parts_imports(parts: Seq<resolved::ModulePart>) -> Seq<resolved::Import>
    decreases parts.len(),
{
    if parts.len() == 0 {
        Seq::empty()
    } else {
        parts_imports(parts.drop_last()) + parts.last().imports@
    }
}

/// Flatten every part of a module: for each part its imports, then its
/// items. The resulting module's entry binds them all, in that order.
pub fn flatten_module(module: &resolved::Module) -> (m: flattened::Module)
    ensures
        m.wf(),
        m.name == module.name,
        module_of(*module, m),
{
    let mut flattener = Flattener::new(module.name);
    let mut items: Vec<ItemIndex> = Vec::new();
    let mut imports: Vec<ImportIndex> = Vec::new();
    let ghost parts = module.parts@;
    let mut p: usize = 0;
    proof {
        assert(parts.take(0) =~= Seq::<resolved::ModulePart>::empty());
    }
    while p < module.parts.len()
        invariant
            p <= parts.len(),
            parts == module.parts@,
            flattener.builder().wf(),
            flattener.builder().name() == module.name,
            items@.len() == parts_items(parts.take(p as int)).len(),
            imports@.len() == parts_imports(parts.take(p as int)).len(),
            forall|i: int|
                0 <= i < items@.len() ==> flat_item(
                    parts_items(parts.take(p as int))[i],
                    #[trigger] items@[i],
                    flattener.builder(),
                ),
            forall|i: int|
                0 <= i < imports@.len() ==> flat_import(
                    parts_imports(parts.take(p as int))[i],
                    #[trigger] imports@[i],
                    flattener.builder(),
                ),
        decreases parts.len() - p,
    {
        let part = &module.parts[p];
        assert(parts.take(p + 1).drop_last() =~= parts.take(p as int));
        let ghost pre_items = parts_items(parts.take(p as int));
        let ghost pre_imports = parts_imports(parts.take(p as int));
        let mut j: usize = 0;
        while j < part.imports.len()
            invariant
                j <= part.imports@.len(),
                flattener.builder().wf(),
                flattener.builder().name() == module.name,
                items@.len() == pre_items.len(),
                imports@.len() == pre_imports.len() + j,
                forall|i: int|
                    0 <= i < items@.len() ==> flat_item(
                        pre_items[i],
                        #[trigger] items@[i],
                        flattener.builder(),
                    ),
                forall|i: int|
                    0 <= i < imports@.len() ==> flat_import(
                        (pre_imports + part.imports@)[i],
                        #[trigger] imports@[i],
                        flattener.builder(),
                    ),
            decreases part.imports@.len() - j,
        {
            let ghost before = flattener.builder();
            let index = flattener.flatten_import(&part.imports[j]);
            proof {
                assert forall|i: int| 0 <= i < items@.len() implies flat_item(
                    pre_items[i],
                    #[trigger] items@[i],
                    flattener.builder(),
                ) by {
                    lemma_item_mono(pre_items[i], items@[i], before, flattener.builder());
                }
                assert forall|i: int| 0 <= i < imports@.len() implies flat_import(
                    (pre_imports + part.imports@)[i],
                    #[trigger] imports@[i],
                    flattener.builder(),
                ) by {
                    lemma_import_mono(
                        (pre_imports + part.imports@)[i],
                        imports@[i],
                        before,
                        flattener.builder(),
                    );
                }
            }
            imports.push(index);
            j = j + 1;
        }
        let mut j: usize = 0;
        while j < part.items.len()
            invariant
                j <= part.items@.len(),
                flattener.builder().wf(),
                flattener.builder().name() == module.name,
                items@.len() == pre_items.len() + j,
                imports@.len() == (pre_imports + part.imports@).len(),
                forall|i: int|
                    0 <= i < items@.len() ==> flat_item(
                        (pre_items + part.items@)[i],
                        #[trigger] items@[i],
                        flattener.builder(),
                    ),
                forall|i: int|
                    0 <= i < imports@.len() ==> flat_import(
                        (pre_imports + part.imports@)[i],
                        #[trigger] imports@[i],
                        flattener.builder(),
                    ),
            decreases part.items@.len() - j,
        {
            let ghost before = flattener.builder();
            let index = flattener.flatten_item(&part.items[j]);
            proof {
                assert forall|i: int| 0 <= i < items@.len() implies flat_item(
                    (pre_items + part.items@)[i],
                    #[trigger] items@[i],
                    flattener.builder(),
                ) by {
                    lemma_item_mono((pre_items + part.items@)[i], items@[i], before, flattener.builder());
                }
                assert forall|i: int| 0 <= i < imports@.len() implies flat_import(
                    (pre_imports + part.imports@)[i],
                    #[trigger] imports@[i],
                    flattener.builder(),
                ) by {
                    lemma_import_mono(
                        (pre_imports + part.imports@)[i],
                        imports@[i],
                        before,
                        flattener.builder(),
                    );
                }
            }
            items.push(index);
            j = j + 1;
        }
        p = p + 1;
    }
    assert(parts.take(p as int) =~= parts);
    let ghost b = flattener.builder();
    let m = flattener.finish(items, imports);
    assert(b.items() == m.items.items());
    m
}

/// Flattens the items and imports of a module into a [`ModuleBuilder`].
pub struct Flattener {
    builder: ModuleBuilder,
}

impl Flattener {
    /// What has been flattened so far.
    pub closed spec fn builder(self) -> ModuleBuilder {
        self.builder
    }

    pub fn new(module_name: ItemName) -> (f: Self)
        ensures
            f.builder().wf(),
            f.builder().name() == module_name,
            f.builder().items().len() == 0,
            f.builder().imports().len() == 0,
            f.builder().expressions().len() == 0,
    {
        Self { builder: ModuleBuilder::new(module_name) }
    }

    /// Build the module whose entry binds `items` and `imports`.
    pub fn finish(self, items: Vec<ItemIndex>, imports: Vec<ImportIndex>) -> (m: flattened::Module)
        requires
            self.builder().wf(),
            forall|i: int|
                0 <= i < items@.len() ==> (#[trigger] items@[i]).index()
                    < self.builder().items().len(),
            forall|i: int|
                0 <= i < imports@.len() ==> (#[trigger] imports@[i]).index()
                    < self.builder().imports().len(),
        ensures
            m.wf(),
            m.name == self.builder().name(),
            m.items.items() == self.builder().items(),
            m.items.names() == self.builder().item_names(),
            m.imports.imports() == self.builder().imports(),
            m.type_exprs.expressions() == self.builder().expressions(),
            m.entry.items@ == items@,
            m.entry.imports@ == imports@,
    {
        proof {
            self.builder.lemma_wf_sized();
        }
        self.builder.build(flattened::Entry { items, imports })
    }

    /// Flatten an import, returning its index.
    pub fn flatten_import(&mut self, import: &resolved::Import) -> (index: ImportIndex)
        requires
            old(self).builder().wf(),
        ensures
            final(self).builder().wf(),
            extends(final(self).builder(), old(self).builder()),
            flat_import(*import, index, final(self).builder()),
            index.index() + 1 == final(self).builder().imports().len(),
            index.index() >= old(self).builder().imports().len(),
            final(self).builder().imports()[index.index() as int].from.index() >= old(
                self,
            ).builder().expressions().len(),
        decreases import,
    {
        let ghost b0 = self.builder;
        let from = self.flatten_expression(&import.from);
        let ghost b1 = self.builder;
        let names = copied(&import.names);
        let flat = flattened::Import { from, names };
        proof {
            self.builder.lemma_wf_sized();
        }
        let index = self.builder.add_import(flat);
        proof {
            assert(b1.imports().is_prefix_of(self.builder.imports()));
            assert(b1.items().is_prefix_of(self.builder.items()));
            assert(b1.item_names().is_prefix_of(self.builder.item_names()));
            assert(b1.expressions().is_prefix_of(self.builder.expressions()));
            lemma_expr_mono(import.from, from, b1, self.builder);
            lemma_extends_trans(b0, b1, self.builder);
        }
        index
    }

    /// Flatten an item, returning its index.
    pub fn flatten_item(&mut self, item: &resolved::Item) -> (index: ItemIndex)
        requires
            old(self).builder().wf(),
        ensures
            final(self).builder().wf(),
            extends(final(self).builder(), old(self).builder()),
            flat_item(*item, index, final(self).builder()),
            index.index() + 1 == final(self).builder().items().len(),
            index.index() >= old(self).builder().items().len(),
            final(self).builder().items()[index.index() as int] matches flattened::Item::Let {
                body: Some(fe),
                ..
            } ==> fe.index() >= old(self).builder().expressions().len(),
        decreases item,
    {
        match item {
            resolved::Item::Let { pattern, anno, body } => {
                let ghost b0 = self.builder;
                let (fpat, names) = self.flatten_pattern(pattern);
                let ghost b1 = self.builder;
                let fanno = match anno {
                    Some(ty) => Some(self.flatten_type(ty)),
                    None => None,
                };
                let ghost b2 = self.builder;
                let fbody = match body {
                    Some(expression) => Some(self.flatten_expression(expression)),
                    None => None,
                };
                let ghost b3 = self.builder;
                proof {
                    if anno is None {
                        lemma_extends_refl(b1);
                    }
                    if body is None {
                        lemma_extends_refl(b2);
                    }
                    lemma_extends_trans(b1, b2, b3);
                    lemma_extends_trans(b0, b1, b3);
                    lemma_pattern_mono(*pattern, fpat, b1, b3);
                    lemma_pattern_refs(*pattern, fpat, b3);
                    if anno is Some {
                        lemma_type_mono(anno.unwrap(), fanno.unwrap(), b2, b3);
                    }
                }
                let flat = flattened::Item::Let { pattern: fpat, anno: fanno, body: fbody };
                proof {
                    self.builder.lemma_wf_sized();
                }
                let index = self.builder.add_item(names, flat);
                proof {
                    let b4 = self.builder;
                    assert(b3.items().is_prefix_of(b4.items()));
                    assert(b3.item_names().is_prefix_of(b4.item_names()));
                    assert(b3.imports().is_prefix_of(b4.imports()));
                    assert(b3.expressions().is_prefix_of(b4.expressions()));
                    lemma_extends_trans(b0, b3, b4);
                    lemma_pattern_mono(*pattern, fpat, b3, b4);
                    if anno is Some {
                        lemma_type_mono(anno.unwrap(), fanno.unwrap(), b3, b4);
                    }
                    if body is Some {
                        lemma_expr_mono(body.unwrap(), fbody.unwrap(), b3, b4);
                    }
                    assert(b4.items()[index.index() as int] == flat);
                    assert(b4.item_names()[index.index() as int] == names@);
                    assert(flat_pattern(*pattern, fpat, b4));
                    assert(match *anno {
                        Some(ty) => fanno matches Some(ft) && flat_type(ty, ft, b4),
                        None => fanno is None,
                    });
                    assert(match *body {
                        Some(body) => fbody matches Some(fe) && flat_expr(body, fe, b4),
                        None => fbody is None,
                    });
                }
                index
            },
        }
    }

    /// Flatten a type.
    fn flatten_type(&mut self, ty: &resolved::Type) -> (f: flattened::Type)
        requires
            old(self).builder().wf(),
        ensures
            final(self).builder().wf(),
            extends(final(self).builder(), old(self).builder()),
            flat_type(*ty, f, final(self).builder()),
        decreases ty,
    {
        let span = ty.span;
        let node = match &ty.node {
            resolved::TypeNode::Range { clusivity, lower, upper } => {
                let ghost b0 = self.builder;
                let lower_index = self.flatten_expression(lower);
                let ghost b1 = self.builder;
                let upper_index = self.flatten_expression(upper);
                proof {
                    lemma_expr_mono(**lower, lower_index, b1, self.builder);
                    lemma_extends_trans(b0, b1, self.builder);
                }
                flattened::TypeNode::Range {
                    clusivity: *clusivity,
                    lower: lower_index,
                    upper: upper_index,
                }
            },
            resolved::TypeNode::Invalid(reason) => {
                proof {
                    lemma_extends_refl(self.builder);
                }
                flattened::TypeNode::Invalid(*reason)
            },
        };
        flattened::Type { span, node }
    }

    /// Flatten a pattern, also returning the names it binds.
    fn flatten_pattern<N: Copy>(&mut self, pattern: &resolved::Pattern<N>) -> (r: (
        flattened::Pattern<N>,
        Vec<N>,
    ))
        requires
            old(self).builder().wf(),
        ensures
            final(self).builder().wf(),
            extends(final(self).builder(), old(self).builder()),
            flat_pattern(*pattern, r.0, final(self).builder()),
            r.1@ == pattern_names(*pattern),
        decreases pattern,
    {
        let span = pattern.span;
        let (node, names) = match &pattern.node {
            resolved::PatternNode::Annotate(inner, ty) => {
                let ghost b0 = self.builder;
                let (inner_flat, names) = self.flatten_pattern(inner);
                let ghost b1 = self.builder;
                let ty = self.flatten_type(ty);
                proof {
                    lemma_pattern_mono(**inner, inner_flat, b1, self.builder);
                    lemma_extends_trans(b0, b1, self.builder);
                }
                (flattened::PatternNode::Annotate(Box::new(inner_flat), ty), names)
            },
            resolved::PatternNode::Name(name) => {
                let mut names = Vec::new();
                names.push(*name);
                proof {
                    lemma_extends_refl(self.builder);
                }
                (flattened::PatternNode::Name(*name), names)
            },
            resolved::PatternNode::Unit => {
                proof {
                    lemma_extends_refl(self.builder);
                }
                (flattened::PatternNode::Unit, Vec::new())
            },
            resolved::PatternNode::Invalid(reason) => {
                proof {
                    lemma_extends_refl(self.builder);
                }
                (flattened::PatternNode::Invalid(*reason), Vec::new())
            },
        };
        (flattened::Pattern { span, node }, names)
    }

    /// Flatten an expression, returning its index.
    #[verifier::loop_isolation(false)]
    fn flatten_expression(&mut self, expression: &resolved::Expression) -> (index: TypeExpression)
        requires
            old(self).builder().wf(),
        ensures
            final(self).builder().wf(),
            extends(final(self).builder(), old(self).builder()),
            flat_expr(*expression, index, final(self).builder()),
            index.index() + 1 == final(self).builder().expressions().len(),
            index.index() >= old(self).builder().expressions().len(),
            final(self).builder().expressions()[index.index() as int].node matches flattened::ExpressionNode::Entry(
                entry,
            ) ==> imports_before_items(entry, final(self).builder()),
        decreases expression,
    {
        let ghost b0 = self.builder;
        let span = expression.span;
        let node = match &expression.node {
            resolved::ExpressionNode::Entry { items, imports } => {
                let mut flat_imports: Vec<ImportIndex> = Vec::new();
                let mut flat_items: Vec<ItemIndex> = Vec::new();
                let mut i: usize = 0;
                proof {
                    lemma_extends_refl(self.builder);
                }
                while i < imports.len()
                    invariant
                        i <= imports@.len(),
                        self.builder().wf(),
                        extends(self.builder(), b0),
                        flat_imports@.len() == i,
                        forall|j: int|
                            0 <= j < i ==> flat_import(
                                imports@[j],
                                #[trigger] flat_imports@[j],
                                self.builder(),
                            ),
                        forall|j: int| 0 <= j < i ==> (#[trigger] flat_imports@[j]).index() < self.builder().imports().len(),
                        forall|j: int, k: int|
                            0 <= j < k < i ==> (#[trigger] flat_imports@[j]).index()
                                < (#[trigger] flat_imports@[k]).index(),
                        forall|j: int|
                            0 <= j < i ==> self.builder().imports()[(#[trigger] flat_imports@[j]).index() as int].from.index()
                                < self.builder().expressions().len(),
                    decreases imports@.len() - i,
                {
                    let ghost before = self.builder;
                    let index = self.flatten_import(&imports[i]);
                    proof {
                        assert forall|j: int|
                            0 <= j < i implies self.builder().imports()[(#[trigger] flat_imports@[j]).index() as int].from.index()
                                < self.builder().expressions().len() by {
                            let y = flat_imports@[j].index() as int;
                            assert(self.builder().imports()[y] == before.imports()[y]);
                        }
                        assert(flat_import(imports@[i as int], index, self.builder()));
                        lemma_extends_trans(b0, before, self.builder);
                        assert forall|j: int| 0 <= j < i implies flat_import(
                            imports@[j],
                            #[trigger] flat_imports@[j],
                            self.builder(),
                        ) by {
                            lemma_import_mono(imports@[j], flat_imports@[j], before, self.builder);
                        }
                    }
                    flat_imports.push(index);
                    i = i + 1;
                }
                let mut i: usize = 0;
                let ghost e_mid = self.builder().expressions().len();
                while i < items.len()
                    invariant
                        i <= items@.len(),
                        self.builder().wf(),
                        extends(self.builder(), b0),
                        flat_items@.len() == i,
                        flat_imports@.len() == imports@.len(),
                        self.builder().expressions().len() >= e_mid,
                        forall|j: int|
                            0 <= j < imports@.len() ==> (#[trigger] flat_imports@[j]).index() < self.builder().imports().len()
                                && self.builder().imports()[flat_imports@[j].index() as int].from.index() < e_mid,
                        forall|j: int|
                            0 <= j < i ==> (self.builder().items()[(#[trigger] flat_items@[j]).index() as int] matches flattened::Item::Let {
                                body: Some(fe),
                                ..
                            } ==> fe.index() >= e_mid),
                        forall|j: int|
                            0 <= j < i ==> flat_item(
                                items@[j],
                                #[trigger] flat_items@[j],
                                self.builder(),
                            ),
                        forall|j: int|
                            0 <= j < imports@.len() ==> flat_import(
                                imports@[j],
                                #[trigger] flat_imports@[j],
                                self.builder(),
                            ),
                        forall|j: int, k: int|
                            0 <= j < k < imports@.len() ==> (#[trigger] flat_imports@[j]).index()
                                < (#[trigger] flat_imports@[k]).index(),
                        forall|j: int| 0 <= j < i ==> (#[trigger] flat_items@[j]).index() < self.builder().items().len(),
                        forall|j: int, k: int|
                            0 <= j < k < i ==> (#[trigger] flat_items@[j]).index()
                                < (#[trigger] flat_items@[k]).index(),
                    decreases items@.len() - i,
                {
                    let ghost before = self.builder;
                    let index = self.flatten_item(&items[i]);
                    proof {
                        lemma_extends_trans(b0, before, self.builder);
                        assert forall|j: int|
                            0 <= j < imports@.len() implies (#[trigger] flat_imports@[j]).index() < self.builder().imports().len()
                                && self.builder().imports()[flat_imports@[j].index() as int].from.index() < e_mid by {
                            let y = flat_imports@[j].index() as int;
                            assert(self.builder().imports()[y] == before.imports()[y]);
                        }
                        assert forall|j: int|
                            0 <= j < i implies (self.builder().items()[(#[trigger] flat_items@[j]).index() as int] matches flattened::Item::Let {
                                body: Some(fe),
                                ..
                            } ==> fe.index() >= e_mid) by {
                            let x = flat_items@[j].index() as int;
                            assert(self.builder().items()[x] == before.items()[x]);
                        }
                        assert forall|j: int| 0 <= j < i implies flat_item(
                            items@[j],
                            #[trigger] flat_items@[j],
                            self.builder(),
                        ) by {
                            lemma_item_mono(items@[j], flat_items@[j], before, self.builder);
                        }
                        assert forall|j: int| 0 <= j < imports@.len() implies flat_import(
                            imports@[j],
                            #[trigger] flat_imports@[j],
                            self.builder(),
                        ) by {
                            lemma_import_mono(imports@[j], flat_imports@[j], before, self.builder);
                        }
                    }
                    flat_items.push(index);
                    i = i + 1;
                }
                let entry = flattened::Entry { items: flat_items, imports: flat_imports };
                proof {
                    assert(imports_before_items(entry, self.builder())) by {
                        assert forall|i: int, j: int|
                            0 <= i < entry.imports@.len() && 0 <= j < entry.items@.len() implies (
                            self.builder().items()[#[trigger] entry.items@[j].index() as int] matches flattened::Item::Let {
                                body: Some(fe),
                                ..
                            } ==> self.builder().imports()[#[trigger] entry.imports@[i].index() as int].from.index()
                                < fe.index()) by {
                            assert(entry.items@[j] == flat_items@[j]);
                            assert(entry.imports@[i] == flat_imports@[i]);
                        }
                    }
                }
                flattened::ExpressionNode::Entry(entry)
            },
            resolved::ExpressionNode::Let { pattern, anno, body } => {
                let (fpat, _) = self.flatten_pattern(pattern);
                let ghost b1 = self.builder;
                let fanno = match anno {
                    Some(ty) => Some(self.flatten_type(ty)),
                    None => None,
                };
                let ghost b2 = self.builder;
                let fbody = match body {
                    Some(expression) => Some(self.flatten_expression(expression)),
                    None => None,
                };
                let ghost b3 = self.builder;
                proof {
                    if anno is None {
                        lemma_extends_refl(b1);
                    }
                    if body is None {
                        lemma_extends_refl(b2);
                    }
                    lemma_extends_trans(b1, b2, b3);
                    lemma_extends_trans(b0, b1, b3);
                    lemma_pattern_mono(*pattern, fpat, b1, b3);
                    if anno is Some {
                        lemma_type_mono(anno.unwrap(), fanno.unwrap(), b2, b3);
                    }
                }
                flattened::ExpressionNode::Let { pattern: fpat, anno: fanno, body: fbody }
            },
            resolved::ExpressionNode::Block(expressions) => {
                let mut flat: Vec<TypeExpression> = Vec::new();
                let mut i: usize = 0;
                proof {
                    lemma_extends_refl(self.builder);
                }
                while i < expressions.len()
                    invariant
                        i <= expressions@.len(),
                        self.builder().wf(),
                        extends(self.builder(), b0),
                        flat@.len() == i,
                        forall|j: int|
                            0 <= j < i ==> flat_expr(
                                expressions@[j],
                                #[trigger] flat@[j],
                                self.builder(),
                            ),
                    decreases expressions@.len() - i,
                {
                    let ghost before = self.builder;
                    let index = self.flatten_expression(&expressions[i]);
                    proof {
                        lemma_extends_trans(b0, before, self.builder);
                        assert forall|j: int| 0 <= j < i implies flat_expr(
                            expressions@[j],
                            #[trigger] flat@[j],
                            self.builder(),
                        ) by {
                            lemma_expr_mono(expressions@[j], flat@[j], before, self.builder);
                        }
                    }
                    flat.push(index);
                    i = i + 1;
                }
                flattened::ExpressionNode::Block(flat)
            },
            resolved::ExpressionNode::Annotate(inner, ty) => {
                let fi = self.flatten_expression(inner);
                let ghost b1 = self.builder;
                let ft = self.flatten_type(ty);
                proof {
                    lemma_expr_mono(**inner, fi, b1, self.builder);
                    lemma_extends_trans(b0, b1, self.builder);
                }
                flattened::ExpressionNode::Annotate(fi, ft)
            },
            resolved::ExpressionNode::Path(inner, field) => {
                let fi = self.flatten_expression(inner);
                flattened::ExpressionNode::Path(fi, *field)
            },
            resolved::ExpressionNode::Name(name) => {
                proof {
                    lemma_extends_refl(self.builder);
                }
                flattened::ExpressionNode::Name(*name)
            },
            resolved::ExpressionNode::Alias(alias) => {
                proof {
                    lemma_extends_refl(self.builder);
                }
                flattened::ExpressionNode::Alias(*alias)
            },
            resolved::ExpressionNode::Number(number) => {
                proof {
                    lemma_extends_refl(self.builder);
                }
                flattened::ExpressionNode::Number(number.clone())
            },
            resolved::ExpressionNode::String(string) => {
                proof {
                    lemma_extends_refl(self.builder);
                }
                flattened::ExpressionNode::String(string.clone())
            },
            resolved::ExpressionNode::Unit => {
                proof {
                    lemma_extends_refl(self.builder);
                }
                flattened::ExpressionNode::Unit
            },
            resolved::ExpressionNode::Invalid(reason) => {
                proof {
                    lemma_extends_refl(self.builder);
                }
                flattened::ExpressionNode::Invalid(*reason)
            },
        };
        let ghost b1 = self.builder;
        proof {
            assert(flat_node(*expression, node, b1));
            lemma_node_refs(*expression, node, b1);
        }
        let ghost e_node = node;
        proof {
            assert(e_node matches flattened::ExpressionNode::Entry(entry) ==> imports_before_items(entry, b1));
        }
        let expr = flattened::Expression { span, node };
        proof {
            self.builder.lemma_wf_sized();
        }
        let index = self.builder.add_type_expression(expr);
        proof {
            let b2 = self.builder;
            assert(b1.items().is_prefix_of(b2.items()));
            assert(b1.item_names().is_prefix_of(b2.item_names()));
            assert(b1.imports().is_prefix_of(b2.imports()));
            assert(b1.expressions().is_prefix_of(b2.expressions()));
            lemma_node_mono(*expression, expr.node, b1, b2);
            lemma_extends_trans(b0, b1, b2);
            assert(b2.expressions()[index.index() as int] == expr);
            lemma_entry_order_kept(*expression, e_node, b1, b2);
        }
        index
    }
}

/// What a flattened node refers to is already in `b`.
proof fn lemma_node_refs(e: resolved::Expression, f: flattened::ExpressionNode, b: ModuleBuilder)
    requires
        flat_node(e, f, b),
    ensures
        expression_refs_ok(
            flattened::Expression { node: f, span: e.span },
            b.expressions().len(),
            b.items().len(),
            b.imports().len(),
        ),
{
    match e.node {
        resolved::ExpressionNode::Entry { items, imports } => {
            let entry = f->Entry_0;
            assert forall|i: int| 0 <= i < entry.items@.len() implies (
            #[trigger] entry.items@[i]).index() < b.items().len() by {
                assert(flat_item(items@[i], entry.items@[i], b));
            }
            assert forall|i: int| 0 <= i < entry.imports@.len() implies (
            #[trigger] entry.imports@[i]).index() < b.imports().len() by {
                assert(flat_import(imports@[i], entry.imports@[i], b));
            }
        },
        resolved::ExpressionNode::Let { pattern, anno, .. } => {
            lemma_pattern_refs(pattern, f->Let_pattern, b);
            if anno is Some {
                lemma_type_refs(anno.unwrap(), f->Let_anno.unwrap(), b);
            }
        },
        resolved::ExpressionNode::Annotate(_, ty) => {
            lemma_type_refs(*ty, f->Annotate_1, b);
        },
        resolved::ExpressionNode::Block(exprs) => {
            let fs = f->Block_0;
            assert forall|i: int| 0 <= i < fs@.len() implies (#[trigger] fs@[i]).index()
                < b.expressions().len() by {
                assert(flat_expr(exprs@[i], fs@[i], b));
            }
        },
        _ => {},
    }
}

} // verus!
