//! The direct dependencies of the items of a checked program, from which a
//! dependency graph and its strongly connected components follow. An item
//! *depends* on another if the former cannot be evaluated, type checked and
//! so on before the latter is.

use vstd::prelude::*;

use crate::checked::{
    Expression, ExpressionNode, Item, ItemIndex, Pattern, PatternNode, Program, Type,
};
use crate::components::{components, in_component, DefIndex};
use crate::names::{DeclarableName, ItemName, NameTable};

verus! {

/// The dependencies of every item: the items each depends on, the order in
/// which to handle them (the strongly connected components of the graph),
/// and the names each item declares.
#[derive(Debug)]
pub struct Dependencies {
    pub graph: Vec<(ItemIndex, Vec<ItemIndex>)>,
    pub order: Vec<Vec<ItemIndex>>,
    pub names: Vec<(ItemIndex, Vec<ItemName>)>,
}

/// The name an item declares, if any.
pub open spec fn item_name_of(item: Item) -> Option<ItemName> {
    match item {
        Item::Let { pattern, .. } => match pattern.node {
            PatternNode::Name(n) => Some(n),
            _ => None,
        },
        _ => None,
    }
}

/// The index of the item declaring each name, among the first `n` items.
pub open spec fn name_map(entries: Seq<(ItemIndex, Item)>, n: nat) -> Map<ItemName, ItemIndex>
    decreases n,
{
    if n == 0 || n > entries.len() {
        Map::empty()
    } else {
        let m = name_map(entries, (n - 1) as nat);
        match item_name_of(entries[n - 1].1) {
            Some(name) => m.insert(name, entries[n - 1].0),
            None => m,
        }
    }
}

/// Whether no two items declare the same name.
pub open spec fn names_distinct(entries: Seq<(ItemIndex, Item)>) -> bool {
    forall|i: int, j: int|
        0 <= i < j < entries.len() && item_name_of(entries[i].1) is Some ==> item_name_of(
            #[trigger] entries[i].1,
        ) != item_name_of(#[trigger] entries[j].1)
}

/// The innermost item name that `d` is, or is declared within, if any.
pub open spec fn enclosing_item(t: NameTable, d: DeclarableName) -> Option<ItemName>
    decreases d.index(),
{
    match d {
        DeclarableName::Item(n) => Some(n),
        _ => if t.has(d) {
            match t.decls()[d.index() as int].parent() {
                Some(p) => if p.index() < d.index() {
                    enclosing_item(t, p)
                } else {
                    None
                },
                None => None,
            }
        } else {
            None
        },
    }
}

/// The items that the first `n` fields of a trait are declared by, in order.
pub open spec fn fields_list(values: Seq<ItemName>, n: nat, names: Map<ItemName, ItemIndex>) -> Seq<ItemIndex>
    decreases n,
{
    if n == 0 || n > values.len() {
        Seq::empty()
    } else {
        fields_list(values, (n - 1) as nat, names) + if names.contains_key(values[n - 1]) {
            seq![names[values[n - 1]]]
        } else {
            Seq::empty()
        }
    }
}

/// The items a type refers to, in order.
pub open spec fn type_list(ty: Type, names: Map<ItemName, ItemIndex>) -> Seq<ItemIndex> {
    match ty {
        Type::Trait { values } => fields_list(values@, values@.len(), names),
        Type::Range { lower, upper, .. } => seq![lower, upper],
        _ => Seq::empty(),
    }
}

/// The items a pattern refers to, in order: those of its type.
pub open spec fn pattern_list<N>(p: Pattern<N>, names: Map<ItemName, ItemIndex>) -> Seq<ItemIndex> {
    type_list(p.data, names)
}

/// The items an expression refers to, in order: those of its type, then
/// those of its parts.
pub open spec fn expr_list(t: NameTable, e: Expression, names: Map<ItemName, ItemIndex>) -> Seq<ItemIndex>
    decreases e, 0nat,
{
    type_list(e.data, names) + match e.node {
        ExpressionNode::Entry(entry) => entry.items@,
        ExpressionNode::Let { pattern, body } => pattern_list(pattern, names) + match body {
            Some(b) => expr_list(t, *b, names),
            None => Seq::empty(),
        },
        ExpressionNode::Block(es, last) => exprs_list(t, es@, es@.len(), names) + expr_list(
            t,
            *last,
            names,
        ),
        ExpressionNode::Path(inner, _) => expr_list(t, *inner, names),
        ExpressionNode::Coerce(inner) => expr_list(t, *inner, names),
        ExpressionNode::Item(index) => seq![index],
        ExpressionNode::Name(name) => match enclosing_item(t, name.spec_declarable()) {
            Some(item) => if names.contains_key(item) {
                seq![names[item]]
            } else {
                Seq::empty()
            },
            None => Seq::empty(),
        },
        _ => Seq::empty(),
    }
}

/// The items the first `n` expressions refer to, in order.
pub open spec fn exprs_list(t: NameTable, es: Seq<Expression>, n: nat, names: Map<ItemName, ItemIndex>) -> Seq<ItemIndex>
    decreases es, n,
{
    if n == 0 || n > es.len() {
        Seq::empty()
    } else {
        exprs_list(t, es, (n - 1) as nat, names) + expr_list(t, es[n - 1], names)
    }
}

/// Whether `c` is an expression directly inside `e`.
pub open spec fn sub_expression(e: Expression, c: Expression) -> bool {
    match e.node {
        ExpressionNode::Let { body: Some(b), .. } => *b == c,
        ExpressionNode::Block(es, last) => *last == c || es@.contains(c),
        ExpressionNode::Path(inner, _) => *inner == c,
        ExpressionNode::Coerce(inner) => *inner == c,
        _ => false,
    }
}

/// The items the first `n` expressions refer to hold those each of them
/// refers to.
proof fn lemma_exprs_list_holds(
    t: NameTable,
    es: Seq<Expression>,
    n: nat,
    names: Map<ItemName, ItemIndex>,
    i: int,
    x: ItemIndex,
)
    requires
        0 <= i < n <= es.len(),
        expr_list(t, es[i], names).contains(x),
    ensures
        exprs_list(t, es, n, names).contains(x),
    decreases n,
{
    let prev = exprs_list(t, es, (n - 1) as nat, names);
    let last = expr_list(t, es[n - 1], names);
    if i == n - 1 {
        let k = choose|k: int| 0 <= k < last.len() && last[k] == x;
        assert((prev + last)[prev.len() + k] == x);
    } else {
        lemma_exprs_list_holds(t, es, (n - 1) as nat, names, i, x);
        let k = choose|k: int| 0 <= k < prev.len() && prev[k] == x;
        assert((prev + last)[k] == x);
    }
}

/// Whatever item an expression inside `e` refers to, `e` refers to as well:
/// the items an item depends on include those of every part of its body.
/// An expression naming an item, directly or through a name declared in
/// it, refers to that item.
pub proof fn law_parts_refer_within(
    t: NameTable,
    e: Expression,
    c: Expression,
    names: Map<ItemName, ItemIndex>,
    x: ItemIndex,
)
    ensures
        sub_expression(e, c) && expr_list(t, c, names).contains(x) ==> expr_list(t, e, names).contains(x),
        e.node matches ExpressionNode::Item(index) ==> expr_list(t, e, names).contains(index),
        e.node matches ExpressionNode::Name(name) ==> match enclosing_item(t, name.spec_declarable()) {
            Some(item) => names.contains_key(item) ==> expr_list(t, e, names).contains(names[item]),
            None => true,
        },
{
    let ty = type_list(e.data, names);
    if sub_expression(e, c) && expr_list(t, c, names).contains(x) {
        let inner = expr_list(t, c, names);
        let k = choose|k: int| 0 <= k < inner.len() && inner[k] == x;
        match e.node {
            ExpressionNode::Let { pattern, body: Some(b) } => {
                let pl = pattern_list(pattern, names);
                assert((ty + (pl + inner))[ty.len() + pl.len() + k] == x);
            },
            ExpressionNode::Block(es, last) => {
                let el = exprs_list(t, es@, es@.len(), names);
                if *last == c {
                    assert((ty + (el + inner))[ty.len() + el.len() + k] == x);
                } else {
                    let i = choose|i: int| 0 <= i < es@.len() && es@[i] == c;
                    lemma_exprs_list_holds(t, es@, es@.len(), names, i, x);
                    let m = choose|m: int| 0 <= m < el.len() && el[m] == x;
                    let ll = expr_list(t, *last, names);
                    assert((ty + (el + ll))[ty.len() + m] == x);
                }
            },
            ExpressionNode::Path(_, _) | ExpressionNode::Coerce(_) => {
                assert((ty + inner)[ty.len() + k] == x);
            },
            _ => {},
        }
    }
    match e.node {
        ExpressionNode::Item(index) => {
            assert((ty + seq![index])[ty.len() as int] == index);
        },
        ExpressionNode::Name(name) => {
            if let Some(item) = enclosing_item(t, name.spec_declarable()) {
                if names.contains_key(item) {
                    assert((ty + seq![names[item]])[ty.len() as int] == names[item]);
                }
            }
        },
        _ => {},
    }
}

/// The items an item refers to, in order.
pub open spec fn item_list(t: NameTable, item: Item, names: Map<ItemName, ItemIndex>) -> Seq<ItemIndex> {
    match item {
        Item::Bound { body } => expr_list(t, body, names),
        Item::Let { pattern, body } => pattern_list(pattern, names) + match body {
            Some(b) => expr_list(t, b, names),
            None => Seq::empty(),
        },
    }
}

/// The names the first `n` items declare, each with the item declaring it.
pub open spec fn named(entries: Seq<(ItemIndex, Item)>, n: nat) -> Seq<(ItemIndex, Seq<ItemName>)>
    decreases n,
{
    if n == 0 || n > entries.len() {
        Seq::empty()
    } else {
        named(entries, (n - 1) as nat) + match item_name_of(entries[n - 1].1) {
            Some(name) => seq![(entries[n - 1].0, seq![name])],
            None => Seq::empty(),
        }
    }
}

/// Whether `v` holds each element once.
pub open spec fn distinct(v: Seq<ItemIndex>) -> bool {
    forall|i: int, j: int| 0 <= i < j < v.len() ==> v[i] != v[j]
}

/// Whether `x` is one of the items of `entries`.
pub open spec fn is_item(entries: Seq<(ItemIndex, Item)>, x: ItemIndex) -> bool {
    exists|i: int| 0 <= i < entries.len() && (#[trigger] entries[i]).0 == x
}

/// The direct dependencies of every item of `program`, the order in which
/// to handle its items, and the names each item declares.
pub fn get_dependencies(table: &NameTable, program: &Program) -> (d: Dependencies)
    requires
        table.wf(),
        program.wf(),
        names_distinct(program.entries()),
    ensures
        d.graph@.len() == program.entries().len(),
        forall|k: int|
            0 <= k < d.graph@.len() ==> {
                &&& (#[trigger] d.graph@[k]).0 == program.entries()[k].0
                &&& distinct(d.graph@[k].1@)
                &&& d.graph@[k].1@.to_set() == item_list(
                    *table,
                    program.entries()[k].1,
                    name_map(program.entries(), program.entries().len()),
                ).to_set()
            },
        forall|c: int, k: int|
            0 <= c < d.order@.len() && 0 <= k < d.order@[c]@.len() ==> is_item(
                program.entries(),
                #[trigger] d.order@[c]@[k],
            ),
        forall|i: int|
            #![trigger program.entries()[i]]
            0 <= i < program.entries().len() ==> exists|c: int, k: int|
                0 <= c < d.order@.len() && 0 <= k < d.order@[c]@.len() && #[trigger] d.order@[c]@[k]
                    == program.entries()[i].0,
        forall|c1: int, k1: int, c2: int, k2: int|
            0 <= c1 < d.order@.len() && 0 <= k1 < d.order@[c1]@.len() && 0 <= c2 < d.order@.len() && 0
                <= k2 < d.order@[c2]@.len() && #[trigger] d.order@[c1]@[k1] == #[trigger] d.order@[c2]@[k2]
                ==> c1 == c2 && k1 == k2,
        forall|c: int| 0 <= c < d.order@.len() ==> #[trigger] d.order@[c]@.len() > 0,
        forall|a: int, k: int, c1: int, k1: int, c2: int, k2: int|
            #![trigger d.graph@[a].1@[k], d.order@[c1]@[k1], d.order@[c2]@[k2]]
            0 <= a < d.graph@.len() && 0 <= k < d.graph@[a].1@.len() && 0 <= c1 < d.order@.len() && 0
                <= k1 < d.order@[c1]@.len() && 0 <= c2 < d.order@.len() && 0 <= k2 < d.order@[c2]@.len()
                && d.order@[c1]@[k1] == d.graph@[a].0 && d.order@[c2]@[k2] == d.graph@[a].1@[k] ==> c2
                <= c1,
        d.names@.len() == named(program.entries(), program.entries().len()).len(),
        forall|k: int|
            0 <= k < d.names@.len() ==> (#[trigger] d.names@[k]).0 == named(
                program.entries(),
                program.entries().len(),
            )[k].0 && d.names@[k].1@ == named(program.entries(), program.entries().len())[k].1,
{
    let finder = DependencyFinder::new();
    finder.find(table, program)
}

/// Finds the direct dependencies of items.
struct DependencyFinder {
    /// The dependencies of each item found so far.
    graph: Vec<(ItemIndex, Vec<ItemIndex>)>,
    /// The item declaring each name.
    names: Vec<(ItemName, ItemIndex)>,
}

/// The map that the first `n` pairs of `v` make, later pairs taking
/// precedence.
pub open spec fn pairs_map(v: Seq<(ItemName, ItemIndex)>, n: nat) -> Map<ItemName, ItemIndex>
    decreases n,
{
    if n == 0 || n > v.len() {
        Map::empty()
    } else {
        pairs_map(v, (n - 1) as nat).insert(v[n - 1].0, v[n - 1].1)
    }
}

/// Adding a pair keeps the map of the pairs before it.
proof fn lemma_pairs_map_push(v: Seq<(ItemName, ItemIndex)>, e: (ItemName, ItemIndex), k: nat)
    requires
        k <= v.len(),
    ensures
        pairs_map(v.push(e), k) == pairs_map(v, k),
    decreases k,
{
    if k > 0 {
        lemma_pairs_map_push(v, e, (k - 1) as nat);
        assert(v.push(e)[k - 1] == v[k - 1]);
    }
}

/// The item index that `v` maps `name` to, if any.
fn index_of(v: &Vec<(ItemName, ItemIndex)>, name: ItemName) -> (r: Option<ItemIndex>)
    ensures
        r == (if pairs_map(v@, v@.len()).contains_key(name) {
            Some(pairs_map(v@, v@.len())[name])
        } else {
            None
        }),
{
    let mut i: usize = v.len();
    while i > 0
        invariant
            i <= v@.len(),
            pairs_map(v@, v@.len()).contains_key(name) == pairs_map(v@, i as nat).contains_key(name),
            pairs_map(v@, v@.len())[name] == pairs_map(v@, i as nat)[name],
        decreases i,
    {
        if v[i - 1].0 == name {
            return Some(v[i - 1].1);
        }
        i = i - 1;
    }
    None
}

/// The elements of `v`, each once, in the order they first occur.
fn distinct_of(v: &Vec<ItemIndex>) -> (r: Vec<ItemIndex>)
    ensures
        distinct(r@),
        r@.to_set() == v@.to_set(),
{
    let mut r: Vec<ItemIndex> = Vec::new();
    let mut i: usize = 0;
    while i < v.len()
        invariant
            i <= v@.len(),
            distinct(r@),
            forall|y: ItemIndex| r@.contains(y) <==> exists|k: int| 0 <= k < i && #[trigger] v@[k] == y,
        decreases v@.len() - i,
    {
        let x = v[i];
        let mut j: usize = 0;
        let mut seen = false;
        while j < r.len()
            invariant
                j <= r@.len(),
                seen <==> exists|k: int| 0 <= k < j && #[trigger] r@[k] == x,
            decreases r@.len() - j,
        {
            if r[j] == x {
                seen = true;
            }
            j = j + 1;
        }
        let ghost before = r@;
        if !seen {
            r.push(x);
        }
        proof {
            assert forall|y: ItemIndex| r@.contains(y) <==> exists|k: int| 0 <= k < i + 1 && #[trigger] v@[k] == y by {
                if y == x {
                    assert(v@[i as int] == y);
                    if seen {
                        let k = choose|k: int| 0 <= k < j && #[trigger] before[k] == x;
                        assert(r@[k] == y);
                    } else {
                        assert(r@[r@.len() - 1] == y);
                    }
                } else {
                    if r@.contains(y) {
                        let k = choose|k: int| 0 <= k < r@.len() && r@[k] == y;
                        assert(before[k] == y);
                        assert(before.contains(y));
                    }
                    if exists|k: int| 0 <= k < i + 1 && #[trigger] v@[k] == y {
                        let k = choose|k: int| 0 <= k < i + 1 && #[trigger] v@[k] == y;
                        assert(k < i);
                        assert(before.contains(y));
                        let k2 = choose|k2: int| 0 <= k2 < before.len() && before[k2] == y;
                        assert(r@[k2] == y);
                    }
                }
            }
            if !seen {
                assert forall|a: int, b: int| 0 <= a < b < r@.len() implies r@[a] != r@[b] by {
                    if b == r@.len() - 1 {
                        assert(r@[a] == before[a]);
                        assert(before[a] != x);
                    } else {
                        assert(r@[a] == before[a]);
                        assert(r@[b] == before[b]);
                    }
                }
            }
        }
        i = i + 1;
    }
    proof {
        assert forall|y: ItemIndex| r@.to_set().contains(y) == v@.to_set().contains(y) by {
            if v@.contains(y) {
                let k = choose|k: int| 0 <= k < v@.len() && v@[k] == y;
                assert(v@[k] == y);
            }
        }
        assert(r@.to_set() =~= v@.to_set());
    }
    r
}

impl DependencyFinder {
    fn new() -> (f: Self)
        ensures
            f.graph@.len() == 0,
            f.names@.len() == 0,
    {
        DependencyFinder { graph: Vec::new(), names: Vec::new() }
    }

    /// The names that an item declares.
    fn item_names(&self, item: &Item) -> (names: Vec<ItemName>)
        ensures
            names@ == (match item_name_of(*item) {
                Some(n) => seq![n],
                None => Seq::empty(),
            }),
    {
        match item {
            Item::Let { pattern, .. } => match pattern.node {
                PatternNode::Name(n) => vec![n],
                _ => Vec::new(),
            },
            Item::Bound { .. } => Vec::new(),
        }
    }

    /// Map the names to the items declaring them, find the dependencies of
    /// every item, and order the items.
    fn find(self, table: &NameTable, program: &Program) -> (d: Dependencies)
        requires
            table.wf(),
            program.wf(),
            names_distinct(program.entries()),
            self.graph@.len() == 0,
            self.names@.len() == 0,
        ensures
            d.graph@.len() == program.entries().len(),
            forall|k: int|
                0 <= k < d.graph@.len() ==> {
                    &&& (#[trigger] d.graph@[k]).0 == program.entries()[k].0
                    &&& distinct(d.graph@[k].1@)
                    &&& d.graph@[k].1@.to_set() == item_list(
                        *table,
                        program.entries()[k].1,
                        name_map(program.entries(), program.entries().len()),
                    ).to_set()
                },
            forall|c: int, k: int|
                0 <= c < d.order@.len() && 0 <= k < d.order@[c]@.len() ==> is_item(
                    program.entries(),
                    #[trigger] d.order@[c]@[k],
                ),
            forall|i: int|
                #![trigger program.entries()[i]]
                0 <= i < program.entries().len() ==> exists|c: int, k: int|
                    0 <= c < d.order@.len() && 0 <= k < d.order@[c]@.len() && #[trigger] d.order@[c]@[k]
                        == program.entries()[i].0,
            forall|c1: int, k1: int, c2: int, k2: int|
                0 <= c1 < d.order@.len() && 0 <= k1 < d.order@[c1]@.len() && 0 <= c2 < d.order@.len()
                    && 0 <= k2 < d.order@[c2]@.len() && #[trigger] d.order@[c1]@[k1]
                    == #[trigger] d.order@[c2]@[k2] ==> c1 == c2 && k1 == k2,
            forall|c: int| 0 <= c < d.order@.len() ==> #[trigger] d.order@[c]@.len() > 0,
            forall|a: int, k: int, c1: int, k1: int, c2: int, k2: int|
                #![trigger d.graph@[a].1@[k], d.order@[c1]@[k1], d.order@[c2]@[k2]]
                0 <= a < d.graph@.len() && 0 <= k < d.graph@[a].1@.len() && 0 <= c1 < d.order@.len() && 0
                    <= k1 < d.order@[c1]@.len() && 0 <= c2 < d.order@.len() && 0 <= k2 < d.order@[c2]@.len()
                    && d.order@[c1]@[k1] == d.graph@[a].0 && d.order@[c2]@[k2] == d.graph@[a].1@[k] ==> c2
                    <= c1,
            d.names@.len() == named(program.entries(), program.entries().len()).len(),
            forall|k: int|
                0 <= k < d.names@.len() ==> (#[trigger] d.names@[k]).0 == named(
                    program.entries(),
                    program.entries().len(),
                )[k].0 && d.names@[k].1@ == named(program.entries(), program.entries().len())[k].1,
    {
        let mut this = self;
        let ghost entries = program.entries();
        proof {
            program.lemma_wf();
        }
        // Map the item names to the index where they were defined.
        let mut i: usize = 0;
        while i < program.items().len()
            invariant
                entries == program.entries(),
                program.entries() == entries,
                this.graph@.len() == 0,
                i <= entries.len(),
                pairs_map(this.names@, this.names@.len()) == name_map(entries, i as nat),
            decreases entries.len() - i,
        {
            let (index, item) = &program.items()[i];
            let names = this.item_names(item);
            let ghost before = this.names@;
            let mut j: usize = 0;
            while j < names.len()
                invariant
                    this.graph@.len() == 0,
                    names@.len() <= 1,
                    j <= names@.len(),
                    names@ == (match item_name_of(*item) {
                        Some(n) => seq![n],
                        None => Seq::<ItemName>::empty(),
                    }),
                    this.names@ == before + names@.take(j as int).map_values(|n: ItemName| (n, *index)),
                decreases names@.len() - j,
            {
                this.names.push((names[j], *index));
                proof {
                    assert(names@.take(j + 1).map_values(|n: ItemName| (n, *index)) =~= names@.take(j as int).map_values(|n: ItemName| (n, *index)).push((names@[j as int], *index)));
                }
                j = j + 1;
            }
            proof {
                assert(program.entries()[i as int] == entries[i as int]);
                match item_name_of(*item) {
                    Some(n) => {
                        assert(names@.take(1) =~= names@);
                        assert(this.names@ == before.push((n, *index)));
                        lemma_pairs_map_push(before, (n, *index), before.len());
                        assert(pairs_map(this.names@, this.names@.len()) == pairs_map(before, before.len()).insert(n, *index));
                    },
                    None => {
                        assert(this.names@ =~= before);
                    },
                }
            }
            i = i + 1;
        }
        let ghost map = name_map(entries, entries.len());
        // Map out the dependency graph.
        let mut i: usize = 0;
        while i < program.items().len()
            invariant
                table.wf(),
                entries == program.entries(),
                program.entries() == entries,
                pairs_map(this.names@, this.names@.len()) == map,
                map == name_map(entries, entries.len()),
                i <= entries.len(),
                this.graph@.len() == i,
                forall|k: int|
                    0 <= k < i ==> {
                        &&& (#[trigger] this.graph@[k]).0 == entries[k].0
                        &&& distinct(this.graph@[k].1@)
                        &&& this.graph@[k].1@.to_set() == item_list(*table, entries[k].1, map).to_set()
                    },
            decreases entries.len() - i,
        {
            let (index, item) = &program.items()[i];
            proof {
                assert(program.entries()[i as int] == entries[i as int]);
            }
            this.for_item(table, *index, item);
            i = i + 1;
        }
        this.construct(program)
    }

    /// Order the items by the strongly connected components of the graph,
    /// and list the names each item declares.
    fn construct(self, program: &Program) -> (d: Dependencies)
        requires
            program.wf(),
            self.graph@.len() == program.entries().len(),
            forall|k: int| 0 <= k < self.graph@.len() ==> (#[trigger] self.graph@[k]).0 == program.entries()[k].0,
        ensures
            d.graph == self.graph,
            forall|c: int, k: int|
                0 <= c < d.order@.len() && 0 <= k < d.order@[c]@.len() ==> is_item(
                    program.entries(),
                    #[trigger] d.order@[c]@[k],
                ),
            forall|i: int|
                #![trigger program.entries()[i]]
                0 <= i < program.entries().len() ==> exists|c: int, k: int|
                    0 <= c < d.order@.len() && 0 <= k < d.order@[c]@.len() && #[trigger] d.order@[c]@[k]
                        == program.entries()[i].0,
            forall|c1: int, k1: int, c2: int, k2: int|
                0 <= c1 < d.order@.len() && 0 <= k1 < d.order@[c1]@.len() && 0 <= c2 < d.order@.len()
                    && 0 <= k2 < d.order@[c2]@.len() && #[trigger] d.order@[c1]@[k1]
                    == #[trigger] d.order@[c2]@[k2] ==> c1 == c2 && k1 == k2,
            forall|c: int| 0 <= c < d.order@.len() ==> #[trigger] d.order@[c]@.len() > 0,
            forall|a: int, k: int, c1: int, k1: int, c2: int, k2: int|
                #![trigger d.graph@[a].1@[k], d.order@[c1]@[k1], d.order@[c2]@[k2]]
                0 <= a < d.graph@.len() && 0 <= k < d.graph@[a].1@.len() && 0 <= c1 < d.order@.len() && 0
                    <= k1 < d.order@[c1]@.len() && 0 <= c2 < d.order@.len() && 0 <= k2 < d.order@[c2]@.len()
                    && d.order@[c1]@[k1] == d.graph@[a].0 && d.order@[c2]@[k2] == d.graph@[a].1@[k] ==> c2
                    <= c1,
            d.names@.len() == named(program.entries(), program.entries().len()).len(),
            forall|k: int|
                0 <= k < d.names@.len() ==> (#[trigger] d.names@[k]).0 == named(
                    program.entries(),
                    program.entries().len(),
                )[k].0 && d.names@[k].1@ == named(program.entries(), program.entries().len())[k].1,
    {
        let ghost entries = program.entries();
        proof {
            program.lemma_wf();
        }
        let n = self.graph.len();
        // The graph over the positions of the items; a dependency on an
        // index that no item has is on nothing that could be part of a cycle,
        // and is left out.
        let mut adjacency: Vec<Vec<DefIndex>> = Vec::new();
        let mut v: usize = 0;
        while v < n
            invariant
                n == self.graph@.len(),
                entries == program.entries(),
                n == entries.len(),
                forall|x: int| 0 <= x < self.graph@.len() ==> (#[trigger] self.graph@[x]).0 == entries[x].0,
                forall|x: int, y: int| 0 <= x < y < entries.len() ==> (#[trigger] entries[x]).0 != (#[trigger] entries[y]).0,
                v <= n,
                adjacency@.len() == v,
                forall|a: int, k: int|
                    0 <= a < v && 0 <= k < adjacency@[a]@.len() ==> (#[trigger] adjacency@[a]@[k]).0 < n,
                forall|a: int, k: int, j: int|
                    #![trigger self.graph@[a].1@[k], self.graph@[j]]
                    0 <= a < v && 0 <= k < self.graph@[a].1@.len() && 0 <= j < n && self.graph@[j].0
                        == self.graph@[a].1@[k] ==> adjacency@[a]@.contains(DefIndex(j as usize)),
            decreases n - v,
        {
            let deps = &self.graph[v].1;
            let mut row: Vec<DefIndex> = Vec::new();
            let mut k: usize = 0;
            while k < deps.len()
                invariant
                    n == self.graph@.len(),
                    entries == program.entries(),
                    n == entries.len(),
                    forall|x: int| 0 <= x < self.graph@.len() ==> (#[trigger] self.graph@[x]).0 == entries[x].0,
                    forall|x: int, y: int| 0 <= x < y < entries.len() ==> (#[trigger] entries[x]).0 != (#[trigger] entries[y]).0,
                    v < n,
                    deps == self.graph@[v as int].1,
                    k <= deps@.len(),
                    forall|x: int| 0 <= x < row@.len() ==> (#[trigger] row@[x]).0 < n,
                    forall|k2: int, j: int|
                        #![trigger deps@[k2], self.graph@[j]]
                        0 <= k2 < k && 0 <= j < n && self.graph@[j].0 == deps@[k2] ==> row@.contains(
                            DefIndex(j as usize),
                        ),
                decreases deps@.len() - k,
            {
                let ghost before_row = row@;
                match self.position(deps[k]) {
                    Some(p) => {
                        row.push(DefIndex(p));
                        proof {
                            assert forall|k2: int, j: int|
                                #![trigger deps@[k2], self.graph@[j]]
                                0 <= k2 < k + 1 && 0 <= j < n && self.graph@[j].0 == deps@[k2] implies row@.contains(
                                    DefIndex(j as usize),
                                ) by {
                                if k2 < k {
                                    let m = choose|m: int| 0 <= m < before_row.len() && before_row[m] == DefIndex(j as usize);
                                    assert(row@[m] == DefIndex(j as usize));
                                } else {
                                    if (p as int) != j {
                                        if (p as int) < j {
                                            assert(entries[p as int].0 != entries[j].0);
                                        } else {
                                            assert(entries[j].0 != entries[p as int].0);
                                        }
                                    }
                                    assert(row@[before_row.len() as int] == DefIndex(j as usize));
                                }
                            }
                        }
                    },
                    None => {},
                }
                k = k + 1;
            }
            let ghost before_adj = adjacency@;
            adjacency.push(row);
            proof {
                assert forall|a: int, k: int, j: int|
                    #![trigger self.graph@[a].1@[k], self.graph@[j]]
                    0 <= a < v + 1 && 0 <= k < self.graph@[a].1@.len() && 0 <= j < n && self.graph@[j].0
                        == self.graph@[a].1@[k] implies adjacency@[a]@.contains(DefIndex(j as usize)) by {
                    if a < v {
                        assert(adjacency@[a] == before_adj[a]);
                    } else {
                        assert(deps@[k] == self.graph@[a].1@[k]);
                    }
                }
            }
            v = v + 1;
        }
        let found = components(&adjacency);
        let ghost comps = found.ordered@;
        let mut order: Vec<Vec<ItemIndex>> = Vec::new();
        let mut c: usize = 0;
        while c < found.ordered.len()
            invariant
                entries == program.entries(),
                self.graph@.len() == entries.len(),
                n == entries.len(),
                forall|k: int| 0 <= k < self.graph@.len() ==> (#[trigger] self.graph@[k]).0 == entries[k].0,
                forall|i: int, j: int| 0 <= i < j < entries.len() ==> (#[trigger] entries[i]).0 != (#[trigger] entries[j]).0,
                comps == found.ordered@,
                forall|a: int, k: int|
                    0 <= a < comps.len() && 0 <= k < comps[a]@.len() ==> (#[trigger] comps[a]@[k]).0 < n,
                c <= comps.len(),
                order@.len() == c,
                forall|a: int|
                    0 <= a < c ==> (#[trigger] order@[a])@.len() == comps[a]@.len() && forall|k: int|
                        0 <= k < comps[a]@.len() ==> order@[a]@[k] == entries[comps[a]@[k].0 as int].0,
            decreases comps.len() - c,
        {
            let members = &found.ordered[c];
            let mut items: Vec<ItemIndex> = Vec::new();
            let mut k: usize = 0;
            while k < members.len()
                invariant
                    entries == program.entries(),
                    self.graph@.len() == entries.len(),
                    forall|x: int| 0 <= x < self.graph@.len() ==> (#[trigger] self.graph@[x]).0 == entries[x].0,
                    members@ == comps[c as int]@,
                    forall|x: int| 0 <= x < members@.len() ==> (#[trigger] members@[x]).0 < self.graph@.len(),
                    k <= members@.len(),
                    items@.len() == k,
                    forall|x: int| 0 <= x < k ==> items@[x] == entries[members@[x].0 as int].0,
                decreases members@.len() - k,
            {
                let vertex = members[k].0;
                items.push(self.graph[vertex].0);
                k = k + 1;
            }
            order.push(items);
            c = c + 1;
        }
        proof {
            assert forall|a: int, k: int|
                0 <= a < order@.len() && 0 <= k < order@[a]@.len() implies is_item(
                entries,
                #[trigger] order@[a]@[k],
            ) by {
                let v = comps[a]@[k].0 as int;
                assert(entries[v].0 == order@[a]@[k]);
            }
            assert forall|i: int| #![trigger program.entries()[i]] 0 <= i < program.entries().len() implies exists|a: int, k: int|
                0 <= a < order@.len() && 0 <= k < order@[a]@.len() && #[trigger] order@[a]@[k] == program.entries()[i].0 by {
                assert(in_component(comps, DefIndex(i as usize)));
                let (a, k) = choose|a: int, k: int| 0 <= a < comps.len() && 0 <= k < comps[a]@.len() && #[trigger] comps[a]@[k] == DefIndex(i as usize);
                assert(order@[a]@[k] == entries[i].0);
            }
            assert forall|c1: int, k1: int, c2: int, k2: int|
                0 <= c1 < order@.len() && 0 <= k1 < order@[c1]@.len() && 0 <= c2 < order@.len() && 0
                    <= k2 < order@[c2]@.len() && #[trigger] order@[c1]@[k1] == #[trigger] order@[c2]@[k2]
                    implies c1 == c2 && k1 == k2 by {
                let v1 = comps[c1]@[k1].0 as int;
                let v2 = comps[c2]@[k2].0 as int;
                if v1 != v2 {
                    if v1 < v2 {
                        assert(entries[v1].0 != entries[v2].0);
                    } else {
                        assert(entries[v2].0 != entries[v1].0);
                    }
                }
                assert(comps[c1]@[k1] == comps[c2]@[k2]);
            }
            assert forall|a: int| 0 <= a < order@.len() implies #[trigger] order@[a]@.len() > 0 by {
                assert(comps[a]@.len() > 0);
            }
        }
        // Construct the index-to-name map.
        let mut names: Vec<(ItemIndex, Vec<ItemName>)> = Vec::new();
        let mut i: usize = 0;
        while i < program.items().len()
            invariant
                entries == program.entries(),
                program.entries() == entries,
                i <= entries.len(),
                names@.len() == named(entries, i as nat).len(),
                forall|k: int|
                    0 <= k < names@.len() ==> (#[trigger] names@[k]).0 == named(entries, i as nat)[k].0
                        && names@[k].1@ == named(entries, i as nat)[k].1,
            decreases entries.len() - i,
        {
            let (index, item) = &program.items()[i];
            proof {
                assert(program.entries()[i as int] == entries[i as int]);
            }
            let declared = self.item_names(item);
            if declared.len() > 0 {
                names.push((*index, declared));
            }
            i = i + 1;
        }
        proof {
            assert forall|a: int, k: int, c1: int, k1: int, c2: int, k2: int|
                #![trigger self.graph@[a].1@[k], order@[c1]@[k1], order@[c2]@[k2]]
                0 <= a < self.graph@.len() && 0 <= k < self.graph@[a].1@.len() && 0 <= c1 < order@.len() && 0
                    <= k1 < order@[c1]@.len() && 0 <= c2 < order@.len() && 0 <= k2 < order@[c2]@.len()
                    && order@[c1]@[k1] == self.graph@[a].0 && order@[c2]@[k2] == self.graph@[a].1@[k]
                implies c2 <= c1 by {
                let va = comps[c1]@[k1].0 as int;
                assert(order@[c1]@[k1] == entries[va].0);
                if va != a {
                    if va < a {
                        assert(entries[va].0 != entries[a].0);
                    } else {
                        assert(entries[a].0 != entries[va].0);
                    }
                }
                let j = comps[c2]@[k2].0 as int;
                assert(order@[c2]@[k2] == entries[j].0);
                assert(self.graph@[j].0 == self.graph@[a].1@[k]);
                assert(adjacency@[a]@.contains(DefIndex(j as usize)));
                let m = choose|m: int| 0 <= m < adjacency@[a]@.len() && adjacency@[a]@[m] == DefIndex(j as usize);
                assert(comps[c1]@[k1] == DefIndex(a as usize));
                assert(comps[c2]@[k2] == adjacency@[a]@[m]);
            }
        }
        let d = Dependencies { graph: self.graph, order, names };
        assert(d.order@ == order@);
        assert(d.graph@ == self.graph@);
        d
    }

    /// The position of the item numbered `index` in the graph, if any.
    fn position(&self, index: ItemIndex) -> (p: Option<usize>)
        ensures
            match p {
                Some(x) => x < self.graph@.len() && self.graph@[x as int].0 == index,
                None => forall|j: int| 0 <= j < self.graph@.len() ==> self.graph@[j].0 != index,
            },
    {
        let mut i: usize = 0;
        while i < self.graph.len()
            invariant
                i <= self.graph@.len(),
                forall|j: int| 0 <= j < i ==> self.graph@[j].0 != index,
            decreases self.graph@.len() - i,
        {
            if self.graph[i].0 == index {
                return Some(i);
            }
            i = i + 1;
        }
        None
    }

    /// Set the dependencies of this item.
    fn for_item(&mut self, table: &NameTable, index: ItemIndex, item: &Item)
        requires
            table.wf(),
        ensures
            final(self).names == old(self).names,
            final(self).graph@.len() == old(self).graph@.len() + 1,
            forall|k: int| 0 <= k < old(self).graph@.len() ==> final(self).graph@[k] == old(self).graph@[k],
            final(self).graph@.last().0 == index,
            distinct(final(self).graph@.last().1@),
            final(self).graph@.last().1@.to_set() == item_list(
                *table,
                *item,
                pairs_map(old(self).names@, old(self).names@.len()),
            ).to_set(),
    {
        let ghost map = pairs_map(self.names@, self.names@.len());
        let mut depends: Vec<ItemIndex> = Vec::new();
        match item {
            Item::Bound { body } => {
                self.for_expression(table, &mut depends, body);
                assert(depends@ =~= item_list(*table, *item, map));
            },
            Item::Let { pattern, body } => {
                self.for_pattern(&mut depends, pattern);
                if let Some(expression) = body {
                    self.for_expression(table, &mut depends, expression);
                }
                assert(depends@ =~= item_list(*table, *item, map));
            },
        }
        let depends = distinct_of(&depends);
        self.graph.push((index, depends));
    }

    /// Add the items that the fields of a trait, or the bounds of a range,
    /// are.
    fn for_type(&self, within: &mut Vec<ItemIndex>, ty: &Type)
        ensures
            final(within)@ == old(within)@ + type_list(*ty, pairs_map(self.names@, self.names@.len())),
    {
        let ghost map = pairs_map(self.names@, self.names@.len());
        match ty {
            Type::Trait { values } => {
                let ghost start = within@;
                let mut i: usize = 0;
                while i < values.len()
                    invariant
                        map == pairs_map(self.names@, self.names@.len()),
                        i <= values@.len(),
                        within@ == start + fields_list(values@, i as nat, map),
                    decreases values@.len() - i,
                {
                    match index_of(&self.names, values[i]) {
                        Some(index) => {
                            within.push(index);
                        },
                        None => {},
                    }
                    i = i + 1;
                }
            },
            Type::Range { clusivity: _, lower, upper } => {
                within.push(*lower);
                within.push(*upper);
            },
            Type::Number | Type::Invalid(_) => {},
        }
    }

    /// Add the items that an expression refers to.
    fn for_expression(&self, table: &NameTable, within: &mut Vec<ItemIndex>, expression: &Expression)
        requires
            table.wf(),
        ensures
            final(within)@ == old(within)@ + expr_list(
                *table,
                *expression,
                pairs_map(self.names@, self.names@.len()),
            ),
        decreases *expression, 0nat,
    {
        let ghost map = pairs_map(self.names@, self.names@.len());
        let ghost start = within@;
        self.for_type(within, &expression.data);
        let ghost after_type = within@;
        match &expression.node {
            ExpressionNode::Entry(entry) => {
                let mut i: usize = 0;
                while i < entry.items.len()
                    invariant
                        i <= entry.items@.len(),
                        within@ == after_type + entry.items@.take(i as int),
                    decreases entry.items@.len() - i,
                {
                    within.push(entry.items[i]);
                    proof {
                        assert(entry.items@.take(i + 1) =~= entry.items@.take(i as int).push(entry.items@[i as int]));
                    }
                    i = i + 1;
                }
                assert(entry.items@.take(entry.items@.len() as int) =~= entry.items@);
            },
            ExpressionNode::Let { pattern, body } => {
                self.for_pattern(within, pattern);
                if let Some(body) = body {
                    self.for_expression(table, within, body);
                }
            },
            ExpressionNode::Block(expressions, last) => {
                self.for_expressions(table, within, expressions);
                self.for_expression(table, within, last);
            },
            ExpressionNode::Path(inner, _field) => {
                self.for_expression(table, within, inner);
            },
            ExpressionNode::Coerce(inner) => {
                self.for_expression(table, within, inner);
            },
            ExpressionNode::Item(item) => {
                within.push(*item);
            },
            ExpressionNode::Name(name) => {
                if let Some(item) = self.item_name(table, name.declarable()) {
                    match index_of(&self.names, item) {
                        Some(index) => {
                            within.push(index);
                        },
                        None => {},
                    }
                }
            },
            ExpressionNode::Number(_) | ExpressionNode::String(_) | ExpressionNode::Invalid(_) => {},
        }
        assert(within@ =~= start + expr_list(*table, *expression, map));
    }

    /// Add the items that some expressions refer to.
    fn for_expressions(&self, table: &NameTable, within: &mut Vec<ItemIndex>, expressions: &Vec<Expression>)
        requires
            table.wf(),
        ensures
            final(within)@ == old(within)@ + exprs_list(
                *table,
                expressions@,
                expressions@.len(),
                pairs_map(self.names@, self.names@.len()),
            ),
        decreases expressions@, 0nat,
    {
        let ghost map = pairs_map(self.names@, self.names@.len());
        let ghost start = within@;
        let mut i: usize = 0;
        while i < expressions.len()
            invariant
                table.wf(),
                map == pairs_map(self.names@, self.names@.len()),
                i <= expressions@.len(),
                within@ == start + exprs_list(*table, expressions@, i as nat, map),
            decreases expressions@.len() - i,
        {
            self.for_expression(table, within, &expressions[i]);
            i = i + 1;
        }
    }

    /// Add the items that the type of a pattern refers to.
    fn for_pattern<N>(&self, within: &mut Vec<ItemIndex>, pattern: &Pattern<N>)
        ensures
            final(within)@ == old(within)@ + pattern_list(*pattern, pairs_map(self.names@, self.names@.len())),
    {
        self.for_type(within, &pattern.data);
        match &pattern.node {
            PatternNode::Name(_) | PatternNode::Wildcard | PatternNode::Invalid(_) => {},
        }
    }

    /// The innermost item name that `name` is, or is declared within.
    fn item_name(&self, table: &NameTable, name: DeclarableName) -> (r: Option<ItemName>)
        requires
            table.wf(),
        ensures
            r == enclosing_item(*table, name),
    {
        let mut current = name;
        loop
            invariant
                table.wf(),
                enclosing_item(*table, name) == enclosing_item(*table, current),
            decreases current.index(),
        {
            if let DeclarableName::Item(n) = current {
                return Some(n);
            }
            if table.lookup(current).is_none() {
                return None;
            }
            match table.parent(current) {
                Some(parent) => {
                    current = parent;
                },
                None => {
                    return None;
                },
            }
        }
    }
}

} // verus!
