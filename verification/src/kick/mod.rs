//! This module is responsible for doing kind inference and -checking. Just like
//! values and variables have types, types and type definitions have kinds. The
//! kind language is significantly simpler than the type language, and as such
//! this module is much simpler than the type checker.

pub mod kinds;
pub mod names;
pub mod pretty;
pub mod bind;
pub mod infer;
pub mod unify;

use std::collections::HashMap;
use vstd::prelude::*;

use self::infer::{inferred, lemma_prefix_squeeze, wilds};
use self::kinds::{
    agree, apply, finalize, kind_of_type, lemma_agree_apply, lemma_apply_extend, lemma_submap_refl,
    lemma_submap_trans, lemma_vars_below_mono, ranked, resolved, vars_below, FinalKind, Kind,
    UniVar,
};
use self::tree::{
    comps_names, comps_size, comps_view, components_ok, defs_names, lemma_comps_prefix,
    lemma_comps_step, lemma_concat_contains, lemma_defs_names_step, lemma_defs_prefix,
    lemma_defs_size_all, lemma_type_ok_mono, pat_names, pats_size, type_ok, types_size, Pat, PatNode,
    Type, TypeDef, TypeNode,
};
use self::names::Namer;
use self::pretty::{lemma_bounded_set_len, names_below, subst_below};
use crate::messages::Message;

verus! {

broadcast use vstd::std_specs::hash::group_hash_axioms;

/// The state of kind inference: the kinds bound to names so far, the
/// substitution solving the unification variables, and the messages.
pub struct Kinder {
    context: HashMap<usize, Kind>,
    subst: HashMap<usize, Kind>,
    namer: Namer,
    counter: usize,
    messages: Vec<Message>,
    /// A ranking witnessing that the substitution is acyclic.
    rank: Ghost<Map<usize, nat>>,
}

impl Kinder {
    pub closed spec fn wf(self) -> bool {
        &&& ranked(self.subst@, self.rank@)
        &&& self.subst@.dom().finite()
        &&& subst_below(self.subst@, self.counter as nat)
        &&& self.namer.wf()
        &&& names_below(self.namer.named(), self.counter as nat)
        &&& forall|name: usize|
            #[trigger] self.context@.contains_key(name) ==> kinds::vars_below(
                self.context@[name],
                self.counter as nat,
            )
    }

    /// The substitution found so far.
    pub closed spec fn substitution(self) -> Map<usize, Kind> {
        self.subst@
    }

    /// A ranking witnessing that the substitution is acyclic.
    pub closed spec fn ranking(self) -> Map<usize, nat> {
        self.rank@
    }

    /// The kinds bound to names so far.
    pub closed spec fn context(self) -> Map<usize, Kind> {
        self.context@
    }

    /// The messages reported so far.
    pub closed spec fn messages(self) -> Seq<Message> {
        self.messages@
    }

    /// How many unification variables have been made.
    pub closed spec fn counter(self) -> nat {
        self.counter as nat
    }

    /// At most as many variables are bound as have been made.
    proof fn lemma_unbound(self)
        requires
            self.wf(),
        ensures
            self.subst@.dom().len() <= self.counter,
    {
        assert forall|x: usize| #[trigger] self.subst@.dom().contains(x) implies x < self.counter by {
            assert(self.subst@.contains_key(x));
        }
        lemma_bounded_set_len(self.subst@.dom(), self.counter as nat);
    }

    pub fn new() -> (kinder: Self)
        ensures
            kinder.wf(),
            kinder.substitution() == Map::<usize, Kind>::empty(),
            kinder.context() == Map::<usize, Kind>::empty(),
            kinder.messages().len() == 0,
            kinder.counter() == 0,
    {
        let kinder = Self {
            context: HashMap::new(),
            subst: HashMap::new(),
            namer: Namer::new(),
            counter: 0,
            messages: Vec::new(),
            rank: Ghost(Map::empty()),
        };
        proof {
            assert(kinder.subst@.dom() =~= Set::<usize>::empty());
        }
        kinder
    }
}

proof fn lemma_prefix_concat<A>(c: Seq<A>, a: Seq<A>, b: Seq<A>)
    requires
        a.is_prefix_of(b),
    ensures
        (c + a).is_prefix_of(c + b),
{
    assert((c + b).subrange(0, (c + a).len() as int) =~= c + a);
}

/// Under the substitution `subst`, the kind of a definition agrees with the
/// kind inferred for its body: the kind bound to its pattern, where that is a
/// plain name, and the kind its annotation stands for, where that holds no
/// wildcard. The names involved are bound in `context`. A body that is a
/// wildcard or invalid only gets a fresh variable, and is left aside.
pub open spec fn def_agrees(
    def: TypeDef,
    context: Map<usize, Kind>,
    subst: Map<usize, Kind>,
    rank: Map<usize, nat>,
) -> bool {
    let body = apply(subst, rank, inferred(def.bind, context, 0));
    let typed_body = !(def.bind.node is Wildcard) && !(def.bind.node is Invalid);
    &&& (def.bind.node matches TypeNode::Name(n) ==> context.contains_key(n))
    &&& (typed_body && wilds(def.anno) == 0) ==> agree(
        apply(subst, rank, kind_of_type(def.anno, 0).0),
        body,
    )
    &&& match def.pat.node {
        PatNode::Name(x) => {
            &&& context.contains_key(x)
            &&& typed_body ==> agree(apply(subst, rank, context[x]), body)
        },
        _ => true,
    }
}

/// The kind an annotation without wildcards stands for does not depend on
/// where the numbering of wildcards starts.
proof fn lemma_kind_of_type_wild_free(ty: Type, n: nat)
    requires
        wilds(ty) == 0,
    ensures
        kind_of_type(ty, n).0 == kind_of_type(ty, 0).0,
        kind_of_type(ty, n).1 == n,
    decreases ty,
{
    match ty.node {
        TypeNode::Fun(t, u) | TypeNode::Product(t, u) => {
            lemma_kind_of_type_wild_free(*t, n);
            lemma_kind_of_type_wild_free(*t, 0);
            lemma_kind_of_type_wild_free(*u, n);
            lemma_kind_of_type_wild_free(*u, 0);
        },
        _ => {},
    }
}

/// Every definition of `comps` agrees with its body, as `def_agrees` says.
pub open spec fn comps_agree(
    comps: Seq<Seq<TypeDef>>,
    context: Map<usize, Kind>,
    subst: Map<usize, Kind>,
    rank: Map<usize, nat>,
) -> bool {
    forall|k: int, l: int|
        0 <= k < comps.len() && 0 <= l < comps[k].len() ==> #[trigger] def_agrees(
            comps[k][l],
            context,
            subst,
            rank,
        )
}

/// The kind bound for the pattern of `def` is `kind`, where that pattern is a
/// plain name.
spec fn pat_kind_ok(def: TypeDef, kind: Kind, context: Map<usize, Kind>) -> bool {
    match def.pat.node {
        PatNode::Name(x) => context.contains_key(x) && kind == context[x],
        _ => true,
    }
}

/// Kinds in agreement under a substitution stay so under an extension of it.
proof fn lemma_agree_extend(
    x: Kind,
    y: Kind,
    s1: Map<usize, Kind>,
    r1: Map<usize, nat>,
    s2: Map<usize, Kind>,
    r2: Map<usize, nat>,
)
    requires
        ranked(s1, r1),
        ranked(s2, r2),
        s1.submap_of(s2),
        agree(apply(s1, r1, x), apply(s1, r1, y)),
    ensures
        agree(apply(s2, r2, x), apply(s2, r2, y)),
{
    lemma_agree_apply(s2, r2, apply(s1, r1, x), apply(s1, r1, y));
    lemma_apply_extend(s1, r1, s2, r2, x);
    lemma_apply_extend(s1, r1, s2, r2, y);
}

proof fn lemma_def_agrees_extend(
    def: TypeDef,
    c1: Map<usize, Kind>,
    s1: Map<usize, Kind>,
    r1: Map<usize, nat>,
    c2: Map<usize, Kind>,
    s2: Map<usize, Kind>,
    r2: Map<usize, nat>,
)
    requires
        ranked(s1, r1),
        ranked(s2, r2),
        s1.submap_of(s2),
        c1.submap_of(c2),
        def_agrees(def, c1, s1, r1),
    ensures
        def_agrees(def, c2, s2, r2),
{
    if let TypeNode::Name(n) = def.bind.node {
        assert(c1.dom().contains(n) && c2.dom().contains(n));
        assert(c2[n] == c1[n]);
    }
    let typed_body = !(def.bind.node is Wildcard) && !(def.bind.node is Invalid);
    if typed_body {
        assert(inferred(def.bind, c2, 0) == inferred(def.bind, c1, 0));
        if wilds(def.anno) == 0 {
            lemma_agree_extend(
                kind_of_type(def.anno, 0).0,
                inferred(def.bind, c1, 0),
                s1,
                r1,
                s2,
                r2,
            );
        }
    }
    match def.pat.node {
        PatNode::Name(x) => {
            assert(c1.dom().contains(x) && c2.dom().contains(x));
            assert(c2[x] == c1[x]);
            if typed_body {
                lemma_agree_extend(c1[x], inferred(def.bind, c1, 0), s1, r1, s2, r2);
            }
        },
        _ => {},
    }
}

proof fn lemma_comps_agree_extend(
    comps: Seq<Seq<TypeDef>>,
    c1: Map<usize, Kind>,
    s1: Map<usize, Kind>,
    r1: Map<usize, nat>,
    c2: Map<usize, Kind>,
    s2: Map<usize, Kind>,
    r2: Map<usize, nat>,
)
    requires
        ranked(s1, r1),
        ranked(s2, r2),
        s1.submap_of(s2),
        c1.submap_of(c2),
        comps_agree(comps, c1, s1, r1),
    ensures
        comps_agree(comps, c2, s2, r2),
{
    assert forall|k: int, l: int| 0 <= k < comps.len() && 0 <= l < comps[k].len() implies #[trigger] def_agrees(
        comps[k][l],
        c2,
        s2,
        r2,
    ) by {
        lemma_def_agrees_extend(comps[k][l], c1, s1, r1, c2, s2, r2);
    }
}

impl Kinder {
    /// Infer the kinds of every type definition, one component of mutually
    /// dependent definitions at a time: first bind the names of all the
    /// patterns of a component, then infer the kind of each definition and
    /// unify it with the kind of its pattern and of its annotation.
    pub fn infer_decls(&mut self, components: &Vec<Vec<TypeDef>>)
        requires
            old(self).wf(),
            components_ok(comps_view(components@)),
            forall|k: int|
                0 <= k < comps_names(comps_view(components@)).len() ==> !old(
                    self,
                ).context().contains_key(#[trigger] comps_names(comps_view(components@))[k]),
            old(self).counter() + comps_size(comps_view(components@)) <= usize::MAX,
        ensures
            final(self).wf(),
            forall|name: usize|
                #[trigger] final(self).context().contains_key(name) <==> old(
                    self,
                ).context().contains_key(name) || comps_names(comps_view(components@)).contains(
                    name,
                ),
            old(self).messages().is_prefix_of(final(self).messages()),
            final(self).messages() == old(self).messages() ==> comps_agree(
                comps_view(components@),
                final(self).context(),
                final(self).substitution(),
                final(self).ranking(),
            ),
    {
        let ghost comps = comps_view(components@);
        let ghost ctx0 = self.context@;
        let ghost c0 = self.counter as nat;
        let ghost msgs0 = self.messages@;
        proof {
            assert(comps.take(0) =~= Seq::<Seq<TypeDef>>::empty());
            lemma_comps_prefix(comps, comps.len() as int);
            assert(msgs0.is_prefix_of(self.messages@));
        }
        let mut i: usize = 0;
        while i < components.len()
            invariant
                0 <= i <= components.len(),
                comps == comps_view(components@),
                components_ok(comps),
                forall|k: int|
                    0 <= k < comps_names(comps).len() ==> !ctx0.contains_key(
                        #[trigger] comps_names(comps)[k],
                    ),
                c0 + comps_size(comps) <= usize::MAX,
                self.wf(),
                forall|name: usize|
                    #[trigger] self.context@.contains_key(name) <==> ctx0.contains_key(name)
                        || comps_names(comps.take(i as int)).contains(name),
                self.counter <= c0 + comps_size(comps.take(i as int)),
                msgs0.is_prefix_of(self.messages@),
                self.messages@ == msgs0 ==> comps_agree(
                    comps.take(i as int),
                    self.context@,
                    self.subst@,
                    self.rank@,
                ),
            decreases components.len() - i,
        {
            let component = &components[i];
            let ghost defs = comps[i as int];
            let ghost before = comps_names(comps.take(i as int));
            let ghost c_i = c0 + comps_size(comps.take(i as int));
            proof {
                assert(defs == component@);
                lemma_comps_step(comps, i as int);
                lemma_comps_prefix(comps, i + 1);
                assert(defs.take(0) =~= Seq::<TypeDef>::empty());
            }
            let mut pat_kinds: Vec<Kind> = Vec::new();
            let mut j: usize = 0;
            while j < component.len()
                invariant
                    0 <= j <= component.len(),
                    defs == component@,
                    pat_kinds@.len() == j,
                    self.wf(),
                    forall|k: int| 0 <= k < j ==> vars_below(#[trigger] pat_kinds@[k], self.counter as nat),
                    forall|name: usize|
                        #[trigger] self.context@.contains_key(name) <==> ctx0.contains_key(name)
                            || before.contains(name) || defs_names(defs.take(j as int)).contains(name),
                    self.counter <= c_i + pats_size(defs.take(j as int)),
                    msgs0.is_prefix_of(self.messages@),
                    self.messages@ == msgs0 ==> comps_agree(
                        comps.take(i as int),
                        self.context@,
                        self.subst@,
                        self.rank@,
                    ),
                    forall|l: int|
                        0 <= l < j ==> pat_kind_ok(defs[l], #[trigger] pat_kinds@[l], self.context@),
                    // what stays fixed
                    comps == comps_view(components@),
                    before == comps_names(comps.take(i as int)),
                    c_i == c0 + comps_size(comps.take(i as int)),
                    comps_names(comps.take(i + 1)) == before + defs_names(defs),
                    comps_names(comps.take(i + 1)).is_prefix_of(comps_names(comps)),
                    comps_size(comps.take(i + 1)) == comps_size(comps.take(i as int)) + pats_size(defs) + types_size(defs),
                    comps_size(comps.take(i + 1)) <= comps_size(comps),
                    comps_names(comps).no_duplicates(),
                    forall|k: int|
                        0 <= k < comps_names(comps).len() ==> !ctx0.contains_key(
                            #[trigger] comps_names(comps)[k],
                        ),
                    c0 + comps_size(comps) <= usize::MAX,
                    i < components.len(),
                decreases component.len() - j,
            {
                let ghost names_j = pat_names(component[j as int].pat);
                let ghost prefix = before + defs_names(defs.take(j as int));
                proof {
                    lemma_defs_names_step(defs, j as int);
                    lemma_defs_prefix(defs, j + 1);
                    // `prefix + names_j` starts the names of all components,
                    // which are distinct.
                    let all = comps_names(comps);
                    assert(prefix + names_j =~= before + defs_names(defs.take(j + 1)));
                    lemma_prefix_concat(before, defs_names(defs.take(j + 1)), defs_names(defs));
                    assert((prefix + names_j).is_prefix_of(all));
                    assert forall|x: int| 0 <= x < prefix.len() + names_j.len() implies (prefix
                        + names_j)[x] == #[trigger] all[x] by {
                        assert(all.subrange(0, (prefix + names_j).len() as int)[x] == all[x]);
                    }
                    assert(names_j.no_duplicates()) by {
                        assert forall|x: int, y: int| 0 <= x < y < names_j.len() implies names_j[x]
                            != names_j[y] by {
                            assert((prefix + names_j)[prefix.len() + x] == names_j[x]);
                            assert((prefix + names_j)[prefix.len() + y] == names_j[y]);
                            assert(names_j[x] == all[prefix.len() + x]);
                            assert(names_j[y] == all[prefix.len() + y]);
                        }
                    }
                    assert forall|k: int| 0 <= k < names_j.len() implies !self.context@.contains_key(
                        #[trigger] names_j[k],
                    ) by {
                        let name = names_j[k];
                        assert((prefix + names_j)[prefix.len() + k] == names_j[k]);
                        assert(name == all[prefix.len() + k]);
                        assert(!ctx0.contains_key(name));
                        if prefix.contains(name) {
                            let m = choose|m: int| 0 <= m < prefix.len() && prefix[m] == name;
                            assert((prefix + names_j)[m] == name);
                            assert(all[m] == name);
                        }
                        if before.contains(name) {
                            let m = choose|m: int| 0 <= m < before.len() && before[m] == name;
                            assert(prefix[m] == name);
                        }
                        if defs_names(defs.take(j as int)).contains(name) {
                            let m = choose|m: int|
                                0 <= m < defs_names(defs.take(j as int)).len() && defs_names(
                                    defs.take(j as int),
                                )[m] == name;
                            assert(prefix[before.len() + m] == name);
                        }
                    }
                }
                let ghost n_before = self.counter as nat;
                let ghost ctx_b = self.context@;
                let ghost s_b = self.subst@;
                let ghost r_b = self.rank@;
                let ghost m_b = self.messages@;
                let ghost kinds_b = pat_kinds@;
                let kind = self.bind(&component[j].pat);
                pat_kinds.push(kind);
                proof {
                    if self.messages@ == msgs0 {
                        lemma_prefix_squeeze(msgs0, m_b, self.messages@);
                        lemma_comps_agree_extend(
                            comps.take(i as int),
                            ctx_b,
                            s_b,
                            r_b,
                            self.context@,
                            self.subst@,
                            self.rank@,
                        );
                    }
                    assert forall|l: int| 0 <= l < j + 1 implies pat_kind_ok(
                        defs[l],
                        #[trigger] pat_kinds@[l],
                        self.context@,
                    ) by {
                        if l < j {
                            assert(pat_kinds@[l] == kinds_b[l]);
                            assert(pat_kind_ok(defs[l], kinds_b[l], ctx_b));
                            if let PatNode::Name(x) = defs[l].pat.node {
                                assert(ctx_b.dom().contains(x) && self.context@.dom().contains(x));
                                assert(self.context@[x] == ctx_b[x]);
                            }
                        }
                    }
                    assert forall|k: int| 0 <= k < j + 1 implies vars_below(
                        #[trigger] pat_kinds@[k],
                        self.counter as nat,
                    ) by {
                        if k < j {
                            lemma_vars_below_mono(pat_kinds@[k], n_before, self.counter as nat);
                        }
                    }
                    assert forall|name: usize|
                        #[trigger] self.context@.contains_key(name) <==> ctx0.contains_key(name)
                            || before.contains(name) || defs_names(defs.take(j + 1)).contains(
                            name,
                        ) by {
                        lemma_concat_contains(defs_names(defs.take(j as int)), names_j, name);
                    }
                }
                j += 1;
            }
            let mut j: usize = 0;
            proof {
                lemma_defs_size_all(defs);
                assert(defs.take(0) =~= Seq::<TypeDef>::empty());
                assert forall|name: usize|
                    #[trigger] self.context@.contains_key(name) <==> ctx0.contains_key(name)
                        || comps_names(comps.take(i + 1)).contains(name) by {
                    lemma_concat_contains(before, defs_names(defs), name);
                }
            }
            let ghost ctx_i = self.context@;
            while j < component.len()
                invariant
                    0 <= j <= component.len(),
                    defs == component@,
                    pat_kinds@.len() == component.len(),
                    self.context@ == ctx_i,
                    forall|l: int|
                        0 <= l < pat_kinds@.len() ==> pat_kind_ok(
                            defs[l],
                            #[trigger] pat_kinds@[l],
                            ctx_i,
                        ),
                    self.messages@ == msgs0 ==> comps_agree(
                        comps.take(i as int),
                        ctx_i,
                        self.subst@,
                        self.rank@,
                    ),
                    self.messages@ == msgs0 ==> forall|l: int|
                        0 <= l < j ==> #[trigger] def_agrees(defs[l], ctx_i, self.subst@, self.rank@),
                    self.wf(),
                    forall|k: int|
                        0 <= k < pat_kinds@.len() ==> vars_below(
                            #[trigger] pat_kinds@[k],
                            self.counter as nat,
                        ),
                    forall|name: usize|
                        #[trigger] self.context@.contains_key(name) <==> ctx0.contains_key(name)
                            || comps_names(comps.take(i + 1)).contains(name),
                    self.counter <= c_i + pats_size(defs) + types_size(defs.take(j as int)),
                    msgs0.is_prefix_of(self.messages@),
                    comps == comps_view(components@),
                    components_ok(comps),
                    c_i == c0 + comps_size(comps.take(i as int)),
                    comps_size(comps.take(i + 1)) == comps_size(comps.take(i as int)) + pats_size(defs) + types_size(defs),
                    comps_size(comps.take(i + 1)) <= comps_size(comps),
                    c0 + comps_size(comps) <= usize::MAX,
                    i < components.len(),
                    defs == comps[i as int],
                decreases component.len() - j,
            {
                let def = &component[j];
                proof {
                    lemma_defs_names_step(defs, j as int);
                    lemma_defs_prefix(defs, j + 1);
                    assert(type_ok(comps[i as int][j as int].bind, comps_names(comps.take(i + 1)).to_set()));
                    assert(comps_names(comps.take(i + 1)).to_set().subset_of(self.context@.dom()));
                    lemma_type_ok_mono(def.bind, comps_names(comps.take(i + 1)).to_set(), self.context@.dom());
                }
                let ghost s0 = self.subst@;
                let ghost r0 = self.rank@;
                let ghost m0 = self.messages@;
                let ghost n0 = self.counter as nat;
                let body_kind = self.infer(&def.bind);
                let ghost n1 = self.counter as nat;
                let ghost s1 = self.subst@;
                let ghost m_inf = self.messages@;
                let anno = self.kind_from_type(&def.anno);
                let ghost anno_kind = anno;
                proof {
                    lemma_vars_below_mono(body_kind, n1, self.counter as nat);
                    assert(vars_below(pat_kinds@[j as int], self.counter as nat));
                }
                let ghost m1 = self.messages@;
                let pat_kind = pat_kinds[j].clone();
                self.unify(def.pat.span, pat_kind, body_kind.clone());
                let ghost m2 = self.messages@;
                let ghost s3 = self.subst@;
                let ghost r3 = self.rank@;
                self.unify(def.anno.span, anno, body_kind);
                proof {
                    assert(msgs0.is_prefix_of(m_inf));
                    assert(m_inf.is_prefix_of(m1));
                    assert(msgs0.is_prefix_of(m1));
                    assert(msgs0.is_prefix_of(m2));
                    assert(msgs0.is_prefix_of(self.messages@));
                    if self.messages@ == msgs0 {
                        lemma_prefix_squeeze(msgs0, m2, self.messages@);
                        lemma_prefix_squeeze(msgs0, m1, m2);
                        lemma_prefix_squeeze(msgs0, m_inf, m1);
                        lemma_prefix_squeeze(msgs0, m0, m_inf);
                        lemma_submap_trans(s0, s1, s3);
                        lemma_submap_trans(s0, s3, self.subst@);
                        lemma_submap_refl(ctx_i);
                        lemma_comps_agree_extend(
                            comps.take(i as int),
                            ctx_i,
                            s0,
                            r0,
                            ctx_i,
                            self.subst@,
                            self.rank@,
                        );
                        assert forall|l: int| 0 <= l < j + 1 implies #[trigger] def_agrees(
                            defs[l],
                            ctx_i,
                            self.subst@,
                            self.rank@,
                        ) by {
                            if l < j {
                                lemma_def_agrees_extend(
                                    defs[l],
                                    ctx_i,
                                    s0,
                                    r0,
                                    ctx_i,
                                    self.subst@,
                                    self.rank@,
                                );
                            } else {
                                assert(pat_kind_ok(defs[l], pat_kinds@[l], ctx_i));
                                if let TypeNode::Name(n) = def.bind.node {
                                    assert(type_ok(def.bind, ctx_i.dom()));
                                }
                                if !(def.bind.node is Wildcard) && !(def.bind.node is Invalid) {
                                    assert(body_kind == inferred(def.bind, ctx_i, 0));
                                    if wilds(def.anno) == 0 {
                                        lemma_kind_of_type_wild_free(def.anno, n1);
                                        assert(anno_kind == kind_of_type(def.anno, 0).0);
                                    }
                                    if let PatNode::Name(x) = def.pat.node {
                                        lemma_agree_extend(
                                            pat_kind,
                                            body_kind,
                                            s3,
                                            r3,
                                            self.subst@,
                                            self.rank@,
                                        );
                                    }
                                }
                            }
                        }
                    }
                    assert forall|k: int|
                        0 <= k < pat_kinds@.len() implies vars_below(
                            #[trigger] pat_kinds@[k],
                            self.counter as nat,
                        ) by {
                        lemma_vars_below_mono(pat_kinds@[k], n1, self.counter as nat);
                    }
                }
                j += 1;
            }
            proof {
                lemma_defs_size_all(defs);
                if self.messages@ == msgs0 {
                    assert forall|k: int, l: int|
                        0 <= k < comps.take(i + 1).len() && 0 <= l < comps.take(i + 1)[k].len()
                            implies #[trigger] def_agrees(
                        comps.take(i + 1)[k][l],
                        self.context@,
                        self.subst@,
                        self.rank@,
                    ) by {
                        if k < i {
                            assert(comps.take(i + 1)[k] == comps.take(i as int)[k]);
                        } else {
                            assert(comps.take(i + 1)[k] == defs);
                        }
                    }
                }
            }
            i += 1;
        }
        proof {
            assert(comps.take(components.len() as int) =~= comps);
        }
    }
}

/// Append the names bound by `pat` to `names`.
fn collect_pat_names(pat: &Pat, names: &mut Vec<usize>)
    ensures
        final(names)@ == old(names)@ + pat_names(*pat),
    decreases pat,
{
    match &pat.node {
        PatNode::Name(name) => {
            names.push(*name);
            assert(pat_names(*pat) =~= seq![*name]);
        },
        PatNode::Tuple(a, b) => {
            collect_pat_names(a, names);
            collect_pat_names(b, names);
            assert(final(names)@ =~= old(names)@ + pat_names(*pat));
        },
        PatNode::Anno(a, _) => {
            collect_pat_names(a, names);
        },
        PatNode::Wildcard | PatNode::Invalid => {
            assert(pat_names(*pat) =~= Seq::<usize>::empty());
            assert(names@ =~= old(names)@ + pat_names(*pat));
        },
    }
}

/// The names bound by every type definition, in order.
fn collect_names(components: &Vec<Vec<TypeDef>>) -> (names: Vec<usize>)
    ensures
        names@ == comps_names(comps_view(components@)),
{
    let ghost comps = comps_view(components@);
    let mut names: Vec<usize> = Vec::new();
    let mut i: usize = 0;
    assert(comps.take(0) =~= Seq::<Seq<TypeDef>>::empty());
    while i < components.len()
        invariant
            0 <= i <= components.len(),
            comps == comps_view(components@),
            names@ == comps_names(comps.take(i as int)),
        decreases components.len() - i,
    {
        let component = &components[i];
        let ghost defs = comps[i as int];
        let mut j: usize = 0;
        proof {
            lemma_comps_step(comps, i as int);
            assert(defs == component@);
            assert(defs.take(0) =~= Seq::<TypeDef>::empty());
            assert(names@ =~= comps_names(comps.take(i as int)) + defs_names(defs.take(0)));
        }
        while j < component.len()
            invariant
                0 <= j <= component.len(),
                defs == component@,
                names@ == comps_names(comps.take(i as int)) + defs_names(defs.take(j as int)),
            decreases component.len() - j,
        {
            proof {
                lemma_defs_names_step(defs, j as int);
            }
            collect_pat_names(&component[j].pat, &mut names);
            assert(names@ =~= comps_names(comps.take(i as int)) + defs_names(defs.take(j + 1)));
            j += 1;
        }
        proof {
            lemma_defs_size_all(defs);
        }
        i += 1;
    }
    assert(comps.take(components.len() as int) =~= comps);
    names
}

/// The kinds found for every named type.
pub struct Kinds {
    pub kinds: HashMap<usize, FinalKind>,
}

/// Kind checking `comps` ends with the substitution `subst` (ranked by
/// `rank`) and the kinds `context` of the defined names, and gives `kinds`:
/// some exactly when every defined name has a fully known kind, and then
/// those final kinds. Where no message was reported, the kind of each
/// definition agrees with that of its body.
pub open spec fn kindck_outcome(
    kinds: Option<Kinds>,
    messages: Seq<Message>,
    comps: Seq<Seq<TypeDef>>,
    subst: Map<usize, Kind>,
    rank: Map<usize, nat>,
    context: Map<usize, Kind>,
) -> bool {
    &&& ranked(subst, rank)
    &&& messages.len() == 0 ==> comps_agree(comps, context, subst, rank)
    &&& forall|name: usize| #[trigger]
        context.contains_key(name) <==> comps_names(comps).contains(name)
    &&& (kinds is Some <==> forall|name: usize| #[trigger]
        context.contains_key(name) ==> resolved(subst, rank, context[name]))
    &&& kinds matches Some(kinds) ==> forall|name: usize| #[trigger]
        kinds.kinds@.contains_key(name) <==> context.contains_key(name)
    &&& kinds matches Some(kinds) ==> forall|name: usize| #[trigger]
        context.contains_key(name) ==> kinds.kinds@[name] == finalize(subst, rank, context[name])
}

/// Kind check type definitions given in components of mutually dependent
/// definitions, in dependency order. The kinds are returned when every
/// defined name gets a fully known kind, along with the messages reported.
pub fn kindck(components: &Vec<Vec<TypeDef>>) -> (r: (Option<Kinds>, Vec<Message>))
    requires
        components_ok(comps_view(components@)),
        comps_size(comps_view(components@)) <= usize::MAX,
    ensures
        exists|subst: Map<usize, Kind>, rank: Map<usize, nat>, context: Map<usize, Kind>|
            #[trigger] kindck_outcome(r.0, r.1@, comps_view(components@), subst, rank, context),
{
    let mut kinder = Kinder::new();
    proof {
        assert forall|k: int|
            0 <= k < comps_names(comps_view(components@)).len() implies !kinder.context().contains_key(
            #[trigger] comps_names(comps_view(components@))[k],
        ) by {}
    }
    let ghost m_start = kinder.messages();
    kinder.infer_decls(components);
    proof {
        if kinder.messages().len() == 0 {
            assert(kinder.messages() =~= m_start);
        }
    }
    let names = collect_names(components);
    let mut kinds: HashMap<usize, FinalKind> = HashMap::new();
    let mut all_resolved = true;
    let mut i: usize = 0;
    let ghost s = kinder.substitution();
    let ghost rank = kinder.ranking();
    let ghost ctx = kinder.context();
    while i < names.len()
        invariant
            0 <= i <= names.len(),
            kinder.wf(),
            s == kinder.substitution(),
            rank == kinder.ranking(),
            ctx == kinder.context(),
            forall|name: usize| #[trigger] ctx.contains_key(name) <==> names@.contains(name),
            all_resolved <==> forall|k: int|
                0 <= k < i ==> resolved(s, rank, #[trigger] ctx[names@[k]]),
            all_resolved ==> forall|name: usize|
                #[trigger] kinds@.contains_key(name) <==> names@.take(i as int).contains(name),
            all_resolved ==> forall|k: int|
                0 <= k < i ==> kinds@[#[trigger] names@[k]] == finalize(s, rank, ctx[names@[k]]),
        decreases names.len() - i,
    {
        let name = names[i];
        assert(names@.contains(name));
        let kind = kinder.context.get(&name).unwrap();
        let ghost kinds0 = kinds@;
        let ghost was_resolved = all_resolved;
        if kinder.is_resolved(kind) {
            let final_kind = kinder.substitute(kind);
            kinds.insert(name, final_kind);
            proof {
                assert(kinds@ == kinds0.insert(name, final_kind));
                if was_resolved {
                    assert forall|n: usize| #[trigger] kinds@.contains_key(n) <==> names@.take(
                        i + 1,
                    ).contains(n) by {
                        lemma_concat_contains(names@.take(i as int), seq![name], n);
                        assert(names@.take(i + 1) =~= names@.take(i as int) + seq![name]);
                        assert(seq![name].contains(n) <==> n == name) by {
                            if n == name {
                                assert(seq![name][0] == n);
                            }
                        }
                    }
                    assert forall|k: int| 0 <= k < i + 1 implies kinds@[#[trigger] names@[k]]
                        == finalize(s, rank, ctx[names@[k]]) by {
                        if names@[k] != name {
                            assert(k < i);
                            assert(names@.take(i as int)[k] == names@[k]);
                        }
                    }
                }
            }
        } else {
            all_resolved = false;
        }
        i += 1;
    }
    let messages = kinder.take_messages();
    proof {
        assert forall|name: usize| #[trigger] ctx.contains_key(name) && all_resolved implies resolved(
            s,
            rank,
            ctx[name],
        ) by {
            {
                let k = choose|k: int| 0 <= k < names@.len() && names@[k] == name;
                assert(resolved(s, rank, ctx[names@[k]]));
            }
        }
        assert(names@.take(names@.len() as int) =~= names@);
        if !all_resolved {
            let k = choose|k: int| 0 <= k < names@.len() && !resolved(s, rank, ctx[names@[k]]);
            assert(ctx.contains_key(names@[k]));
        }
        if all_resolved {
            assert forall|name: usize| #[trigger] ctx.contains_key(name) implies kinds@[name]
                == finalize(s, rank, ctx[name]) by {
                let k = choose|k: int| 0 <= k < names@.len() && names@[k] == name;
                assert(kinds@[names@[k]] == finalize(s, rank, ctx[names@[k]]));
            }
        }
    }
    let r = if all_resolved {
        (Some(Kinds { kinds }), messages)
    } else {
        (None, messages)
    };
    assert(kindck_outcome(r.0, r.1@, comps_view(components@), s, rank, ctx));
    r
}

impl Kinder {
    /// Take the messages reported so far.
    pub fn take_messages(&mut self) -> (messages: Vec<Message>)
        requires
            old(self).wf(),
        ensures
            final(self).wf(),
            messages@ == old(self).messages(),
            final(self).substitution() == old(self).substitution(),
            final(self).ranking() == old(self).ranking(),
            final(self).context() == old(self).context(),
    {
        let mut messages = Vec::new();
        std::mem::swap(&mut messages, &mut self.messages);
        messages
    }
}

} // verus!
pub mod tree;
