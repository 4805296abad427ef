use vstd::prelude::*;

use super::kinds::{
    agree, apply, lemma_agree_apply, lemma_apply_extend, lemma_submap_refl, lemma_submap_trans,
    lemma_vars_below_mono, lemma_vars_below_split, ranked, vars_below, Kind, UniVar,
};
use super::tree::{type_ok, type_size, Type, TypeNode};
use super::Kinder;

verus! {

broadcast use vstd::std_specs::hash::group_hash_axioms;

/// How many unification variables inferring the kind of `ty` makes: one
/// for each wildcard and invalid type.
pub open spec fn wilds(ty: Type) -> nat
    decreases ty,
{
    match ty.node {
        TypeNode::Fun(a, b) | TypeNode::Product(a, b) => wilds(*a) + wilds(*b),
        TypeNode::Wildcard | TypeNode::Invalid => 1,
        _ => 0,
    }
}

/// The kind inferred for `ty` with the names bound as in `context`, where
/// the next unification variable made is numbered `n`.
pub open spec fn inferred(ty: Type, context: Map<usize, Kind>, n: nat) -> Kind {
    match ty.node {
        TypeNode::Name(name) => context[name],
        TypeNode::Wildcard | TypeNode::Invalid => Kind::Var(UniVar(n as usize)),
        _ => Kind::Type,
    }
}

/// Whether, under the substitution `subst`, the parts of every function and
/// product type within `ty` are of kind `type`, invalid kinds aside.
pub open spec fn parts_typed(
    ty: Type,
    context: Map<usize, Kind>,
    n: nat,
    subst: Map<usize, Kind>,
    rank: Map<usize, nat>,
) -> bool
    decreases ty,
{
    match ty.node {
        TypeNode::Fun(t, u) | TypeNode::Product(t, u) => {
            &&& agree(apply(subst, rank, inferred(*t, context, n)), Kind::Type)
            &&& agree(apply(subst, rank, inferred(*u, context, n + wilds(*t))), Kind::Type)
            &&& parts_typed(*t, context, n, subst, rank)
            &&& parts_typed(*u, context, n + wilds(*t), subst, rank)
        },
        _ => true,
    }
}

/// A kind that agrees with `type` still does under an extension of the
/// substitution.
proof fn lemma_typed_extend(
    x: Kind,
    s1: Map<usize, Kind>,
    r1: Map<usize, nat>,
    s2: Map<usize, Kind>,
    r2: Map<usize, nat>,
)
    requires
        ranked(s1, r1),
        ranked(s2, r2),
        s1.submap_of(s2),
        agree(apply(s1, r1, x), Kind::Type),
    ensures
        agree(apply(s2, r2, x), Kind::Type),
{
    lemma_agree_apply(s2, r2, apply(s1, r1, x), Kind::Type);
    lemma_apply_extend(s1, r1, s2, r2, x);
}

/// What `parts_typed` says still holds under an extension of the
/// substitution.
proof fn lemma_parts_extend(
    ty: Type,
    context: Map<usize, Kind>,
    n: nat,
    s1: Map<usize, Kind>,
    r1: Map<usize, nat>,
    s2: Map<usize, Kind>,
    r2: Map<usize, nat>,
)
    requires
        ranked(s1, r1),
        ranked(s2, r2),
        s1.submap_of(s2),
        parts_typed(ty, context, n, s1, r1),
    ensures
        parts_typed(ty, context, n, s2, r2),
    decreases ty,
{
    match ty.node {
        TypeNode::Fun(t, u) | TypeNode::Product(t, u) => {
            lemma_typed_extend(inferred(*t, context, n), s1, r1, s2, r2);
            lemma_typed_extend(inferred(*u, context, n + wilds(*t)), s1, r1, s2, r2);
            lemma_parts_extend(*t, context, n, s1, r1, s2, r2);
            lemma_parts_extend(*u, context, n + wilds(*t), s1, r1, s2, r2);
        },
        _ => {},
    }
}

pub(crate) proof fn lemma_prefix_squeeze<A>(a: Seq<A>, b: Seq<A>, c: Seq<A>)
    requires
        a.is_prefix_of(b),
        b.is_prefix_of(c),
        a == c,
    ensures
        a == b,
        b == c,
{
    assert(b =~= a);
}

impl Kinder {
    /// Infer the kind of a type, requiring the parts of function and product
    /// types to be of kind `type`.
    pub fn infer(&mut self, ty: &Type) -> (kind: Kind)
        requires
            old(self).wf(),
            old(self).counter() + type_size(*ty) <= usize::MAX,
            type_ok(*ty, old(self).context().dom()),
        ensures
            final(self).wf(),
            final(self).context() == old(self).context(),
            old(self).substitution().submap_of(final(self).substitution()),
            old(self).messages().is_prefix_of(final(self).messages()),
            old(self).counter() <= final(self).counter() <= old(self).counter() + type_size(*ty),
            vars_below(kind, final(self).counter()),
            kind == inferred(*ty, old(self).context(), old(self).counter()),
            final(self).counter() == old(self).counter() + wilds(*ty),
            final(self).messages() == old(self).messages() ==> parts_typed(
                *ty,
                old(self).context(),
                old(self).counter(),
                final(self).substitution(),
                final(self).ranking(),
            ),
        decreases ty,
    {
        let ghost subst0 = self.subst@;
        let ghost msgs0 = self.messages@;
        proof {
            lemma_submap_refl(self.subst@);
            assert(msgs0.is_prefix_of(self.messages@));
            lemma_vars_below_split(Kind::Type, self.counter as nat);
        }
        match &ty.node {
            TypeNode::Name(name) => {
                let kind = self.context.get(name).unwrap().clone();
                kind
            },
            TypeNode::Range(..) | TypeNode::Number => Kind::Type,
            TypeNode::Fun(t, u) | TypeNode::Product(t, u) => {
                let ghost n0 = self.counter as nat;
                let a = self.infer(t);
                let ghost subst1 = self.subst@;
                let ghost rank1 = self.rank@;
                let ghost msgs1 = self.messages@;
                let ghost n1 = self.counter as nat;
                let b = self.infer(u);
                let ghost rank2 = self.rank@;
                proof {
                    lemma_vars_below_mono(a, n1, self.counter as nat);
                    lemma_vars_below_split(Kind::Type, self.counter as nat);
                }
                let ghost subst2 = self.subst@;
                let ghost msgs2 = self.messages@;
                // (->) : type -> type -> type, and likewise (*)
                self.unify(t.span, a, Kind::Type);
                let ghost subst3 = self.subst@;
                let ghost rank3 = self.rank@;
                let ghost msgs3 = self.messages@;
                self.unify(u.span, b, Kind::Type);
                proof {
                    let (s4, r4) = (self.subst@, self.rank@);
                    if self.messages@ == msgs0 {
                        lemma_prefix_squeeze(msgs0, msgs1, self.messages@);
                        lemma_prefix_squeeze(msgs1, msgs2, self.messages@);
                        lemma_prefix_squeeze(msgs2, msgs3, self.messages@);
                        lemma_submap_trans(subst1, subst2, subst3);
                        lemma_submap_trans(subst1, subst3, s4);
                        lemma_submap_trans(subst2, subst3, s4);
                        lemma_parts_extend(**t, self.context@, n0, subst1, rank1, s4, r4);
                        lemma_parts_extend(**u, self.context@, n1, subst2, rank2, s4, r4);
                        lemma_typed_extend(a, subst3, rank3, s4, r4);
                    }
                    lemma_submap_trans(subst0, subst1, subst2);
                    lemma_submap_trans(subst0, subst2, subst3);
                    lemma_submap_trans(subst0, subst3, self.subst@);
                    assert(msgs0.is_prefix_of(msgs2));
                    assert(msgs0.is_prefix_of(msgs3));
                    assert(msgs0.is_prefix_of(self.messages@));
                    lemma_vars_below_split(Kind::Type, self.counter as nat);
                }
                Kind::Type
            },
            TypeNode::Wildcard | TypeNode::Invalid => {
                let var = self.fresh();
                proof {
                    lemma_vars_below_split(Kind::Var(var), self.counter as nat);
                    lemma_submap_refl(self.subst@);
                    assert(msgs0.is_prefix_of(self.messages@));
                }
                Kind::Var(var)
            },
            TypeNode::Type => {
                // Excluded by the precondition.
                assert(false);
                Kind::Invalid
            },
        }
    }
}

} // verus!
