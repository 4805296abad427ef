use vstd::prelude::*;

use super::pretty::subst_below;
use super::tree::{type_size, Type, TypeNode};
use super::Kinder;
use crate::messages::{msg, Message, MessageKind};
use crate::source::Span;

verus! {

/// A unification variable standing for an unknown kind.
#[derive(Clone, Copy, Debug, PartialEq, Eq, Hash, Structural)]
pub struct UniVar(pub usize);

/// The kind of a type or type definition, possibly containing unknowns.
#[derive(Debug, PartialEq, Eq)]
pub enum Kind {
    Type,
    Function(Box<Kind>, Box<Kind>),
    Product(Box<Kind>, Box<Kind>),
    Var(UniVar),
    Invalid,
}

/// Whether the variable `v` appears in `k`.
pub open spec fn occurs_in(v: usize, k: Kind) -> bool
    decreases k,
{
    match k {
        Kind::Function(a, b) | Kind::Product(a, b) => occurs_in(v, *a) || occurs_in(v, *b),
        Kind::Var(w) => w.0 == v,
        _ => false,
    }
}

/// Every variable in `k` is below `n`.
pub open spec fn vars_below(k: Kind, n: nat) -> bool {
    forall|v: usize| occurs_in(v, k) ==> v < n
}

/// The variables of a compound kind are those of its parts.
pub proof fn lemma_vars_below_split(k: Kind, n: nat)
    ensures
        match k {
            Kind::Function(a, b) | Kind::Product(a, b) => vars_below(k, n) <==> vars_below(*a, n)
                && vars_below(*b, n),
            Kind::Var(v) => vars_below(k, n) <==> v.0 < n,
            _ => vars_below(k, n),
        },
{
    match k {
        Kind::Function(a, b) | Kind::Product(a, b) => {
            if vars_below(k, n) {
                assert forall|u: usize| occurs_in(u, *a) implies u < n by {
                    assert(occurs_in(u, k));
                }
                assert forall|u: usize| occurs_in(u, *b) implies u < n by {
                    assert(occurs_in(u, k));
                }
            }
            if vars_below(*a, n) && vars_below(*b, n) {
                assert forall|u: usize| occurs_in(u, k) implies u < n by {
                    if occurs_in(u, *a) {
                    } else {
                        assert(occurs_in(u, *b));
                    }
                }
            }
        },
        Kind::Var(v) => {
            assert(occurs_in(v.0, k));
        },
        _ => {},
    }
}

pub proof fn lemma_submap_refl<K, V>(m: Map<K, V>)
    ensures
        m.submap_of(m),
{
    assert forall|k: K| #[trigger] m.dom().contains(k) implies m.dom().contains(k) && m[k] == m[k] by {
    }
}

pub proof fn lemma_submap_trans<K, V>(a: Map<K, V>, b: Map<K, V>, c: Map<K, V>)
    requires
        a.submap_of(b),
        b.submap_of(c),
    ensures
        a.submap_of(c),
{
    assert forall|k: K| #[trigger] a.dom().contains(k) implies c.dom().contains(k) && a[k]
        == c[k] by {
        assert(a.dom().contains(k) && b.dom().contains(k));
        assert(b.dom().contains(k) && c.dom().contains(k));
    }
}

/// Variables below `n` are below any larger bound.
pub proof fn lemma_vars_below_mono(k: Kind, n: nat, m: nat)
    requires
        vars_below(k, n),
        n <= m,
    ensures
        vars_below(k, m),
{
    assert forall|v: usize| occurs_in(v, k) implies v < m by {
        assert(occurs_in(v, k));
    }
}

/// The number of nodes of `k`.
pub open spec fn size(k: Kind) -> nat
    decreases k,
{
    match k {
        Kind::Function(a, b) | Kind::Product(a, b) => 1 + size(*a) + size(*b),
        _ => 1,
    }
}

/// `rank` witnesses that the substitution `subst` has no cycles: a variable
/// bound to a kind mentioning another bound variable ranks above it.
pub open spec fn ranked(subst: Map<usize, Kind>, rank: Map<usize, nat>) -> bool {
    &&& subst.dom().subset_of(rank.dom())
    &&& forall|v: usize, w: usize|
        #![trigger occurs_in(w, subst[v]), rank[w]]
        subst.contains_key(v) && subst.contains_key(w) && occurs_in(w, subst[v]) ==> rank[w]
            < rank[v]
}

/// A substitution is acyclic if some ranking witnesses it.
pub open spec fn acyclic(subst: Map<usize, Kind>) -> bool {
    exists|rank: Map<usize, nat>| ranked(subst, rank)
}

pub open spec fn max(a: nat, b: nat) -> nat {
    if a >= b {
        a
    } else {
        b
    }
}

/// One more than the highest rank of a bound variable in `k`, or 0.
pub open spec fn kind_rank(subst: Map<usize, Kind>, rank: Map<usize, nat>, k: Kind) -> nat
    decreases k,
{
    match k {
        Kind::Function(a, b) | Kind::Product(a, b) => max(
            kind_rank(subst, rank, *a),
            kind_rank(subst, rank, *b),
        ),
        Kind::Var(v) => if subst.contains_key(v.0) {
            rank[v.0] + 1
        } else {
            0
        },
        _ => 0,
    }
}

pub proof fn lemma_rank_below(subst: Map<usize, Kind>, rank: Map<usize, nat>, k: Kind, r: nat)
    requires
        forall|w: usize| occurs_in(w, k) && subst.contains_key(w) ==> rank[w] < r,
    ensures
        kind_rank(subst, rank, k) <= r,
    decreases k,
{
    match k {
        Kind::Function(a, b) | Kind::Product(a, b) => {
            assert forall|w: usize| occurs_in(w, *a) && subst.contains_key(w) implies rank[w]
                < r by {
                assert(occurs_in(w, k));
            }
            assert forall|w: usize| occurs_in(w, *b) && subst.contains_key(w) implies rank[w]
                < r by {
                assert(occurs_in(w, k));
            }
            lemma_rank_below(subst, rank, *a, r);
            lemma_rank_below(subst, rank, *b, r);
        },
        Kind::Var(v) => {
            assert(occurs_in(v.0, k));
        },
        _ => {},
    }
}

/// A bound variable ranks above the kind it is bound to.
pub proof fn lemma_bound_rank(subst: Map<usize, Kind>, rank: Map<usize, nat>, v: usize)
    requires
        ranked(subst, rank),
        subst.contains_key(v),
    ensures
        kind_rank(subst, rank, subst[v]) <= rank[v],
{
    assert forall|w: usize| occurs_in(w, subst[v]) && subst.contains_key(w) implies rank[w]
        < rank[v] by {
        assert(occurs_in(w, subst[v]));
    }
    lemma_rank_below(subst, rank, subst[v], rank[v]);
}

/// Every bound variable of `k` ranks below `kind_rank(k)`.
pub proof fn lemma_rank_above(subst: Map<usize, Kind>, rank: Map<usize, nat>, k: Kind, w: usize)
    requires
        occurs_in(w, k),
        subst.contains_key(w),
    ensures
        rank[w] < kind_rank(subst, rank, k),
    decreases k,
{
    match k {
        Kind::Function(a, b) | Kind::Product(a, b) => {
            if occurs_in(w, *a) {
                lemma_rank_above(subst, rank, *a, w);
            } else {
                lemma_rank_above(subst, rank, *b, w);
            }
        },
        _ => {},
    }
}

/// Whether `v` occurs in `k` once bound variables are replaced by what they
/// are bound to.
pub open spec fn occurs_deep(subst: Map<usize, Kind>, rank: Map<usize, nat>, v: usize, k: Kind) -> bool
    decreases kind_rank(subst, rank, k), k,
    when ranked(subst, rank)
    via occurs_deep_decreases
{
    match k {
        Kind::Function(a, b) | Kind::Product(a, b) => occurs_deep(subst, rank, v, *a)
            || occurs_deep(subst, rank, v, *b),
        Kind::Var(w) => w.0 == v || (subst.contains_key(w.0) && occurs_deep(
            subst,
            rank,
            v,
            subst[w.0],
        )),
        _ => false,
    }
}

#[via_fn]
proof fn occurs_deep_decreases(
    subst: Map<usize, Kind>,
    rank: Map<usize, nat>,
    v: usize,
    k: Kind,
) {
    if let Kind::Var(w) = k {
        if subst.contains_key(w.0) {
            lemma_bound_rank(subst, rank, w.0);
        }
    }
}

/// Every variable deeply occurring in `k` is below `n` if those of `k` and
/// of the substitution are.
pub proof fn lemma_deep_below(
    subst: Map<usize, Kind>,
    rank: Map<usize, nat>,
    v: usize,
    k: Kind,
    n: nat,
)
    requires
        ranked(subst, rank),
        forall|u: usize|
            #[trigger] subst.contains_key(u) ==> u < n && vars_below(subst[u], n),
        vars_below(k, n),
        occurs_deep(subst, rank, v, k),
    ensures
        v < n,
    decreases kind_rank(subst, rank, k), k,
{
    match k {
        Kind::Function(a, b) | Kind::Product(a, b) => {
            assert(vars_below(*a, n) && vars_below(*b, n)) by {
                assert forall|u: usize| occurs_in(u, *a) implies u < n by {
                    assert(occurs_in(u, k));
                }
                assert forall|u: usize| occurs_in(u, *b) implies u < n by {
                    assert(occurs_in(u, k));
                }
            }
            if occurs_deep(subst, rank, v, *a) {
                lemma_deep_below(subst, rank, v, *a, n);
            } else {
                lemma_deep_below(subst, rank, v, *b, n);
            }
        },
        Kind::Var(w) => {
            assert(occurs_in(w.0, k));
            if w.0 != v {
                lemma_bound_rank(subst, rank, w.0);
                lemma_deep_below(subst, rank, v, subst[w.0], n);
            }
        },
        _ => {},
    }
}

/// `k` with every bound variable replaced by what it is bound to.
pub open spec fn apply(subst: Map<usize, Kind>, rank: Map<usize, nat>, k: Kind) -> Kind
    decreases kind_rank(subst, rank, k), k,
    when ranked(subst, rank)
    via apply_decreases
{
    match k {
        Kind::Function(a, b) => Kind::Function(
            Box::new(apply(subst, rank, *a)),
            Box::new(apply(subst, rank, *b)),
        ),
        Kind::Product(a, b) => Kind::Product(
            Box::new(apply(subst, rank, *a)),
            Box::new(apply(subst, rank, *b)),
        ),
        Kind::Var(w) => if subst.contains_key(w.0) {
            apply(subst, rank, subst[w.0])
        } else {
            k
        },
        _ => k,
    }
}

#[via_fn]
proof fn apply_decreases(subst: Map<usize, Kind>, rank: Map<usize, nat>, k: Kind) {
    if let Kind::Var(w) = k {
        if subst.contains_key(w.0) {
            lemma_bound_rank(subst, rank, w.0);
        }
    }
}

/// Whether `x` and `y` are equal where neither is invalid: an invalid kind
/// agrees with anything.
pub open spec fn agree(x: Kind, y: Kind) -> bool
    decreases x,
{
    match x {
        Kind::Invalid => true,
        Kind::Type => y is Type || y is Invalid,
        Kind::Var(v) => y is Invalid || (y matches Kind::Var(w) && w == v),
        Kind::Function(a, b) => match y {
            Kind::Invalid => true,
            Kind::Function(c, d) => agree(*a, *c) && agree(*b, *d),
            _ => false,
        },
        Kind::Product(a, b) => match y {
            Kind::Invalid => true,
            Kind::Product(c, d) => agree(*a, *c) && agree(*b, *d),
            _ => false,
        },
    }
}

/// Every kind agrees with itself.
pub proof fn lemma_agree_refl(x: Kind)
    ensures
        agree(x, x),
    decreases x,
{
    match x {
        Kind::Function(a, b) | Kind::Product(a, b) => {
            lemma_agree_refl(*a);
            lemma_agree_refl(*b);
        },
        _ => {},
    }
}

/// Applying a substitution keeps kinds in agreement.
pub proof fn lemma_agree_apply(subst: Map<usize, Kind>, rank: Map<usize, nat>, x: Kind, y: Kind)
    requires
        ranked(subst, rank),
        agree(x, y),
    ensures
        agree(apply(subst, rank, x), apply(subst, rank, y)),
    decreases x,
{
    match x {
        Kind::Invalid => {},
        Kind::Type => {},
        Kind::Var(v) => {
            if !(y is Invalid) {
                lemma_agree_refl(apply(subst, rank, x));
            }
        },
        Kind::Function(a, b) => match y {
            Kind::Function(c, d) => {
                lemma_agree_apply(subst, rank, *a, *c);
                lemma_agree_apply(subst, rank, *b, *d);
            },
            _ => {},
        },
        Kind::Product(a, b) => match y {
            Kind::Product(c, d) => {
                lemma_agree_apply(subst, rank, *a, *c);
                lemma_agree_apply(subst, rank, *b, *d);
            },
            _ => {},
        },
    }
}

/// Applying a substitution, then one that extends it, is applying the
/// second.
pub proof fn lemma_apply_extend(
    s1: Map<usize, Kind>,
    r1: Map<usize, nat>,
    s2: Map<usize, Kind>,
    r2: Map<usize, nat>,
    k: Kind,
)
    requires
        ranked(s1, r1),
        ranked(s2, r2),
        s1.submap_of(s2),
    ensures
        apply(s2, r2, apply(s1, r1, k)) == apply(s2, r2, k),
    decreases kind_rank(s1, r1, k), k,
{
    match k {
        Kind::Function(a, b) | Kind::Product(a, b) => {
            lemma_apply_extend(s1, r1, s2, r2, *a);
            lemma_apply_extend(s1, r1, s2, r2, *b);
        },
        Kind::Var(w) => {
            if s1.contains_key(w.0) {
                lemma_bound_rank(s1, r1, w.0);
                assert(s2.contains_key(w.0) && s2[w.0] == s1[w.0]);
                lemma_apply_extend(s1, r1, s2, r2, s1[w.0]);
            }
        },
        _ => {},
    }
}

/// A kind without unknowns: what kind checking finds.
#[derive(Debug, PartialEq, Eq)]
pub enum FinalKind {
    Type,
    Function(Box<FinalKind>, Box<FinalKind>),
    Product(Box<FinalKind>, Box<FinalKind>),
    Invalid,
}

/// Whether no unbound variable remains in `k` once bound ones are replaced.
pub open spec fn resolved(subst: Map<usize, Kind>, rank: Map<usize, nat>, k: Kind) -> bool
    decreases kind_rank(subst, rank, k), k,
    when ranked(subst, rank)
    via resolved_decreases
{
    match k {
        Kind::Function(a, b) | Kind::Product(a, b) => resolved(subst, rank, *a) && resolved(
            subst,
            rank,
            *b,
        ),
        Kind::Var(v) => subst.contains_key(v.0) && resolved(subst, rank, subst[v.0]),
        _ => true,
    }
}

#[via_fn]
proof fn resolved_decreases(subst: Map<usize, Kind>, rank: Map<usize, nat>, k: Kind) {
    if let Kind::Var(w) = k {
        if subst.contains_key(w.0) {
            lemma_bound_rank(subst, rank, w.0);
        }
    }
}

/// The final kind that `k` comes to once bound variables are replaced.
pub open spec fn finalize(subst: Map<usize, Kind>, rank: Map<usize, nat>, k: Kind) -> FinalKind
    decreases kind_rank(subst, rank, k), k,
    when ranked(subst, rank)
    via finalize_decreases
{
    match k {
        Kind::Type => FinalKind::Type,
        Kind::Function(a, b) => FinalKind::Function(
            Box::new(finalize(subst, rank, *a)),
            Box::new(finalize(subst, rank, *b)),
        ),
        Kind::Product(a, b) => FinalKind::Product(
            Box::new(finalize(subst, rank, *a)),
            Box::new(finalize(subst, rank, *b)),
        ),
        Kind::Var(v) => if subst.contains_key(v.0) {
            finalize(subst, rank, subst[v.0])
        } else {
            FinalKind::Invalid
        },
        Kind::Invalid => FinalKind::Invalid,
    }
}

#[via_fn]
proof fn finalize_decreases(subst: Map<usize, Kind>, rank: Map<usize, nat>, k: Kind) {
    if let Kind::Var(w) = k {
        if subst.contains_key(w.0) {
            lemma_bound_rank(subst, rank, w.0);
        }
    }
}

impl Clone for Kind {
    fn clone(&self) -> (r: Self)
        ensures
            r == *self,
        decreases self,
    {
        match self {
            Kind::Type => Kind::Type,
            Kind::Function(a, b) => Kind::Function(Box::new((**a).clone()), Box::new((**b).clone())),
            Kind::Product(a, b) => Kind::Product(Box::new((**a).clone()), Box::new((**b).clone())),
            Kind::Var(v) => Kind::Var(*v),
            Kind::Invalid => Kind::Invalid,
        }
    }
}

/// The kind a type annotation stands for, with its wildcards numbered from
/// `next` in order, the next unused number, and the spans of the parts that
/// do not stand for a kind.
pub open spec fn kind_of_type(ty: Type, next: nat) -> (Kind, nat, Seq<Span>)
    decreases ty,
{
    match ty.node {
        TypeNode::Type => (Kind::Type, next, Seq::empty()),
        TypeNode::Fun(t, u) => {
            let (a, n1, e1) = kind_of_type(*t, next);
            let (b, n2, e2) = kind_of_type(*u, n1);
            (Kind::Function(Box::new(a), Box::new(b)), n2, e1 + e2)
        },
        TypeNode::Product(t, u) => {
            let (a, n1, e1) = kind_of_type(*t, next);
            let (b, n2, e2) = kind_of_type(*u, n1);
            (Kind::Product(Box::new(a), Box::new(b)), n2, e1 + e2)
        },
        TypeNode::Wildcard => (Kind::Var(UniVar(next as usize)), next + 1, Seq::empty()),
        TypeNode::Invalid => (Kind::Invalid, next, Seq::empty()),
        _ => (Kind::Invalid, next, seq![ty.span]),
    }
}

/// Whether `k` has the shape the annotation `ty` describes: `type` for
/// `type`, a function kind for an arrow, a product kind for a product (their
/// parts in turn matching), a variable for a wildcard, and the invalid kind
/// for anything else.
pub open spec fn kind_matches_annotation(ty: Type, k: Kind) -> bool
    decreases ty,
{
    match ty.node {
        TypeNode::Type => k is Type,
        TypeNode::Fun(t, u) => match k {
            Kind::Function(a, b) => kind_matches_annotation(*t, *a) && kind_matches_annotation(*u, *b),
            _ => false,
        },
        TypeNode::Product(t, u) => match k {
            Kind::Product(a, b) => kind_matches_annotation(*t, *a) && kind_matches_annotation(*u, *b),
            _ => false,
        },
        TypeNode::Wildcard => k is Var,
        _ => k is Invalid,
    }
}

/// The kind an annotation stands for is built as the annotation is: an
/// arrow `t -> u` stands for a function kind from the kind of `t` to that of
/// `u`, a product `t * u` for a product kind, `type` for `type`, a wildcard
/// for a fresh variable, and anything else for the invalid kind.
pub proof fn law_annotation_kind_shape(ty: Type, next: nat)
    ensures
        kind_matches_annotation(ty, kind_of_type(ty, next).0),
        ty.node is Fun <==> kind_of_type(ty, next).0 is Function,
        ty.node is Product <==> kind_of_type(ty, next).0 is Product,
    decreases ty,
{
    match ty.node {
        TypeNode::Fun(t, u) | TypeNode::Product(t, u) => {
            law_annotation_kind_shape(*t, next);
            law_annotation_kind_shape(*u, kind_of_type(*t, next).1);
        },
        _ => {},
    }
}

/// The messages saying that the parts at `spans` are not kinds.
pub open spec fn not_kind_messages(spans: Seq<Span>) -> Seq<Message> {
    spans.map_values(|span: Span| msg(MessageKind::NotAKind, span))
}

proof fn lemma_kind_of_type(ty: Type, next: nat)
    ensures
        kind_of_type(ty, next).1 <= next + type_size(ty),
        kind_of_type(ty, next).1 >= next,
        vars_below(kind_of_type(ty, next).0, kind_of_type(ty, next).1),
    decreases ty,
{
    let (k, n, e) = kind_of_type(ty, next);
    match ty.node {
        TypeNode::Fun(t, u) | TypeNode::Product(t, u) => {
            lemma_kind_of_type(*t, next);
            let (a, n1, e1) = kind_of_type(*t, next);
            lemma_kind_of_type(*u, n1);
            lemma_vars_below_split(k, n);
            assert forall|v: usize| occurs_in(v, a) implies v < n by {
                assert(vars_below(a, n1));
            }
        },
        TypeNode::Wildcard => {
            lemma_vars_below_split(k, n);
        },
        _ => {
            lemma_vars_below_split(k, n);
        },
    }
}

impl Kinder {
    /// A new unification variable.
    pub fn fresh(&mut self) -> (var: UniVar)
        requires
            old(self).wf(),
            old(self).counter() < usize::MAX,
        ensures
            final(self).wf(),
            var.0 == old(self).counter(),
            final(self).counter() == old(self).counter() + 1,
            final(self).substitution() == old(self).substitution(),
            final(self).ranking() == old(self).ranking(),
            final(self).context() == old(self).context(),
            final(self).messages() == old(self).messages(),
    {
        let var = UniVar(self.counter);
        self.counter += 1;
        proof {
            assert forall|name: usize| #[trigger] self.context@.contains_key(name) implies vars_below(
                self.context@[name],
                self.counter as nat,
            ) by {
                assert(vars_below(self.context@[name], old(self).counter as nat));
            }
            assert forall|v: usize| #[trigger] self.subst@.contains_key(v) implies v < self.counter
                && vars_below(self.subst@[v], self.counter as nat) by {
                assert(vars_below(self.subst@[v], old(self).counter as nat));
            }
        }
        var
    }

    /// The kind that a type annotation stands for; wildcards become fresh
    /// unification variables, and other types are reported as not being
    /// kinds.
    pub fn kind_from_type(&mut self, ty: &Type) -> (kind: Kind)
        requires
            old(self).wf(),
            old(self).counter() + type_size(*ty) <= usize::MAX,
        ensures
            final(self).wf(),
            (kind, final(self).counter(), final(self).messages()) == ({
                let (k, n, e) = kind_of_type(*ty, old(self).counter());
                (k, n, old(self).messages() + not_kind_messages(e))
            }),
            final(self).substitution() == old(self).substitution(),
            final(self).ranking() == old(self).ranking(),
            final(self).context() == old(self).context(),
            vars_below(kind, final(self).counter()),
            old(self).counter() <= final(self).counter() <= old(self).counter() + type_size(*ty),
        decreases ty,
    {
        proof {
            lemma_kind_of_type(*ty, self.counter as nat);
        }
        match &ty.node {
            TypeNode::Type => {
                assert(self.messages@ =~= old(self).messages@ + not_kind_messages(Seq::empty()));
                Kind::Type
            },
            TypeNode::Fun(t, u) | TypeNode::Product(t, u) => {
                proof {
                    lemma_kind_of_type(**t, self.counter as nat);
                }
                let a = self.kind_from_type(t);
                let ghost m1 = self.messages@;
                proof {
                    lemma_kind_of_type(**u, self.counter as nat);
                }
                let b = self.kind_from_type(u);
                proof {
                    let (_, n1, e1) = kind_of_type(**t, old(self).counter as nat);
                    let (_, n2, e2) = kind_of_type(**u, n1);
                    assert(not_kind_messages(e1 + e2) =~= not_kind_messages(e1) + not_kind_messages(e2));
                    assert(self.messages@ =~= old(self).messages@ + not_kind_messages(e1 + e2));
                    assert(vars_below(a, self.counter as nat)) by {
                        assert forall|v: usize| occurs_in(v, a) implies v < self.counter by {
                            assert(vars_below(a, n1));
                        }
                    }
                }
                let is_function = match &ty.node {
                    TypeNode::Fun(..) => true,
                    _ => false,
                };
                let kind = if is_function {
                    Kind::Function(Box::new(a), Box::new(b))
                } else {
                    Kind::Product(Box::new(a), Box::new(b))
                };
                proof {
                    lemma_vars_below_split(kind, self.counter as nat);
                }
                kind
            },
            TypeNode::Wildcard => {
                let var = self.fresh();
                assert(self.messages@ =~= old(self).messages@ + not_kind_messages(Seq::empty()));
                proof {
                    lemma_vars_below_split(Kind::Var(var), self.counter as nat);
                }
                Kind::Var(var)
            },
            TypeNode::Invalid => {
                assert(self.messages@ =~= old(self).messages@ + not_kind_messages(Seq::empty()));
                Kind::Invalid
            },
            _ => {
                self.messages.push(Message { kind: MessageKind::NotAKind, span: ty.span });
                assert(self.messages@ =~= old(self).messages@ + not_kind_messages(seq![ty.span]));
                Kind::Invalid
            },
        }
    }

    /// Whether `kind` is fully known once bound variables are replaced.
    pub fn is_resolved(&self, kind: &Kind) -> (r: bool)
        requires
            self.wf(),
        ensures
            r == resolved(self.substitution(), self.ranking(), *kind),
        decreases kind_rank(self.substitution(), self.ranking(), *kind), *kind,
    {
        match kind {
            Kind::Type | Kind::Invalid => true,
            Kind::Function(a, b) | Kind::Product(a, b) => self.is_resolved(a) && self.is_resolved(
                b,
            ),
            Kind::Var(var) => match self.subst.get(&var.0) {
                Some(bound) => {
                    proof {
                        lemma_bound_rank(self.subst@, self.rank@, var.0);
                    }
                    self.is_resolved(bound)
                },
                None => false,
            },
        }
    }

    /// The final kind of `kind`, replacing bound variables by what they are
    /// bound to. Every variable must be resolved.
    pub fn substitute(&self, kind: &Kind) -> (r: FinalKind)
        requires
            self.wf(),
            resolved(self.substitution(), self.ranking(), *kind),
        ensures
            r == finalize(self.substitution(), self.ranking(), *kind),
        decreases kind_rank(self.substitution(), self.ranking(), *kind), *kind,
    {
        match kind {
            Kind::Type => FinalKind::Type,
            Kind::Function(a, b) => {
                let a = self.substitute(a);
                let b = self.substitute(b);
                FinalKind::Function(Box::new(a), Box::new(b))
            },
            Kind::Product(a, b) => {
                let a = self.substitute(a);
                let b = self.substitute(b);
                FinalKind::Product(Box::new(a), Box::new(b))
            },
            Kind::Var(var) => {
                // Ambiguous or un-unified variables are excluded by the
                // precondition.
                let bound = self.subst.get(&var.0).unwrap();
                proof {
                    lemma_bound_rank(self.subst@, self.rank@, var.0);
                }
                self.substitute(bound)
            },
            Kind::Invalid => FinalKind::Invalid,
        }
    }
}

} // verus!
