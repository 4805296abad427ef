use vstd::prelude::*;

use super::kinds::{
    acyclic, lemma_submap_refl, lemma_submap_trans,
    kind_rank, lemma_bound_rank, lemma_rank_above, occurs_deep, occurs_in, ranked, size,
    agree, apply, lemma_agree_apply, lemma_agree_refl, lemma_apply_extend,
    vars_below, lemma_vars_below_split, Kind, UniVar,
};
use super::pretty::{lemma_bounded_set_len, Prettier};
use super::Kinder;
use crate::messages::{msg, Message, MessageKind};
use crate::source::Span;

verus! {

broadcast use vstd::std_specs::hash::group_hash_axioms;

/// A syntactic occurrence is an occurrence.
proof fn lemma_occurs_in_deep(subst: Map<usize, Kind>, rank: Map<usize, nat>, w: usize, k: Kind)
    requires
        ranked(subst, rank),
        occurs_in(w, k),
    ensures
        occurs_deep(subst, rank, w, k),
    decreases k,
{
    match k {
        Kind::Function(a, b) | Kind::Product(a, b) => {
            if occurs_in(w, *a) {
                lemma_occurs_in_deep(subst, rank, w, *a);
            } else {
                lemma_occurs_in_deep(subst, rank, w, *b);
            }
        },
        _ => {},
    }
}

/// If `k` mentions a bound variable `w` whose kind reaches `v`, then `k`
/// reaches `v`.
proof fn lemma_occurs_through(
    subst: Map<usize, Kind>,
    rank: Map<usize, nat>,
    v: usize,
    w: usize,
    k: Kind,
)
    requires
        ranked(subst, rank),
        occurs_in(w, k),
        subst.contains_key(w),
        occurs_deep(subst, rank, v, subst[w]),
    ensures
        occurs_deep(subst, rank, v, k),
    decreases k,
{
    match k {
        Kind::Function(a, b) | Kind::Product(a, b) => {
            if occurs_in(w, *a) {
                lemma_occurs_through(subst, rank, v, w, *a);
            } else {
                lemma_occurs_through(subst, rank, v, w, *b);
            }
        },
        _ => {},
    }
}

/// The ranking after binding the unbound `v` to `k`: variables whose kinds
/// reach `v` move above everything `k` ranks above.
spec fn rebind_rank(subst: Map<usize, Kind>, rank: Map<usize, nat>, v: usize, k: Kind) -> Map<
    usize,
    nat,
> {
    let top = kind_rank(subst, rank, k);
    Map::new(
        |u: usize| subst.contains_key(u) || u == v,
        |u: usize|
            if u == v {
                top
            } else if occurs_deep(subst, rank, v, subst[u]) {
                rank[u] + top + 1
            } else {
                rank[u]
            },
    )
}

/// Binding an unbound variable to a kind that does not reach it keeps the
/// substitution acyclic.
proof fn lemma_bind_ranked(subst: Map<usize, Kind>, rank: Map<usize, nat>, v: usize, k: Kind)
    requires
        ranked(subst, rank),
        !subst.contains_key(v),
        !occurs_deep(subst, rank, v, k),
    ensures
        ranked(subst.insert(v, k), rebind_rank(subst, rank, v, k)),
{
    let s2 = subst.insert(v, k);
    let r2 = rebind_rank(subst, rank, v, k);
    let top = kind_rank(subst, rank, k);
    assert(s2.dom().subset_of(r2.dom()));
    assert forall|u: usize, w: usize|
        #![trigger occurs_in(w, s2[u]), r2[w]]
        s2.contains_key(u) && s2.contains_key(w) && occurs_in(w, s2[u]) implies r2[w] < r2[u] by {
        if u == v {
            assert(s2[u] == k);
            if w == v {
                lemma_occurs_in_deep(subst, rank, w, k);
            } else {
                if occurs_deep(subst, rank, v, subst[w]) {
                    lemma_occurs_through(subst, rank, v, w, k);
                }
                lemma_rank_above(subst, rank, k, w);
            }
        } else {
            assert(s2[u] == subst[u]);
            if w == v {
                lemma_occurs_in_deep(subst, rank, v, subst[u]);
            } else {
                assert(occurs_in(w, subst[u]));
                assert(rank[w] < rank[u]);
                if occurs_deep(subst, rank, v, subst[w]) {
                    lemma_occurs_through(subst, rank, v, w, subst[u]);
                }
            }
        }
    }
}

/// What binding the unbound variable `v` to `k` at `span` does to the
/// substitution `s0` and the messages `m0`: where `k` reaches `v`, `v` is
/// bound to an invalid kind and a recursive kind reported; otherwise `v` is
/// bound to `k`.
pub open spec fn bound_outcome(
    s0: Map<usize, Kind>,
    r0: Map<usize, nat>,
    m0: Seq<Message>,
    v: usize,
    k: Kind,
    span: Span,
    s1: Map<usize, Kind>,
    m1: Seq<Message>,
) -> bool {
    if occurs_deep(s0, r0, v, k) {
        s1 == s0.insert(v, Kind::Invalid) && m1 == m0.push(msg(MessageKind::RecursiveKind, span))
    } else {
        s1 == s0.insert(v, k) && m1 == m0
    }
}

impl Kinder {
    /// Whether `var` occurs in `kind`, looking through bound variables.
    fn occurs(&self, var: UniVar, kind: &Kind) -> (r: bool)
        requires
            self.wf(),
        ensures
            r == occurs_deep(self.subst@, self.rank@, var.0, *kind),
        decreases kind_rank(self.subst@, self.rank@, *kind), *kind,
    {
        match kind {
            Kind::Type | Kind::Invalid => false,
            Kind::Function(a, b) | Kind::Product(a, b) => self.occurs(var, a) || self.occurs(
                var,
                b,
            ),
            Kind::Var(war) => {
                if var.0 == war.0 {
                    true
                } else {
                    match self.subst.get(&war.0) {
                        Some(bound) => {
                            proof {
                                lemma_bound_rank(self.subst@, self.rank@, war.0);
                            }
                            self.occurs(var, bound)
                        },
                        None => false,
                    }
                }
            },
        }
    }

    /// Bind the unbound variable `var` to `kind`, or to an invalid kind if
    /// `kind` contains `var`.
    fn bind_var(&mut self, span: Span, var: UniVar, kind: Kind)
        requires
            old(self).wf(),
            !old(self).subst@.contains_key(var.0),
            var.0 < old(self).counter,
            vars_below(kind, old(self).counter as nat),
        ensures
            final(self).wf(),
            final(self).counter == old(self).counter,
            final(self).context == old(self).context,
            old(self).subst@.submap_of(final(self).subst@),
            final(self).subst@.dom() == old(self).subst@.dom().insert(var.0),
            final(self).subst@.dom().len() == old(self).subst@.dom().len() + 1,
            old(self).messages@.is_prefix_of(final(self).messages@),
            final(self).messages@ == old(self).messages@ ==> final(self).subst@[var.0] == kind,
            bound_outcome(
                old(self).subst@,
                old(self).rank@,
                old(self).messages@,
                var.0,
                kind,
                span,
                final(self).subst@,
                final(self).messages@,
            ),
    {
        let ghost before = self.subst@;
        let ghost rank = self.rank@;
        if self.occurs(var, &kind) {
            self.messages.push(Message { kind: MessageKind::RecursiveKind, span });
            proof {
                lemma_bind_ranked(before, rank, var.0, Kind::Invalid);
                self.rank@ = rebind_rank(before, rank, var.0, Kind::Invalid);
            }
            self.subst.insert(var.0, Kind::Invalid);
        } else {
            proof {
                lemma_bind_ranked(before, rank, var.0, kind);
                self.rank@ = rebind_rank(before, rank, var.0, kind);
            }
            self.subst.insert(var.0, kind);
        }
        proof {
            assert(self.subst@.dom() =~= before.dom().insert(var.0));
            assert(self.subst@ =~= before.insert(var.0, self.subst@[var.0]));
            assert(old(self).messages@.is_prefix_of(self.messages@));
            assert forall|k: usize| #[trigger] before.dom().contains(k) implies self.subst@.dom().contains(
                k,
            ) && before[k] == self.subst@[k] by {
                assert(k != var.0);
            }
        }
    }

    /// Unify two kinds, extending the substitution so that they become equal
    /// where possible and reporting where they cannot.
    pub fn unify(&mut self, span: Span, a: Kind, b: Kind)
        requires
            old(self).wf(),
            vars_below(a, old(self).counter()),
            vars_below(b, old(self).counter()),
        ensures
            final(self).wf(),
            ranked(final(self).substitution(), final(self).ranking()),
            acyclic(final(self).substitution()),
            final(self).counter() == old(self).counter(),
            final(self).context() == old(self).context(),
            old(self).substitution().submap_of(final(self).substitution()),
            final(self).substitution().dom().len() == old(self).substitution().dom().len() ==> {
                &&& final(self).substitution() == old(self).substitution()
                &&& final(self).ranking() == old(self).ranking()
            },
            old(self).messages().is_prefix_of(final(self).messages()),
            final(self).substitution().dom().len() >= old(self).substitution().dom().len(),
            final(self).messages() == old(self).messages() ==> agree(
                apply(final(self).substitution(), final(self).ranking(), a),
                apply(final(self).substitution(), final(self).ranking(), b),
            ),
            match a {
                Kind::Var(v) => !old(self).substitution().contains_key(v.0) && b != Kind::Var(v)
                    ==> bound_outcome(
                    old(self).substitution(),
                    old(self).ranking(),
                    old(self).messages(),
                    v.0,
                    b,
                    span,
                    final(self).substitution(),
                    final(self).messages(),
                ),
                _ => match b {
                    Kind::Var(w) => !old(self).substitution().contains_key(w.0) ==> bound_outcome(
                        old(self).substitution(),
                        old(self).ranking(),
                        old(self).messages(),
                        w.0,
                        a,
                        span,
                        final(self).substitution(),
                        final(self).messages(),
                    ),
                    _ => true,
                },
            },
        decreases old(self).counter() - old(self).substitution().dom().len(), kind_rank(
            old(self).substitution(),
            old(self).ranking(),
            a,
        ) + kind_rank(old(self).substitution(), old(self).ranking(), b), size(a) + size(b),
    {
        proof {
            self.lemma_unbound();
            lemma_vars_below_split(a, self.counter as nat);
            lemma_vars_below_split(b, self.counter as nat);
            lemma_submap_refl(self.subst@);
            assert(self.messages@.is_prefix_of(self.messages@));
        }
        let ghost subst0 = self.subst@;
        let ghost a_whole = a;
        let ghost b_whole = b;
        match (a, b) {
            (Kind::Var(var), Kind::Var(war)) if var.0 == war.0 => {
                proof {
                    lemma_agree_refl(apply(self.subst@, self.rank@, a_whole));
                }
            },
            (Kind::Var(var), b) => {
                match self.subst.get(&var.0) {
                    Some(bound) => {
                        let a = bound.clone();
                        proof {
                            lemma_bound_rank(self.subst@, self.rank@, var.0);
                        }
                        let ghost b0 = b;
                        self.unify(span, a, b);
                        proof {
                            assert(self.subst@.contains_key(var.0) && self.subst@[var.0] == a);
                            assert(apply(self.subst@, self.rank@, a_whole) == apply(
                                self.subst@,
                                self.rank@,
                                a,
                            ));
                        }
                        return;
                    },
                    None => {},
                }
                let ghost b0 = b;
                self.bind_var(span, var, b);
                proof {
                    if self.messages@ == old(self).messages@ {
                        assert(apply(self.subst@, self.rank@, a_whole) == apply(
                            self.subst@,
                            self.rank@,
                            b0,
                        ));
                        lemma_agree_refl(apply(self.subst@, self.rank@, b0));
                    }
                }
            },
            (a, Kind::Var(war)) => {
                match self.subst.get(&war.0) {
                    Some(bound) => {
                        let b = bound.clone();
                        proof {
                            lemma_bound_rank(self.subst@, self.rank@, war.0);
                        }
                        self.unify(span, a, b);
                        proof {
                            assert(self.subst@.contains_key(war.0) && self.subst@[war.0] == b);
                            assert(apply(self.subst@, self.rank@, b_whole) == apply(
                                self.subst@,
                                self.rank@,
                                b,
                            ));
                        }
                        return;
                    },
                    None => {},
                }
                let ghost a0 = a;
                self.bind_var(span, war, a);
                proof {
                    if self.messages@ == old(self).messages@ {
                        assert(apply(self.subst@, self.rank@, b_whole) == apply(
                            self.subst@,
                            self.rank@,
                            a0,
                        ));
                        lemma_agree_refl(apply(self.subst@, self.rank@, a0));
                    }
                }
            },
            (Kind::Invalid, _) | (_, Kind::Invalid) => {},
            (Kind::Type, Kind::Type) => {},
            (Kind::Function(a, b), Kind::Function(c, d)) | (
                Kind::Product(a, b),
                Kind::Product(c, d),
            ) => {
                self.unify(span, *a, *c);
                let ghost subst1 = self.subst@;
                let ghost messages1 = self.messages@;
                proof {
                    self.lemma_unbound();
                    if subst1.dom().len() == subst0.dom().len() {
                        assert(kind_rank(subst1, self.rank@, *b) <= kind_rank(
                            old(self).subst@,
                            old(self).rank@,
                            a_whole,
                        ));
                    }
                }
                let ghost rank1 = self.rank@;
                let ghost (a1, b1, c1, d1) = (*a, *b, *c, *d);
                self.unify(span, *b, *d);
                proof {
                    if self.messages@ == old(self).messages@ {
                        assert(messages1 == old(self).messages@) by {
                            assert(old(self).messages@.is_prefix_of(messages1));
                            assert(messages1.is_prefix_of(self.messages@));
                            assert(messages1 =~= old(self).messages@);
                        }
                        let (s1, s2, r2) = (subst1, self.subst@, self.rank@);
                        lemma_agree_apply(s2, r2, apply(s1, rank1, a1), apply(s1, rank1, c1));
                        lemma_apply_extend(s1, rank1, s2, r2, a1);
                        lemma_apply_extend(s1, rank1, s2, r2, c1);
                    }
                    lemma_submap_trans(subst0, subst1, self.subst@);
                    assert(old(self).messages@.is_prefix_of(self.messages@)) by {
                        assert(old(self).messages@.is_prefix_of(messages1));
                        assert(messages1.is_prefix_of(self.messages@));
                    }
                }
            },
            (expected, actual) => {
                let prettier = Prettier::new(&self.subst);
                proof {
                    prettier.lemma_rank(self.rank@);
                }
                let expected = prettier.pretty(&mut self.namer, &expected);
                let actual = prettier.pretty(&mut self.namer, &actual);
                self.messages.push(
                    Message { kind: MessageKind::IncompatibleKinds { wanted: expected, found: actual }, span },
                );
            },
        }
    }
}

} // verus!
