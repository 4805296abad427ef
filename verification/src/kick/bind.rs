use vstd::prelude::*;

use super::kinds::{lemma_submap_refl, lemma_submap_trans, lemma_vars_below_mono, lemma_vars_below_split, vars_below, Kind};
use super::tree::{pat_names, pat_size, type_size, Pat, PatNode};
use super::Kinder;

verus! {

broadcast use vstd::std_specs::hash::group_hash_axioms;

impl Kinder {
    /// Bind every name of a pattern to a fresh kind, and return the kind of
    /// the whole pattern.
    pub fn bind(&mut self, pat: &Pat) -> (kind: Kind)
        requires
            old(self).wf(),
            old(self).counter() + pat_size(*pat) <= usize::MAX,
            pat_names(*pat).no_duplicates(),
            forall|i: int|
                0 <= i < pat_names(*pat).len() ==> !old(self).context().contains_key(
                    #[trigger] pat_names(*pat)[i],
                ),
        ensures
            final(self).wf(),
            forall|name: usize|
                #[trigger] final(self).context().contains_key(name) <==> old(
                    self,
                ).context().contains_key(name) || pat_names(*pat).contains(name),
            old(self).context().submap_of(final(self).context()),
            old(self).substitution().submap_of(final(self).substitution()),
            old(self).messages().is_prefix_of(final(self).messages()),
            old(self).counter() <= final(self).counter() <= old(self).counter() + pat_size(*pat),
            vars_below(kind, final(self).counter()),
            pat.node matches PatNode::Name(x) ==> final(self).context().contains_key(x)
                && kind == final(self).context()[x],
        decreases pat,
    {
        let ghost ctx0 = self.context@;
        let ghost subst0 = self.subst@;
        let ghost msgs0 = self.messages@;
        let kind = match &pat.node {
            PatNode::Name(name) => {
                let var = self.fresh();
                assert(pat_names(*pat)[0] == *name);
                let previous = self.context.insert(*name, Kind::Var(var));
                proof {
                    lemma_vars_below_split(Kind::Var(var), self.counter as nat);
                    assert forall|n: usize| #[trigger] self.context@.contains_key(n) implies vars_below(
                        self.context@[n],
                        self.counter as nat,
                    ) by {
                        if n != *name {
                            assert(old(self).context@.contains_key(n));
                            lemma_vars_below_mono(
                                old(self).context@[n],
                                old(self).counter as nat,
                                self.counter as nat,
                            );
                        }
                    }
                    assert forall|n: usize| #[trigger] ctx0.dom().contains(n) implies self.context@.dom().contains(n)
                        && ctx0[n] == self.context@[n] by {
                        assert(n != *name);
                    }
                    lemma_submap_refl(self.subst@);
                    assert(msgs0.is_prefix_of(self.messages@));
                    assert forall|n: usize|
                        #[trigger] self.context@.contains_key(n) <==> ctx0.contains_key(n)
                            || pat_names(*pat).contains(n) by {
                        assert(pat_names(*pat) =~= seq![*name]);
                    }
                }
                Kind::Var(var)
            },
            PatNode::Tuple(a, b) => {
                proof {
                    assert(pat_names(*pat) == pat_names(**a) + pat_names(**b));
                    assert forall|i: int|
                        0 <= i < pat_names(**a).len() implies !self.context@.contains_key(
                            #[trigger] pat_names(**a)[i],
                        ) by {
                        assert(pat_names(**a)[i] == pat_names(*pat)[i]);
                    }
                    assert(pat_names(**a).no_duplicates()) by {
                        assert forall|i: int, j: int|
                            0 <= i < j < pat_names(**a).len() implies pat_names(**a)[i]
                            != pat_names(**a)[j] by {
                            assert(pat_names(**a)[i] == pat_names(*pat)[i]);
                            assert(pat_names(**a)[j] == pat_names(*pat)[j]);
                        }
                    }
                }
                let ka = self.bind(a);
                let ghost n_a = self.counter as nat;
                let ghost ctx1 = self.context@;
                let ghost subst1 = self.subst@;
                let ghost msgs1 = self.messages@;
                proof {
                    let na = pat_names(**a);
                    let nb = pat_names(**b);
                    assert forall|i: int|
                        0 <= i < nb.len() implies !self.context@.contains_key(#[trigger] nb[i]) by {
                        assert(nb[i] == pat_names(*pat)[na.len() + i]);
                        if na.contains(nb[i]) {
                            let j = choose|j: int| 0 <= j < na.len() && na[j] == nb[i];
                            assert(pat_names(*pat)[j] == nb[i]);
                        }
                    }
                    assert(nb.no_duplicates()) by {
                        assert forall|i: int, j: int| 0 <= i < j < nb.len() implies nb[i] != nb[j] by {
                            assert(nb[i] == pat_names(*pat)[na.len() + i]);
                            assert(nb[j] == pat_names(*pat)[na.len() + j]);
                        }
                    }
                }
                let kb = self.bind(b);
                proof {
                    lemma_vars_below_mono(ka, n_a, self.counter as nat);
                    lemma_submap_trans(ctx0, ctx1, self.context@);
                    lemma_submap_trans(subst0, subst1, self.subst@);
                    assert(msgs0.is_prefix_of(self.messages@)) by {
                        assert(msgs0.is_prefix_of(msgs1));
                        assert(msgs1.is_prefix_of(self.messages@));
                    }
                    assert forall|name: usize|
                        #[trigger] self.context@.contains_key(name) <==> ctx0.contains_key(name)
                            || pat_names(*pat).contains(name) by {
                        if pat_names(**a).contains(name) {
                            let j = choose|j: int| 0 <= j < pat_names(**a).len() && pat_names(**a)[j] == name;
                            assert(pat_names(*pat)[j] == name);
                        }
                        if pat_names(**b).contains(name) {
                            let j = choose|j: int| 0 <= j < pat_names(**b).len() && pat_names(**b)[j] == name;
                            assert(pat_names(*pat)[pat_names(**a).len() + j] == name);
                        }
                        if pat_names(*pat).contains(name) {
                            let j = choose|j: int| 0 <= j < pat_names(*pat).len() && pat_names(*pat)[j] == name;
                            if j < pat_names(**a).len() {
                                assert(pat_names(**a)[j] == name);
                            } else {
                                assert(pat_names(**b)[j - pat_names(**a).len()] == name);
                            }
                        }
                    }
                }
                let kind = Kind::Product(Box::new(ka), Box::new(kb));
                proof {
                    lemma_vars_below_split(kind, self.counter as nat);
                }
                kind
            },
            PatNode::Anno(a, ty) => {
                let kind = self.kind_from_type(ty);
                let ghost ctx1 = self.context@;
                let ghost subst1 = self.subst@;
                let ghost msgs1 = self.messages@;
                let ghost n1 = self.counter as nat;
                let ka = self.bind(a);
                proof {
                    lemma_vars_below_mono(kind, n1, self.counter as nat);
                }
                let ghost subst2 = self.subst@;
                let ghost msgs2 = self.messages@;
                let ghost ctx2 = self.context@;
                self.unify(pat.span, kind.clone(), ka);
                proof {
                    lemma_submap_trans(ctx0, ctx2, self.context@);
                    lemma_submap_trans(subst0, subst1, subst2);
                    lemma_submap_trans(subst0, subst2, self.subst@);
                    assert(msgs0.is_prefix_of(self.messages@)) by {
                        assert(msgs0.is_prefix_of(msgs1));
                        assert(msgs1.is_prefix_of(msgs2));
                        assert(msgs2.is_prefix_of(self.messages@));
                    }
                }
                kind
            },
            PatNode::Wildcard | PatNode::Invalid => {
                let var = self.fresh();
                proof {
                    lemma_vars_below_split(Kind::Var(var), self.counter as nat);
                    lemma_submap_refl(self.subst@);
                    lemma_submap_refl(self.context@);
                    assert(msgs0.is_prefix_of(self.messages@));
                    assert(pat_names(*pat) =~= Seq::<usize>::empty());
                }
                Kind::Var(var)
            },
        };
        kind
    }
}

} // verus!
