use std::collections::HashMap;
use vstd::prelude::*;

use super::kinds::{
    kind_rank, lemma_bound_rank, lemma_deep_below, lemma_vars_below_split, occurs_deep, occurs_in, ranked, vars_below, Kind,
    UniVar,
};
use super::names::{var_name, Namer};

verus! {

broadcast use vstd::std_specs::hash::group_hash_axioms;

/// `k` written out with every bound variable replaced by what it is bound to
/// and every other variable by its name in `names`.
pub open spec fn render(
    subst: Map<usize, Kind>,
    rank: Map<usize, nat>,
    names: Map<usize, Seq<char>>,
    k: Kind,
) -> Seq<char>
    decreases kind_rank(subst, rank, k), k,
    when ranked(subst, rank)
    via render_decreases
{
    match k {
        Kind::Type => seq!['t', 'y', 'p', 'e'],
        Kind::Invalid => seq!['<', 'e', 'r', 'r', 'o', 'r', '>'],
        Kind::Function(a, b) => render(subst, rank, names, *a) + seq![' ', '-', '>', ' '] + render(
            subst,
            rank,
            names,
            *b,
        ),
        Kind::Product(a, b) => render(subst, rank, names, *a) + seq![' ', '*', ' '] + render(
            subst,
            rank,
            names,
            *b,
        ),
        Kind::Var(v) => if subst.contains_key(v.0) {
            render(subst, rank, names, subst[v.0])
        } else {
            names[v.0]
        },
    }
}

#[via_fn]
proof fn render_decreases(
    subst: Map<usize, Kind>,
    rank: Map<usize, nat>,
    names: Map<usize, Seq<char>>,
    k: Kind,
) {
    if let Kind::Var(w) = k {
        if subst.contains_key(w.0) {
            lemma_bound_rank(subst, rank, w.0);
        }
    }
}

/// The names and count of a namer after it has named, from left to right,
/// the variables left in `k` once bound variables are replaced by what they
/// are bound to: each variable not named before gets the next name.
pub open spec fn named_after(
    subst: Map<usize, Kind>,
    rank: Map<usize, nat>,
    names: Map<usize, Seq<char>>,
    count: nat,
    k: Kind,
) -> (Map<usize, Seq<char>>, nat)
    decreases kind_rank(subst, rank, k), k,
    when ranked(subst, rank)
    via named_after_decreases
{
    match k {
        Kind::Function(a, b) | Kind::Product(a, b) => {
            let (names1, count1) = named_after(subst, rank, names, count, *a);
            named_after(subst, rank, names1, count1, *b)
        },
        Kind::Var(v) => if subst.contains_key(v.0) {
            named_after(subst, rank, names, count, subst[v.0])
        } else if names.contains_key(v.0) {
            (names, count)
        } else {
            (names.insert(v.0, var_name(count)), count + 1)
        },
        _ => (names, count),
    }
}

#[via_fn]
proof fn named_after_decreases(
    subst: Map<usize, Kind>,
    rank: Map<usize, nat>,
    names: Map<usize, Seq<char>>,
    count: nat,
    k: Kind,
) {
    if let Kind::Var(w) = k {
        if subst.contains_key(w.0) {
            lemma_bound_rank(subst, rank, w.0);
        }
    }
}

/// How many variables remain in `k` once bound variables are replaced by
/// what they are bound to, counted with repetition.
pub open spec fn free_count(subst: Map<usize, Kind>, rank: Map<usize, nat>, k: Kind) -> nat
    decreases kind_rank(subst, rank, k), k,
    when ranked(subst, rank)
    via free_count_decreases
{
    match k {
        Kind::Function(a, b) | Kind::Product(a, b) => free_count(subst, rank, *a) + free_count(
            subst,
            rank,
            *b,
        ),
        Kind::Var(v) => if subst.contains_key(v.0) {
            free_count(subst, rank, subst[v.0])
        } else {
            1
        },
        _ => 0,
    }
}

#[via_fn]
proof fn free_count_decreases(subst: Map<usize, Kind>, rank: Map<usize, nat>, k: Kind) {
    if let Kind::Var(w) = k {
        if subst.contains_key(w.0) {
            lemma_bound_rank(subst, rank, w.0);
        }
    }
}

/// Whether every variable left in `k` after substitution is named.
pub open spec fn all_named(
    subst: Map<usize, Kind>,
    rank: Map<usize, nat>,
    names: Map<usize, Seq<char>>,
    k: Kind,
) -> bool
    decreases kind_rank(subst, rank, k), k,
    when ranked(subst, rank)
    via all_named_decreases
{
    match k {
        Kind::Function(a, b) | Kind::Product(a, b) => all_named(subst, rank, names, *a)
            && all_named(subst, rank, names, *b),
        Kind::Var(v) => if subst.contains_key(v.0) {
            all_named(subst, rank, names, subst[v.0])
        } else {
            names.contains_key(v.0)
        },
        _ => true,
    }
}

#[via_fn]
proof fn all_named_decreases(
    subst: Map<usize, Kind>,
    rank: Map<usize, nat>,
    names: Map<usize, Seq<char>>,
    k: Kind,
) {
    if let Kind::Var(w) = k {
        if subst.contains_key(w.0) {
            lemma_bound_rank(subst, rank, w.0);
        }
    }
}

/// Naming more variables keeps what was named, and how it renders.
proof fn lemma_names_grow(
    subst: Map<usize, Kind>,
    rank: Map<usize, nat>,
    names: Map<usize, Seq<char>>,
    more: Map<usize, Seq<char>>,
    k: Kind,
)
    requires
        ranked(subst, rank),
        names.submap_of(more),
        all_named(subst, rank, names, k),
    ensures
        all_named(subst, rank, more, k),
        render(subst, rank, names, k) == render(subst, rank, more, k),
    decreases kind_rank(subst, rank, k), k,
{
    match k {
        Kind::Function(a, b) | Kind::Product(a, b) => {
            lemma_names_grow(subst, rank, names, more, *a);
            lemma_names_grow(subst, rank, names, more, *b);
        },
        Kind::Var(v) => {
            if subst.contains_key(v.0) {
                lemma_bound_rank(subst, rank, v.0);
                lemma_names_grow(subst, rank, names, more, subst[v.0]);
            }
        },
        _ => {},
    }
}

proof fn lemma_submap_trans(
    a: Map<usize, Seq<char>>,
    b: Map<usize, Seq<char>>,
    c: Map<usize, Seq<char>>,
)
    requires
        a.submap_of(b),
        b.submap_of(c),
    ensures
        a.submap_of(c),
{
    assert forall|k: usize| #[trigger] a.dom().contains(k) implies c.dom().contains(k) && a[k]
        == c[k] by {
        assert(a.dom().contains(k) && b.dom().contains(k));
        assert(b.dom().contains(k) && c.dom().contains(k));
    }
}

/// Every variable bound by `subst` or mentioned in what it binds is below `n`.
pub open spec fn subst_below(subst: Map<usize, Kind>, n: nat) -> bool {
    forall|v: usize| #[trigger] subst.contains_key(v) ==> v < n && vars_below(subst[v], n)
}

/// Every variable named is below `n`.
pub open spec fn names_below(names: Map<usize, Seq<char>>, n: nat) -> bool {
    forall|v: usize| #[trigger] names.contains_key(v) ==> v < n
}

/// A finite set of numbers below `n` has at most `n` elements.
pub proof fn lemma_bounded_set_len(s: Set<usize>, n: nat)
    requires
        s.finite(),
        forall|x: usize| #[trigger] s.contains(x) ==> x < n,
    ensures
        s.len() <= n,
    decreases n,
{
    if n == 0 {
        if s.len() > 0 {
            let x = s.choose();
            assert(s.contains(x));
        }
    } else {
        let t = s.remove((n - 1) as usize);
        assert forall|x: usize| #[trigger] t.contains(x) implies x < n - 1 by {
            assert(s.contains(x));
        }
        lemma_bounded_set_len(t, (n - 1) as nat);
    }
}

/// Writes kinds out for messages, following a substitution.
pub struct Prettier<'a> {
    subst: &'a HashMap<usize, Kind>,
}

impl<'a> Prettier<'a> {
    /// The substitution followed.
    pub closed spec fn subst(self) -> Map<usize, Kind> {
        self.subst@
    }

    /// A ranking of the substitution, if it is acyclic.
    pub closed spec fn rank(self) -> Map<usize, nat> {
        choose|rank: Map<usize, nat>| ranked(self.subst@, rank)
    }

    /// An acyclic substitution is ranked by `rank`.
    pub proof fn lemma_rank(self, rank: Map<usize, nat>)
        requires
            ranked(self.subst(), rank),
        ensures
            ranked(self.subst(), self.rank()),
    {
    }

    pub fn new(subst: &'a HashMap<usize, Kind>) -> (prettier: Self)
        ensures
            prettier.subst() == subst@,
    {
        Self { subst }
    }

    /// Write out `kind`, replacing bound variables by what they are bound to
    /// and naming the others with `namer`. The variables involved must be
    /// numbered below some bound, which keeps the namer from running out.
    pub fn pretty(&self, namer: &mut Namer, kind: &Kind) -> (text: String)
        requires
            ranked(self.subst(), self.rank()),
            old(namer).wf(),
            exists|n: nat|
                n <= usize::MAX && subst_below(self.subst(), n) && vars_below(*kind, n)
                    && names_below(old(namer).named(), n),
        ensures
            final(namer).wf(),
            old(namer).named().submap_of(final(namer).named()),
            forall|n: nat|
                n <= usize::MAX && subst_below(self.subst(), n) && vars_below(*kind, n)
                    && names_below(old(namer).named(), n) ==> names_below(final(namer).named(), n),
            all_named(self.subst(), self.rank(), final(namer).named(), *kind),
            text@ == render(self.subst(), self.rank(), final(namer).named(), *kind),
            (final(namer).named(), final(namer).count()) == named_after(
                self.subst(),
                self.rank(),
                old(namer).named(),
                old(namer).count(),
                *kind,
            ),
            old(namer).count() <= final(namer).count(),
            forall|v: usize|
                #[trigger] final(namer).named().contains_key(v) && !old(namer).named().contains_key(v)
                    ==> exists|m: nat|
                    old(namer).count() <= m < final(namer).count() && final(namer).named()[v]
                        == #[trigger] var_name(m),
    {
        let ghost n = choose|n: nat|
            n <= usize::MAX && subst_below(self.subst(), n) && vars_below(*kind, n)
                && names_below(old(namer).named(), n);
        let ghost names0 = namer.named();
        let text = self.pretty_bounded(namer, kind, Ghost(n));
        proof {
            assert forall|m: nat|
                m <= usize::MAX && subst_below(self.subst(), m) && vars_below(*kind, m)
                    && names_below(names0, m) implies names_below(namer.named(), m) by {
                assert forall|v: usize| #[trigger] namer.named().contains_key(v) implies v < m by {
                    if !names0.contains_key(v) {
                        lemma_deep_below(self.subst(), self.rank(), v, *kind, m);
                    }
                }
            }
        }
        text
    }

    /// Write out `kind`, replacing bound variables by what they are bound to
    /// and naming the others with `namer`.
    fn pretty_bounded(&self, namer: &mut Namer, kind: &Kind, bound: Ghost<nat>) -> (text: String)
        requires
            ranked(self.subst(), self.rank()),
            old(namer).wf(),
            bound@ <= usize::MAX,
            subst_below(self.subst(), bound@),
            vars_below(*kind, bound@),
            names_below(old(namer).named(), bound@),
        ensures
            final(namer).wf(),
            old(namer).named().submap_of(final(namer).named()),
            names_below(final(namer).named(), bound@),
            forall|v: usize|
                #[trigger] final(namer).named().contains_key(v) ==> old(namer).named().contains_key(v)
                    || (occurs_deep(self.subst(), self.rank(), v, *kind) && !self.subst().contains_key(v)),
            all_named(self.subst(), self.rank(), final(namer).named(), *kind),
            text@ == render(self.subst(), self.rank(), final(namer).named(), *kind),
            (final(namer).named(), final(namer).count()) == named_after(
                self.subst(),
                self.rank(),
                old(namer).named(),
                old(namer).count(),
                *kind,
            ),
            old(namer).count() <= final(namer).count(),
            forall|v: usize|
                #[trigger] final(namer).named().contains_key(v) && !old(namer).named().contains_key(v)
                    ==> exists|m: nat|
                    old(namer).count() <= m < final(namer).count() && final(namer).named()[v]
                        == #[trigger] var_name(m),
        decreases kind_rank(self.subst(), self.rank(), *kind), *kind,
    {
        let ghost names0 = namer.named();
        proof {
            lemma_vars_below_split(*kind, bound@);
        }
        let text = match kind {
            Kind::Type => {
                let text = String::from_str("type");
                assert(names0.submap_of(namer.named()));
                proof {
                    reveal_strlit("type");
                    assert(text@ =~= seq!['t', 'y', 'p', 'e']);
                }
                text
            },
            Kind::Invalid => {
                let text = String::from_str("<error>");
                assert(names0.submap_of(namer.named()));
                proof {
                    reveal_strlit("<error>");
                    assert(text@ =~= seq!['<', 'e', 'r', 'r', 'o', 'r', '>']);
                }
                text
            },
            Kind::Function(a, b) | Kind::Product(a, b) => {
                let ghost names0 = namer.named();
                let ghost c0 = namer.count();
                let a_text = self.pretty_bounded(namer, a, bound);
                let ghost names1 = namer.named();
                let ghost c1 = namer.count();
                let b_text = self.pretty_bounded(namer, b, bound);
                proof {
                    assert forall|v: usize|
                        #[trigger] namer.named().contains_key(v) && !names0.contains_key(v)
                            implies exists|m: nat|
                            c0 <= m < namer.count() && namer.named()[v] == #[trigger] var_name(m) by {
                        if names1.contains_key(v) {
                            let m = choose|m: nat| c0 <= m < c1 && names1[v] == #[trigger] var_name(m);
                            assert(namer.named()[v] == names1[v]);
                            assert(c0 <= m < namer.count() && namer.named()[v] == var_name(m));
                        } else {
                            let m = choose|m: nat|
                                c1 <= m < namer.count() && namer.named()[v] == #[trigger] var_name(m);
                            assert(c0 <= m < namer.count() && namer.named()[v] == var_name(m));
                        }
                    }
                    lemma_names_grow(self.subst(), self.rank(), names1, namer.named(), **a);
                    lemma_submap_trans(names0, names1, namer.named());
                }
                let is_function = match kind {
                    Kind::Function(..) => true,
                    _ => false,
                };
                let sep = if is_function {
                    " -> "
                } else {
                    " * "
                };
                proof {
                    reveal_strlit(" -> ");
                    reveal_strlit(" * ");
                    if is_function {
                        assert(sep@ =~= seq![' ', '-', '>', ' ']);
                    } else {
                        assert(sep@ =~= seq![' ', '*', ' ']);
                    }
                }
                let text = a_text.concat(sep).concat(b_text.as_str());
                assert(names0.submap_of(namer.named()));
                text
            },
            Kind::Var(var) => {
                match self.subst.get(&var.0) {
                    Some(bound_kind) => {
                        proof {
                            lemma_bound_rank(self.subst(), self.rank(), var.0);
                        }
                        let t = self.pretty_bounded(namer, bound_kind, bound);
                        assert(names0.submap_of(namer.named()));
                        t
                    },
                    None => {
                        proof {
                            assert(occurs_in(var.0, *kind));
                            namer.lemma_count();
                            if !namer.named().contains_key(var.0) {
                                lemma_bounded_set_len(namer.named().dom().insert(var.0), bound@);
                            }
                        }
                        let ghost c0 = namer.count();
                        let name = namer.pretty(*var);
                        assert(names0.submap_of(namer.named()));
                        proof {
                            if !names0.contains_key(var.0) {
                                assert(c0 <= c0 < namer.count() && namer.named()[var.0] == var_name(c0));
                            }
                        }
                        name
                    },
                }
            },
        };
        assert(names0.submap_of(namer.named()));
        text
    }
}

} // verus!
