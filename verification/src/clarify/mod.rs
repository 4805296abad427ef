//! Figuring out the instances referred to by a trait is done by assigning
//! each trait an "instance variable" and solving for the variables through
//! unification, generating the appropriate equations while traversing the
//! tree.

pub mod instanced;

use vstd::prelude::*;

use self::instanced::{AbstractInstance, Instance, InstanceVar, Template, Type};
use crate::messages::{msg, Message, MessageKind};
use crate::source::Span;

verus! {

/// Whether `i` may be stored in a substitution of `n` variables.
pub open spec fn storable(i: Instance, n: nat) -> bool {
    match i {
        Instance::Parameter(_) => false,
        Instance::Var(w) => w.0 < n,
        Instance::Concrete(_) => true,
    }
}

/// Whether every binding of `subst` leads to a variable of lower `rank`, so
/// that following bindings always ends.
pub open spec fn ranked(subst: Seq<Option<Instance>>, rank: Seq<nat>) -> bool {
    &&& subst.len() <= usize::MAX
    &&& rank.len() == subst.len()
    &&& forall|v: int|
        0 <= v < subst.len() && (#[trigger] subst[v]) is Some ==> {
            let i = subst[v].unwrap();
            &&& storable(i, subst.len())
            &&& (i matches Instance::Var(w) ==> rank[w.0 as int] < rank[v])
        }
}

/// The measure under which following a binding decreases.
pub open spec fn height(rank: Seq<nat>, i: Instance) -> nat {
    match i {
        Instance::Var(v) => if v.0 < rank.len() {
            rank[v.0 as int] + 1
        } else {
            0
        },
        _ => 0,
    }
}

/// What `i` stands for once every bound variable is replaced by what it is
/// bound to.
pub open spec fn resolve(subst: Seq<Option<Instance>>, rank: Seq<nat>, i: Instance) -> Instance
    decreases height(rank, i),
{
    match i {
        Instance::Var(v) => if v.0 < subst.len() && v.0 < rank.len() && subst[v.0 as int] is Some {
            let next = subst[v.0 as int].unwrap();
            if height(rank, next) < height(rank, i) {
                resolve(subst, rank, next)
            } else {
                i
            }
        } else {
            i
        },
        _ => i,
    }
}

/// The ranking after binding the unbound `u` to `r`: the variables that
/// resolve to `u` move above `r`.
pub open spec fn rebind_rank(
    subst: Seq<Option<Instance>>,
    rank: Seq<nat>,
    u: int,
    r: Instance,
) -> Seq<nat> {
    let r0: nat = match r {
        Instance::Var(w) => rank[w.0 as int] + 1,
        _ => 0,
    };
    Seq::new(
        rank.len(),
        |x: int|
            if x == u {
                r0
            } else if resolve(subst, rank, Instance::Var(InstanceVar(x as usize))) == Instance::Var(
                InstanceVar(u as usize),
            ) {
                rank[x] + r0 + 1
            } else {
                rank[x]
            },
    )
}

proof fn lemma_resolve_storable(subst: Seq<Option<Instance>>, rank: Seq<nat>, i: Instance)
    requires
        ranked(subst, rank),
        storable(i, subst.len()),
    ensures
        storable(resolve(subst, rank, i), subst.len()),
        resolve(subst, rank, i) matches Instance::Var(v) ==> subst[v.0 as int] is None,
    decreases height(rank, i),
{
    if let Instance::Var(v) = i {
        if subst[v.0 as int] is Some {
            lemma_resolve_storable(subst, rank, subst[v.0 as int].unwrap());
        }
    }
}

/// Binding `u` to `r` changes nothing of what does not resolve to `u`.
proof fn lemma_bind_other(
    subst: Seq<Option<Instance>>,
    rank: Seq<nat>,
    u: int,
    r: Instance,
    i: Instance,
)
    requires
        ranked(subst, rank),
        0 <= u < subst.len(),
        subst[u] is None,
        storable(r, subst.len()),
        resolve(subst, rank, r) != Instance::Var(InstanceVar(u as usize)),
        storable(i, subst.len()),
        resolve(subst, rank, i) != Instance::Var(InstanceVar(u as usize)),
    ensures
        resolve(subst.update(u, Some(r)), rebind_rank(subst, rank, u, r), i) == resolve(
            subst,
            rank,
            i,
        ),
    decreases height(rank, i),
{
    let s2 = subst.update(u, Some(r));
    let r2 = rebind_rank(subst, rank, u, r);
    if let Instance::Var(x) = i {
        let xi = x.0 as int;
        assert(xi != u);
        if subst[xi] is Some {
            let j = subst[xi].unwrap();
            assert(resolve(subst, rank, i) == resolve(subst, rank, j));
            if let Instance::Var(y) = j {
                assert(y.0 as int != u) by {
                    if y.0 as int == u {
                        assert(resolve(subst, rank, j) == j);
                    }
                }
                assert(resolve(subst, rank, Instance::Var(InstanceVar(y.0))) == resolve(subst, rank, j));
                assert(r2[y.0 as int] == rank[y.0 as int]);
            }
            assert(resolve(subst, rank, Instance::Var(InstanceVar(x.0))) == resolve(subst, rank, i));
            assert(r2[xi] == rank[xi]);
            lemma_bind_other(subst, rank, u, r, j);
        }
    }
}

/// Binding `u` to `r` makes what resolved to `u` resolve to what `r`
/// resolves to.
proof fn lemma_bind_through(
    subst: Seq<Option<Instance>>,
    rank: Seq<nat>,
    u: int,
    r: Instance,
    i: Instance,
)
    requires
        ranked(subst, rank),
        0 <= u < subst.len(),
        subst[u] is None,
        storable(r, subst.len()),
        resolve(subst, rank, r) != Instance::Var(InstanceVar(u as usize)),
        storable(i, subst.len()),
        resolve(subst, rank, i) == Instance::Var(InstanceVar(u as usize)),
    ensures
        resolve(subst.update(u, Some(r)), rebind_rank(subst, rank, u, r), i) == resolve(
            subst,
            rank,
            r,
        ),
    decreases height(rank, i),
{
    let s2 = subst.update(u, Some(r));
    let r2 = rebind_rank(subst, rank, u, r);
    let x = i->Var_0;
    let xi = x.0 as int;
    if xi == u {
        lemma_bind_other(subst, rank, u, r, r);
        if let Instance::Var(w) = r {
            lemma_resolve_storable(subst, rank, r);
            assert(resolve(subst, rank, Instance::Var(InstanceVar(w.0))) == resolve(subst, rank, r));
            assert(r2[w.0 as int] == rank[w.0 as int]);
        }
    } else {
        let j = subst[xi].unwrap();
        assert(resolve(subst, rank, i) == resolve(subst, rank, j));
        let y = j->Var_0;
        let yi = y.0 as int;
        assert(resolve(subst, rank, Instance::Var(InstanceVar(x.0))) == resolve(subst, rank, i));
        if yi != u {
            assert(resolve(subst, rank, Instance::Var(InstanceVar(y.0))) == resolve(subst, rank, j));
        }
        lemma_bind_through(subst, rank, u, r, j);
    }
}

/// Binding the unbound `u` to `r`, which does not resolve to `u`, keeps the
/// substitution ranked.
proof fn lemma_bind_ranked(subst: Seq<Option<Instance>>, rank: Seq<nat>, u: int, r: Instance)
    requires
        ranked(subst, rank),
        0 <= u < subst.len(),
        subst[u] is None,
        storable(r, subst.len()),
        resolve(subst, rank, r) != Instance::Var(InstanceVar(u as usize)),
    ensures
        ranked(subst.update(u, Some(r)), rebind_rank(subst, rank, u, r)),
{
    let s2 = subst.update(u, Some(r));
    let r2 = rebind_rank(subst, rank, u, r);
    assert forall|v: int| 0 <= v < s2.len() && (#[trigger] s2[v]) is Some implies {
        let i = s2[v].unwrap();
        &&& storable(i, s2.len())
        &&& (i matches Instance::Var(w) ==> r2[w.0 as int] < r2[v])
    } by {
        let i = s2[v].unwrap();
        if v == u {
            if let Instance::Var(w) = r {
                assert(resolve(subst, rank, Instance::Var(InstanceVar(w.0))) == resolve(subst, rank, r));
                assert(w.0 as int != u) by {
                    if w.0 as int == u {
                        assert(resolve(subst, rank, r) == r);
                    }
                }
            }
        } else {
            assert(i == subst[v].unwrap());
            if let Instance::Var(w) = i {
                let vi = Instance::Var(InstanceVar(v as usize));
                assert(resolve(subst, rank, vi) == resolve(subst, rank, i));
                if w.0 as int != u {
                    assert(resolve(subst, rank, Instance::Var(InstanceVar(w.0))) == resolve(
                        subst,
                        rank,
                        i,
                    ));
                } else {
                    assert(resolve(subst, rank, i) == i);
                }
            }
        }
    }
}

/// Solves instance variables by unification.
pub struct Clarifier {
    substitution: Vec<Option<Instance>>,
    messages: Vec<Message>,
    rank: Ghost<Seq<nat>>,
}

impl Clarifier {
    /// What each variable is bound to, if anything.
    pub closed spec fn subst(self) -> Seq<Option<Instance>> {
        self.substitution@
    }

    /// The messages reported so far.
    pub closed spec fn messages(self) -> Seq<Message> {
        self.messages@
    }

    pub closed spec fn wf(self) -> bool {
        ranked(self.substitution@, self.rank@)
    }

    /// The ranks under which following bindings ends.
    pub closed spec fn ranks(self) -> Seq<nat> {
        self.rank@
    }

    /// What `i` stands for under the substitution.
    pub closed spec fn resolved(self, i: Instance) -> Instance {
        resolve(self.substitution@, self.rank@, i)
    }

    pub fn new() -> (c: Self)
        ensures
            c.wf(),
            c.subst().len() == 0,
            c.messages().len() == 0,
    {
        Clarifier { substitution: Vec::new(), messages: Vec::new(), rank: Ghost(Seq::empty()) }
    }

    /// Take the messages reported so far.
    pub fn take_messages(&mut self) -> (messages: Vec<Message>)
        ensures
            messages@ == old(self).messages(),
            final(self).messages().len() == 0,
            final(self).subst() == old(self).subst(),
            final(self).wf() == old(self).wf(),
            forall|i: Instance| #[trigger] final(self).resolved(i) == old(self).resolved(i),
    {
        let mut messages = Vec::new();
        std::mem::swap(&mut messages, &mut self.messages);
        messages
    }

    /// A new, unbound instance variable.
    pub fn fresh_instance_var(&mut self) -> (var: InstanceVar)
        requires
            old(self).wf(),
            old(self).subst().len() < usize::MAX,
        ensures
            final(self).wf(),
            var.0 == old(self).subst().len(),
            final(self).subst() == old(self).subst().push(None),
            final(self).messages() == old(self).messages(),
            forall|i: Instance|
                storable(i, old(self).subst().len()) ==> #[trigger] final(self).resolved(i) == old(self).resolved(i),
    {
        let var = InstanceVar(self.substitution.len());
        self.substitution.push(None);
        proof {
            let old_rank = self.rank@;
            self.rank@ = self.rank@.push(0);
            assert forall|i: Instance| storable(i, old(self).subst().len()) implies #[trigger] self.resolved(i)
                == old(self).resolved(i) by {
                lemma_resolve_extend(old(self).subst(), old_rank, i);
            }
        }
        var
    }

    /// What `i` stands for under the substitution.
    fn resolve_instance(&self, i: Instance) -> (r: Instance)
        requires
            self.wf(),
            storable(i, self.subst().len()),
        ensures
            r == self.resolved(i),
        decreases height(self.rank@, i),
    {
        match i {
            Instance::Var(v) => match self.substitution[v.0] {
                Some(next) => self.resolve_instance(next),
                None => i,
            },
            _ => i,
        }
    }

    /// Whether `var` is what `instance` stands for.
    fn occurs(&self, var: &InstanceVar, instance: &Instance) -> (r: bool)
        requires
            self.wf(),
            storable(*instance, self.subst().len()),
        ensures
            r == (self.resolved(*instance) == Instance::Var(*var)),
    {
        match self.resolve_instance(*instance) {
            Instance::Concrete(_) => false,
            Instance::Var(v) => v == *var,
            Instance::Parameter(_) => false,
        }
    }

    /// Equate two instances, binding a variable where one stands for an
    /// unbound variable. A variable equated with what stands for itself is
    /// reported as a recursive instance, two different concrete instances
    /// as incompatible.
    pub fn equate_instances(&mut self, at: Span, left: Instance, right: Instance)
        requires
            old(self).wf(),
            storable(left, old(self).subst().len()),
            storable(right, old(self).subst().len()),
        ensures
            final(self).wf(),
            final(self).subst().len() == old(self).subst().len(),
            ({
                let a = old(self).resolved(left);
                let b = old(self).resolved(right);
                if a is Var && a == b {
                    final(self).messages() == old(self).messages().push(
                        msg(MessageKind::RecursiveInstance, at),
                    ) && final(self).subst() == old(self).subst()
                } else if a is Concrete && b is Concrete && a != b {
                    final(self).messages() == old(self).messages().push(
                        msg(MessageKind::IncompatibleInstances, at),
                    ) && final(self).subst() == old(self).subst()
                } else {
                    &&& final(self).messages() == old(self).messages()
                    &&& final(self).resolved(left) == final(self).resolved(right)
                    &&& final(self).subst() == if a is Var {
                        old(self).subst().update(a->Var_0.0 as int, Some(right))
                    } else if b is Var {
                        old(self).subst().update(b->Var_0.0 as int, Some(a))
                    } else {
                        old(self).subst()
                    }
                }
            }),
            forall|i: Instance|
                storable(i, old(self).subst().len()) && old(self).resolved(i) != old(self).resolved(
                    left,
                ) && old(self).resolved(i) != old(self).resolved(right) ==> #[trigger] final(self).resolved(i) == old(self).resolved(i),
        decreases height(old(self).ranks(), left) + height(old(self).ranks(), right),
    {
        proof {
            lemma_resolve_storable(self.subst(), self.rank@, left);
            lemma_resolve_storable(self.subst(), self.rank@, right);
        }
        match (left, right) {
            (Instance::Concrete(i), Instance::Concrete(j)) => {
                if i != j {
                    self.messages.push(Message { kind: MessageKind::IncompatibleInstances, span: at });
                }
            },
            (Instance::Var(v), i) => {
                match self.substitution[v.0] {
                    Some(bound) => {
                        proof {
                            assert(self.resolved(left) == self.resolved(bound));
                        }
                        self.equate_instances(at, bound, i);
                    },
                    None => self.bind_or_report(at, v, i),
                }
            },
            (i, Instance::Var(v)) => {
                match self.substitution[v.0] {
                    Some(bound) => {
                        proof {
                            assert(self.resolved(right) == self.resolved(bound));
                        }
                        self.equate_instances(at, bound, i);
                        proof {
                            assert(self.resolved(right) == self.resolved(bound));
                        }
                    },
                    None => self.bind_or_report(at, v, i),
                }
            },
            _ => {},
        }
    }

    /// Bind the unbound `v` to `i`, unless `i` stands for `v` itself, which
    /// is reported as a recursive instance.
    fn bind_or_report(&mut self, at: Span, v: InstanceVar, i: Instance)
        requires
            old(self).wf(),
            v.0 < old(self).subst().len(),
            old(self).subst()[v.0 as int] is None,
            storable(i, old(self).subst().len()),
        ensures
            final(self).wf(),
            if old(self).resolved(i) == Instance::Var(v) {
                &&& final(self).messages() == old(self).messages().push(
                    msg(MessageKind::RecursiveInstance, at),
                )
                &&& final(self).subst() == old(self).subst()
                &&& forall|j: Instance| #[trigger] final(self).resolved(j) == old(self).resolved(j)
            } else {
                &&& final(self).messages() == old(self).messages()
                &&& final(self).subst() == old(self).subst().update(v.0 as int, Some(i))
                &&& forall|j: Instance|
                    storable(j, old(self).subst().len()) ==> #[trigger] final(self).resolved(j)
                        == if old(self).resolved(j) == Instance::Var(v) {
                        old(self).resolved(i)
                    } else {
                        old(self).resolved(j)
                    }
            },
    {
        if !self.occurs(&v, &i) {
            let ghost subst = self.substitution@;
            let ghost rank = self.rank@;
            proof {
                lemma_bind_ranked(subst, rank, v.0 as int, i);
            }
            self.substitution.set(v.0, Some(i));
            proof {
                self.rank@ = rebind_rank(subst, rank, v.0 as int, i);
                assert forall|j: Instance| storable(j, subst.len()) implies #[trigger] self.resolved(j)
                    == if resolve(subst, rank, j) == Instance::Var(v) {
                    resolve(subst, rank, i)
                } else {
                    resolve(subst, rank, j)
                } by {
                    if resolve(subst, rank, j) == Instance::Var(v) {
                        lemma_bind_through(subst, rank, v.0 as int, i, j);
                    } else {
                        lemma_bind_other(subst, rank, v.0 as int, i, j);
                    }
                }
            }
        } else {
            self.messages.push(Message { kind: MessageKind::RecursiveInstance, span: at });
        }
    }

    /// Unify two types; only traits carry instances to equate.
    pub fn unify(&mut self, at: Span, left: Type, right: Type)
        requires
            old(self).wf(),
            unifiable(left, right),
            left matches Type::Trait { instance } ==> storable(instance, old(self).subst().len()),
            right matches Type::Trait { instance } ==> storable(instance, old(self).subst().len()),
        ensures
            final(self).wf(),
            (left is Trait && right is Trait) || (final(self).subst() == old(self).subst()
                && final(self).messages() == old(self).messages()),
            left is Trait && right is Trait ==> {
                let a = old(self).resolved(left->instance);
                let b = old(self).resolved(right->instance);
                &&& (a is Var && a == b) ==> final(self).messages() == old(self).messages().push(
                    msg(MessageKind::RecursiveInstance, at),
                )
                &&& (a is Concrete && b is Concrete && a != b) ==> final(self).messages() == old(self).messages().push(msg(MessageKind::IncompatibleInstances, at))
                &&& !(a is Var && a == b) && !(a is Concrete && b is Concrete && a != b) ==> final(self).messages() == old(self).messages() && final(self).resolved(left->instance)
                    == final(self).resolved(right->instance)
            },
    {
        match (left, right) {
            (Type::Trait { instance: i }, Type::Trait { instance: j }) => {
                self.equate_instances(at, i, j);
            },
            _ => {},
        }
    }

    /// A copy of `ty` where each parameter of `map` becomes its variable
    /// (the last one listed for it) and each variable what it is bound to.
    pub fn instantiate_type(&self, map: &Vec<(AbstractInstance, InstanceVar)>, ty: Type) -> (r: Type)
        requires
            ty matches Type::Trait { instance: Instance::Var(v) } ==> v.0 < self.subst().len()
                && self.subst()[v.0 as int] is Some,
        ensures
            r == instantiated(self.subst(), map@, ty),
    {
        match ty {
            Type::Trait { instance } => {
                let instance = match instance {
                    Instance::Parameter(p) => match lookup_last(map, p) {
                        Some(var) => Instance::Var(var),
                        None => Instance::Parameter(p),
                    },
                    Instance::Var(v) => self.substitution[v.0].unwrap(),
                    i => i,
                };
                Type::Trait { instance }
            },
            other => other,
        }
    }

    /// Instantiate a template: each of its parameters becomes a new
    /// variable.
    pub fn instantiate_template(&mut self, template: Template) -> (r: Type)
        requires
            old(self).wf(),
            template.ty matches Type::Trait { instance: Instance::Var(v) } ==> v.0 < old(self).subst().len() && old(self).subst()[v.0 as int] is Some,
            old(self).subst().len() + template.exists@.len() <= usize::MAX,
        ensures
            final(self).wf(),
            final(self).subst().len() == old(self).subst().len() + template.exists@.len(),
            final(self).subst().take(old(self).subst().len() as int) == old(self).subst(),
            final(self).messages() == old(self).messages(),
            r == instantiated(
                old(self).subst(),
                Seq::new(
                    template.exists@.len(),
                    |k: int| (template.exists@[k], InstanceVar((old(self).subst().len() + k) as usize)),
                ),
                template.ty,
            ),
    {
        let Template { ty, exists } = template;
        let ghost n0 = self.subst().len();
        let mut map: Vec<(AbstractInstance, InstanceVar)> = Vec::new();
        let mut k: usize = 0;
        while k < exists.len()
            invariant
                self.wf(),
                k <= exists@.len(),
                self.subst().len() == n0 + k,
                n0 + exists@.len() <= usize::MAX,
                self.subst().take(n0 as int) == old(self).subst(),
                self.messages() == old(self).messages(),
                map@ == Seq::new(k as nat, |j: int| (exists@[j], InstanceVar((n0 + j) as usize))),
            decreases exists@.len() - k,
        {
            let var = self.fresh_instance_var();
            map.push((exists[k], var));
            k = k + 1;
            proof {
                assert(self.subst().take(n0 as int) =~= old(self).subst());
                assert(map@ =~= Seq::new(k as nat, |j: int| (exists@[j], InstanceVar((n0 + j) as usize))));
            }
        }
        proof {
            assert(ty matches Type::Trait { instance: Instance::Var(v) } ==> self.subst()[v.0 as int]
                == old(self).subst()[v.0 as int]);
            assert(map@ =~= Seq::new(
                exists@.len(),
                |j: int| (exists@[j], InstanceVar((n0 + j) as usize)),
            ));
        }
        self.instantiate_type(&map, ty)
    }
}

/// Whether the two types can be unified at all: both traits, both numeric,
/// or one of them invalid.
pub open spec fn unifiable(left: Type, right: Type) -> bool {
    ||| left is Trait && right is Trait
    ||| (left is Number || left is Range) && (right is Number || right is Range)
    ||| left is Invalid
    ||| right is Invalid
}

/// The variable listed last for `p` in `map`, if any.
pub open spec fn spec_lookup_last(map: Seq<(AbstractInstance, InstanceVar)>, p: AbstractInstance) -> Option<InstanceVar>
    decreases map.len(),
{
    if map.len() == 0 {
        None
    } else if map.last().0 == p {
        Some(map.last().1)
    } else {
        spec_lookup_last(map.drop_last(), p)
    }
}

/// The variable listed last for `p` in `map`, if any.
fn lookup_last(map: &Vec<(AbstractInstance, InstanceVar)>, p: AbstractInstance) -> (r: Option<InstanceVar>)
    ensures
        r == spec_lookup_last(map@, p),
{
    let mut k = map.len();
    assert(map@.take(k as int) =~= map@);
    while k > 0
        invariant
            k <= map@.len(),
            spec_lookup_last(map@, p) == spec_lookup_last(map@.take(k as int), p),
        decreases k,
    {
        assert(map@.take(k as int).drop_last() =~= map@.take(k - 1));
        if map[k - 1].0 == p {
            return Some(map[k - 1].1);
        }
        k = k - 1;
    }
    None
}

/// `ty` with each parameter of `map` replaced by its variable and each
/// variable by what `subst` binds it to.
pub open spec fn instantiated(
    subst: Seq<Option<Instance>>,
    map: Seq<(AbstractInstance, InstanceVar)>,
    ty: Type,
) -> Type {
    match ty {
        Type::Trait { instance } => Type::Trait {
            instance: match instance {
                Instance::Parameter(p) => match spec_lookup_last(map, p) {
                    Some(var) => Instance::Var(var),
                    None => Instance::Parameter(p),
                },
                Instance::Var(v) => subst[v.0 as int].unwrap(),
                i => i,
            },
        },
        other => other,
    }
}

/// Adding an unbound variable changes no resolution.
proof fn lemma_resolve_extend(subst: Seq<Option<Instance>>, rank: Seq<nat>, i: Instance)
    requires
        ranked(subst, rank),
        storable(i, subst.len()),
    ensures
        resolve(subst.push(None), rank.push(0), i) == resolve(subst, rank, i),
    decreases height(rank, i),
{
    if let Instance::Var(v) = i {
        if subst[v.0 as int] is Some {
            lemma_resolve_extend(subst, rank, subst[v.0 as int].unwrap());
        }
    }
}

} // verus!
