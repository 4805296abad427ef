use vstd::prelude::*;

use crate::source::Span;

verus! {

/// A variable standing for how an expression's type flows into the type it
/// is checked against.
#[derive(Clone, Copy, Debug, PartialEq, Eq, Hash, Structural)]
pub struct CoercionVar {
    pub span: Span,
    pub count: usize,
}

/// What is known of a coercion: the types are equal, one can be coerced to
/// the other, or neither.
#[derive(Clone, Copy, Debug, PartialEq, Eq, Hash, Structural)]
pub enum CoercionState {
    Equal,
    Coercible,
    Invalid,
}

/// How much a state says is wrong: `Equal` below `Coercible` below
/// `Invalid`.
pub open spec fn severity(state: CoercionState) -> nat {
    match state {
        CoercionState::Equal => 0,
        CoercionState::Coercible => 1,
        CoercionState::Invalid => 2,
    }
}

/// The state recording both `a` and `b`: the more severe of the two.
pub open spec fn join(a: CoercionState, b: CoercionState) -> CoercionState {
    if severity(a) >= severity(b) {
        a
    } else {
        b
    }
}

/// The state of every coercion variable marked so far.
#[derive(Clone, Debug, Default, Eq)]
pub struct Coercions {
    coercions: Vec<(CoercionVar, CoercionState)>,
}

/// Whether every entry of `a` is one of `b`.
fn contains_all(a: &Vec<(CoercionVar, CoercionState)>, b: &Vec<(CoercionVar, CoercionState)>) -> (r: bool)
    ensures
        r == (forall|i: int| 0 <= i < a@.len() ==> b@.contains(#[trigger] a@[i])),
{
    let mut i: usize = 0;
    while i < a.len()
        invariant
            i <= a@.len(),
            forall|k: int| 0 <= k < i ==> b@.contains(#[trigger] a@[k]),
        decreases a@.len() - i,
    {
        let mut found = false;
        let mut j: usize = 0;
        while j < b.len()
            invariant
                i < a@.len(),
                j <= b@.len(),
                found ==> b@.contains(a@[i as int]),
                !found ==> forall|l: int| 0 <= l < j ==> b@[l] != a@[i as int],
            decreases b@.len() - j,
        {
            if b[j].0 == a[i].0 && b[j].1 == a[i].1 {
                found = true;
                assert(b@[j as int] == a@[i as int]);
            }
            j = j + 1;
        }
        if !found {
            assert(!b@.contains(a@[i as int]));
            return false;
        }
        i = i + 1;
    }
    true
}

impl PartialEq for Coercions {
    fn eq(&self, other: &Self) -> (r: bool) {
        let r = contains_all(&self.coercions, &other.coercions) && contains_all(
            &other.coercions,
            &self.coercions,
        );
        proof {
            if r {
                assert(self.entries() =~= other.entries());
            } else if !(forall|i: int|
                0 <= i < self.coercions@.len() ==> other.coercions@.contains(
                    #[trigger] self.coercions@[i],
                )) {
                let i = choose|i: int|
                    0 <= i < self.coercions@.len() && !other.coercions@.contains(
                        #[trigger] self.coercions@[i],
                    );
                assert(self.entries().contains(self.coercions@[i]));
                assert(!other.entries().contains(self.coercions@[i]));
            } else {
                let i = choose|i: int|
                    0 <= i < other.coercions@.len() && !self.coercions@.contains(
                        #[trigger] other.coercions@[i],
                    );
                assert(other.entries().contains(other.coercions@[i]));
                assert(!self.entries().contains(other.coercions@[i]));
            }
        }
        r
    }
}

impl vstd::std_specs::cmp::PartialEqSpecImpl for Coercions {
    open spec fn obeys_eq_spec() -> bool {
        true
    }

    open spec fn eq_spec(&self, other: &Self) -> bool {
        self.entries() == other.entries()
    }
}

impl Coercions {
    /// The variables recorded, each with its state, whatever the order in
    /// which they were marked.
    pub closed spec fn entries(self) -> Set<(CoercionVar, CoercionState)> {
        Set::new(|e: (CoercionVar, CoercionState)| self.coercions@.contains(e))
    }

    /// Two well-formed sets of coercions have the same entries exactly when
    /// they record the same states.
    pub proof fn lemma_entries_view(self, other: Self)
        requires
            self.wf(),
            other.wf(),
        ensures
            self.entries() == other.entries() <==> self.view() == other.view(),
    {
        if self.entries() == other.entries() {
            assert forall|var: CoercionVar| #[trigger] self.view().contains_key(var) implies other.view().contains_key(var)
                && other.view()[var] == self.view()[var] by {
                let i = choose|i: int| 0 <= i < self.coercions@.len() && self.coercions@[i].0 == var;
                assert(self.entries().contains(self.coercions@[i]));
                let j = choose|j: int| 0 <= j < other.coercions@.len() && other.coercions@[j] == self.coercions@[i];
                self.lemma_at(i);
                other.lemma_at(j);
            }
            assert forall|var: CoercionVar| #[trigger] other.view().contains_key(var) implies self.view().contains_key(var) by {
                let j = choose|j: int| 0 <= j < other.coercions@.len() && other.coercions@[j].0 == var;
                assert(other.entries().contains(other.coercions@[j]));
                let i = choose|i: int| 0 <= i < self.coercions@.len() && self.coercions@[i] == other.coercions@[j];
            }
            assert(self.view() =~= other.view());
        }
        if self.view() == other.view() {
            assert forall|e: (CoercionVar, CoercionState)| self.entries().contains(e) implies other.entries().contains(e) by {
                let i = choose|i: int| 0 <= i < self.coercions@.len() && self.coercions@[i] == e;
                self.lemma_at(i);
                assert(other.view().contains_key(e.0));
                let j = choose|j: int| 0 <= j < other.coercions@.len() && other.coercions@[j].0 == e.0;
                other.lemma_at(j);
                assert(other.coercions@[j] == e);
            }
            assert forall|e: (CoercionVar, CoercionState)| other.entries().contains(e) implies self.entries().contains(e) by {
                let j = choose|j: int| 0 <= j < other.coercions@.len() && other.coercions@[j] == e;
                other.lemma_at(j);
                assert(self.view().contains_key(e.0));
                let i = choose|i: int| 0 <= i < self.coercions@.len() && self.coercions@[i].0 == e.0;
                self.lemma_at(i);
                assert(self.coercions@[i] == e);
            }
            assert(self.entries() =~= other.entries());
        }
    }

    /// The states marked so far.
    pub closed spec fn view(self) -> Map<CoercionVar, CoercionState> {
        Map::new(
            |var: CoercionVar| exists|i: int| 0 <= i < self.coercions@.len() && self.coercions@[i].0 == var,
            |var: CoercionVar|
                self.coercions@[choose|i: int|
                    0 <= i < self.coercions@.len() && self.coercions@[i].0 == var].1,
        )
    }

    /// No variable is recorded twice.
    pub closed spec fn wf(self) -> bool {
        forall|i: int, j: int|
            0 <= i < j < self.coercions@.len() ==> self.coercions@[i].0 != self.coercions@[j].0
    }

    pub fn new() -> (coercions: Self)
        ensures
            coercions.wf(),
            coercions.view() == Map::<CoercionVar, CoercionState>::empty(),
    {
        let coercions = Self { coercions: Vec::new() };
        assert(coercions.view() =~= Map::<CoercionVar, CoercionState>::empty());
        coercions
    }

    /// Where `var` is recorded, if it is.
    fn find(&self, var: &CoercionVar) -> (r: Option<usize>)
        requires
            self.wf(),
        ensures
            match r {
                Some(i) => i < self.coercions@.len() && self.coercions@[i as int].0 == *var,
                None => !self.view().contains_key(*var),
            },
    {
        let mut i: usize = 0;
        while i < self.coercions.len()
            invariant
                0 <= i <= self.coercions@.len(),
                forall|k: int| 0 <= k < i ==> self.coercions@[k].0 != *var,
            decreases self.coercions.len() - i,
        {
            if self.coercions[i].0 == *var {
                return Some(i);
            }
            i += 1;
        }
        None
    }

    proof fn lemma_at(self, i: int)
        requires
            self.wf(),
            0 <= i < self.coercions@.len(),
        ensures
            self.view().contains_key(self.coercions@[i].0),
            self.view()[self.coercions@[i].0] == self.coercions@[i].1,
    {
        let var = self.coercions@[i].0;
        let j = choose|j: int| 0 <= j < self.coercions@.len() && self.coercions@[j].0 == var;
        assert(i == j);
    }

    /// The state of `var`, which must have been marked.
    pub fn get(&self, var: &CoercionVar) -> (state: CoercionState)
        requires
            self.wf(),
            self.view().contains_key(*var),
        ensures
            state == self.view()[*var],
    {
        let i = self.find(var).unwrap();
        proof {
            self.lemma_at(i as int);
        }
        self.coercions[i].1
    }

    /// Mark the coercion variable with the given state, ensuring no previous
    /// information is lost (e.g. if the variable is marked as `Coercible`
    /// marking it as `Equal` won't change that, but marking it as `Invalid`
    /// will).
    pub fn mark(&mut self, var: CoercionVar, state: CoercionState)
        requires
            old(self).wf(),
        ensures
            final(self).wf(),
            final(self).view() == mark_step(old(self).view(), var, state),
    {
        match self.find(&var) {
            Some(i) => {
                let prev = self.coercions[i].1;
                proof {
                    self.lemma_at(i as int);
                }
                let next = match (prev, state) {
                    (CoercionState::Invalid, _) => return,
                    (CoercionState::Coercible, CoercionState::Invalid) => state,
                    (CoercionState::Coercible, _) => return,
                    (CoercionState::Equal, _) => state,
                };
                let ghost before = *self;
                self.coercions.set(i, (var, next));
                proof {
                    assert forall|c: CoercionVar| #[trigger] self.view().contains_key(c)
                        <==> before.view().contains_key(c) by {
                        if before.view().contains_key(c) {
                            let j = choose|j: int|
                                0 <= j < before.coercions@.len() && before.coercions@[j].0 == c;
                            assert(self.coercions@[j].0 == c);
                        }
                        if self.view().contains_key(c) {
                            let j = choose|j: int|
                                0 <= j < self.coercions@.len() && self.coercions@[j].0 == c;
                            assert(before.coercions@[j].0 == c);
                        }
                    }
                    assert forall|c: CoercionVar| #[trigger] self.view().contains_key(c) implies self.view()[c]
                        == before.view().insert(var, next)[c] by {
                        let j = choose|j: int|
                            0 <= j < self.coercions@.len() && self.coercions@[j].0 == c;
                        self.lemma_at(j);
                        if c != var {
                            before.lemma_at(j);
                        }
                    }
                    assert(self.view() =~= before.view().insert(var, next));
                }
            },
            None => {
                let ghost before = *self;
                self.coercions.push((var, state));
                proof {
                    let n = before.coercions@.len() as int;
                    self.lemma_at(n);
                    assert forall|c: CoercionVar| #[trigger] self.view().contains_key(c)
                        <==> before.view().insert(var, state).contains_key(c) by {
                        if before.view().contains_key(c) {
                            let j = choose|j: int|
                                0 <= j < before.coercions@.len() && before.coercions@[j].0 == c;
                            assert(self.coercions@[j].0 == c);
                        }
                        if self.view().contains_key(c) && c != var {
                            let j = choose|j: int|
                                0 <= j < self.coercions@.len() && self.coercions@[j].0 == c;
                            assert(j < n);
                            assert(before.coercions@[j].0 == c);
                        }
                    }
                    assert forall|c: CoercionVar| #[trigger] self.view().contains_key(c) implies self.view()[c]
                        == before.view().insert(var, state)[c] by {
                        let j = choose|j: int|
                            0 <= j < self.coercions@.len() && self.coercions@[j].0 == c;
                        self.lemma_at(j);
                        if c != var {
                            assert(j < n);
                            before.lemma_at(j);
                        }
                    }
                    assert(self.view() =~= before.view().insert(var, state));
                }
            },
        }
    }
}

/// The states after marking `var` with `state`: a variable marked before
/// keeps the more severe of its state and `state`.
pub open spec fn mark_step(
    view: Map<CoercionVar, CoercionState>,
    var: CoercionVar,
    state: CoercionState,
) -> Map<CoercionVar, CoercionState> {
    view.insert(var, if view.contains_key(var) { join(view[var], state) } else { state })
}

/// The states after making the marks of `marks`, in order.
pub open spec fn marked(
    view: Map<CoercionVar, CoercionState>,
    marks: Seq<(CoercionVar, CoercionState)>,
) -> Map<CoercionVar, CoercionState>
    decreases marks.len(),
{
    if marks.len() == 0 {
        view
    } else {
        let last = marks.last();
        mark_step(marked(view, marks.drop_last()), last.0, last.1)
    }
}

/// After a sequence of marks, a variable is known exactly when it was known
/// before or marked; its state is at least as severe as what it had and as
/// every state it was marked with, and is one of them.
proof fn lemma_marked_char(
    view: Map<CoercionVar, CoercionState>,
    marks: Seq<(CoercionVar, CoercionState)>,
    v: CoercionVar,
)
    ensures
        marked(view, marks).contains_key(v) <==> view.contains_key(v) || exists|i: int|
            0 <= i < marks.len() && (#[trigger] marks[i]).0 == v,
        marked(view, marks).contains_key(v) ==> {
            let r = marked(view, marks)[v];
            &&& view.contains_key(v) ==> severity(r) >= severity(view[v])
            &&& forall|i: int|
                0 <= i < marks.len() && (#[trigger] marks[i]).0 == v ==> severity(r) >= severity(
                    marks[i].1,
                )
            &&& (view.contains_key(v) && r == view[v]) || exists|i: int|
                0 <= i < marks.len() && #[trigger] marks[i] == (v, r)
        },
    decreases marks.len(),
{
    if marks.len() > 0 {
        let init = marks.drop_last();
        let last = marks.last();
        lemma_marked_char(view, init, v);
        let n = (marks.len() - 1) as int;
        assert(marks[n] == last);
        assert forall|i: int| 0 <= i < init.len() implies #[trigger] init[i] == marks[i] by {}
        if exists|i: int| 0 <= i < marks.len() && (#[trigger] marks[i]).0 == v {
            let i = choose|i: int| 0 <= i < marks.len() && (#[trigger] marks[i]).0 == v;
            if i < n {
                assert(init[i].0 == v);
            }
        }
        if marked(view, marks).contains_key(v) {
            let r = marked(view, marks)[v];
            let m = marked(view, init);
            if last.0 == v {
                if m.contains_key(v) {
                    let r0 = m[v];
                    if (view.contains_key(v) && r0 == view[v]) {
                    } else {
                        let j = choose|j: int| 0 <= j < init.len() && #[trigger] init[j] == (v, r0);
                        assert(marks[j] == (v, r0));
                    }
                    assert forall|i: int|
                        0 <= i < marks.len() && (#[trigger] marks[i]).0 == v implies severity(r)
                        >= severity(marks[i].1) by {
                        if i < n {
                            assert(init[i].0 == v);
                        }
                    }
                } else {
                    assert(marks[n] == (v, r));
                    assert forall|i: int|
                        0 <= i < marks.len() && (#[trigger] marks[i]).0 == v implies severity(r)
                        >= severity(marks[i].1) by {
                        if i < n {
                            assert(init[i].0 == v);
                        }
                    }
                }
            } else {
                assert(r == m[v]);
                if !(view.contains_key(v) && r == view[v]) {
                    let j = choose|j: int| 0 <= j < init.len() && #[trigger] init[j] == (v, r);
                    assert(marks[j] == (v, r));
                }
                assert forall|i: int|
                    0 <= i < marks.len() && (#[trigger] marks[i]).0 == v implies severity(r)
                    >= severity(marks[i].1) by {
                    if i < n {
                        assert(init[i].0 == v);
                    }
                }
            }
        }
    }
}

/// Marking does not depend on the order of the marks, nor on how often each
/// is made: the same marks, made in any order and any number of times, give
/// the same states, each variable ending at the most severe state it had or
/// was marked with.
pub proof fn law_marks_order_free(
    view: Map<CoercionVar, CoercionState>,
    a: Seq<(CoercionVar, CoercionState)>,
    b: Seq<(CoercionVar, CoercionState)>,
)
    requires
        a.to_set() == b.to_set(),
    ensures
        marked(view, a) == marked(view, b),
{
    assert forall|v: CoercionVar| #[trigger] marked(view, a).contains_key(v) <==> marked(
        view,
        b,
    ).contains_key(v) by {
        lemma_marked_char(view, a, v);
        lemma_marked_char(view, b, v);
        lemma_same_marks(a, b, v);
    }
    assert forall|v: CoercionVar| #[trigger] marked(view, a).contains_key(v) implies marked(
        view,
        a,
    )[v] == marked(view, b)[v] by {
        lemma_marked_char(view, a, v);
        lemma_marked_char(view, b, v);
        lemma_same_marks(a, b, v);
        let ra = marked(view, a)[v];
        let rb = marked(view, b)[v];
        // Each is one of the candidates, and at least as severe as all of them.
        if !(view.contains_key(v) && ra == view[v]) {
            let i = choose|i: int| 0 <= i < a.len() && #[trigger] a[i] == (v, ra);
            assert(a.to_set().contains(a[i]));
            assert(b.to_set().contains(a[i]));
            let j = choose|j: int| 0 <= j < b.len() && b[j] == a[i];
            assert(b[j].0 == v);
        }
        if !(view.contains_key(v) && rb == view[v]) {
            let i = choose|i: int| 0 <= i < b.len() && #[trigger] b[i] == (v, rb);
            assert(b.to_set().contains(b[i]));
            assert(a.to_set().contains(b[i]));
            let j = choose|j: int| 0 <= j < a.len() && a[j] == b[i];
            assert(a[j].0 == v);
        }
        assert(severity(ra) == severity(rb));
    }
    assert(marked(view, a) =~= marked(view, b));
}

/// Two sequences with the same marks mark the same variables.
proof fn lemma_same_marks(
    a: Seq<(CoercionVar, CoercionState)>,
    b: Seq<(CoercionVar, CoercionState)>,
    v: CoercionVar,
)
    requires
        a.to_set() == b.to_set(),
    ensures
        (exists|i: int| 0 <= i < a.len() && (#[trigger] a[i]).0 == v) <==> (exists|i: int|
            0 <= i < b.len() && (#[trigger] b[i]).0 == v),
{
    if exists|i: int| 0 <= i < a.len() && (#[trigger] a[i]).0 == v {
        let i = choose|i: int| 0 <= i < a.len() && (#[trigger] a[i]).0 == v;
        assert(a.to_set().contains(a[i]));
        let j = choose|j: int| 0 <= j < b.len() && b[j] == a[i];
        assert(b[j].0 == v);
    }
    if exists|i: int| 0 <= i < b.len() && (#[trigger] b[i]).0 == v {
        let i = choose|i: int| 0 <= i < b.len() && (#[trigger] b[i]).0 == v;
        assert(b.to_set().contains(b[i]));
        let j = choose|j: int| 0 <= j < a.len() && a[j] == b[i];
        assert(a[j].0 == v);
    }
}

/// Marking records the most severe state seen: marking the same variable
/// with two states, in either order, gives the same result.
pub proof fn lemma_mark_commutes(a: CoercionState, s: CoercionState, t: CoercionState)
    ensures
        join(join(a, s), t) == join(join(a, t), s),
        join(join(a, s), s) == join(a, s),
        severity(join(a, s)) >= severity(a),
{
}

} // verus!
