//! This module is responsible for identifying the strongly connected
//! components in the program dependency graph. A strongly connected
//! component is a set of nodes where each node can be "reached" from every
//! other -- essentially, this captures all of the dependency cycles in every
//! name definition.
//!
//! This implementation is based on Tarjan's algorithm, which also produces a
//! reverse topological sort. This means that the typer can go through the
//! components in the order that they are produced.

use vstd::prelude::*;

verus! {

/// A definition, by its number: a vertex of the dependency graph.
#[derive(Clone, Copy, Debug, PartialEq, Eq, Hash, Structural)]
pub struct DefIndex(pub usize);

/// The strongly connected components of a dependency graph, in the order
/// they were found.
#[derive(Debug)]
pub struct Components {
    pub ordered: Vec<Vec<DefIndex>>,
}

/// Whether every edge of `graph`, where vertex `v`'s successors are
/// `graph[v]`, leads to a vertex of it.
pub open spec fn graph_ok(graph: Seq<Vec<DefIndex>>) -> bool {
    forall|v: int, k: int|
        0 <= v < graph.len() && 0 <= k < graph[v]@.len() ==> (#[trigger] graph[v]@[k]).0
            < graph.len()
}

/// Whether `v` is in one of the components `comps`.
pub open spec fn in_component(comps: Seq<Vec<DefIndex>>, v: DefIndex) -> bool {
    exists|c: int, k: int| 0 <= c < comps.len() && 0 <= k < comps[c]@.len() && #[trigger] comps[c]@[k] == v
}

/// How many of `s` are `Some`.
pub open spec fn count_some(s: Seq<Option<usize>>) -> nat
    decreases s.len(),
{
    if s.len() == 0 {
        0
    } else {
        count_some(s.drop_last()) + if s.last() is Some {
            1nat
        } else {
            0nat
        }
    }
}

proof fn lemma_count_update(s: Seq<Option<usize>>, i: int, x: usize)
    requires
        0 <= i < s.len(),
        s[i] is None,
    ensures
        count_some(s.update(i, Some(x))) == count_some(s) + 1,
    decreases s.len(),
{
    if i < s.len() - 1 {
        lemma_count_update(s.drop_last(), i, x);
        assert(s.update(i, Some(x)).drop_last() =~= s.drop_last().update(i, Some(x)));
    } else {
        assert(s.update(i, Some(x)).drop_last() =~= s.drop_last());
    }
}

proof fn lemma_count_bound(s: Seq<Option<usize>>)
    ensures
        count_some(s) <= s.len(),
        count_some(s) == s.len() ==> forall|i: int| 0 <= i < s.len() ==> #[trigger] s[i] is Some,
    decreases s.len(),
{
    if s.len() > 0 {
        lemma_count_bound(s.drop_last());
        assert forall|i: int| 0 <= i < s.len() && count_some(s) == s.len() implies #[trigger] s[i] is Some by {
            if i < s.len() - 1 {
                assert(s.drop_last()[i] == s[i]);
            }
        }
    }
}

/// The state of Tarjan's algorithm.
struct Finder {
    /// The number the next visited vertex gets.
    index: usize,
    /// The number of each visited vertex.
    indices: Vec<Option<usize>>,
    /// The smallest number of a vertex known to be reachable from each
    /// vertex and still on the stack.
    lowlinks: Vec<usize>,
    stack: Vec<usize>,
    on_stack: Vec<bool>,
    components: Vec<Vec<DefIndex>>,
    /// The component each vertex of a component belongs to.
    owner: Ghost<Map<usize, int>>,
    /// How many of each vertex's edges have been followed.
    done: Ghost<Seq<nat>>,
}

impl Finder {
    spec fn visited(self, u: int) -> bool {
        self.indices@[u] is Some
    }

    spec fn num(self, u: int) -> int {
        self.indices@[u].unwrap() as int
    }

    /// What always holds of the state for a graph of `n` vertices, while
    /// the vertices of `pending` are being gathered into a new component.
    spec fn inv(self, n: nat, pending: Seq<DefIndex>) -> bool {
        &&& n <= usize::MAX
        &&& self.indices@.len() == n
        &&& self.lowlinks@.len() == n
        &&& self.on_stack@.len() == n
        &&& self.index == count_some(self.indices@)
        &&& forall|u: int|
            0 <= u < n && (#[trigger] self.indices@[u]) is Some ==> self.indices@[u].unwrap()
                < self.index
        &&& forall|u: int|
            0 <= u < n && self.visited(u) ==> #[trigger] self.lowlinks@[u] <= self.num(u)
        // The stack holds visited vertices, each once, in the order they
        // were visited.
        &&& forall|k: int|
            0 <= k < self.stack@.len() ==> {
                let u = #[trigger] self.stack@[k] as int;
                &&& 0 <= u < n
                &&& self.visited(u)
                &&& self.on_stack@[u]
                &&& self.lowlinks@[u] >= self.num(self.stack@[0] as int)
            }
        &&& forall|k: int, l: int|
            0 <= k < l < self.stack@.len() ==> self.num(#[trigger] self.stack@[k] as int) < self.num(
                #[trigger] self.stack@[l] as int,
            )
        &&& forall|u: int|
            0 <= u < n && #[trigger] self.on_stack@[u] ==> self.stack@.contains(u as usize)
        // Every vertex of a component was visited and is off the stack;
        // the components are disjoint.
        &&& forall|c: int, k: int|
            0 <= c < self.components@.len() && 0 <= k < self.components@[c]@.len() ==> {
                let u = (#[trigger] self.components@[c]@[k]).0;
                &&& u < n
                &&& self.visited(u as int)
                &&& !self.on_stack@[u as int]
                &&& self.owner@.contains_key(u)
                &&& self.owner@[u] == c
            }
        &&& forall|c: int, k: int, l: int|
            0 <= c < self.components@.len() && 0 <= k < l < self.components@[c]@.len() ==> (
            #[trigger] self.components@[c]@[k]) != #[trigger] self.components@[c]@[l]
        &&& forall|c: int| 0 <= c < self.components@.len() ==> self.components@[c]@.len() > 0
        &&& forall|k: int|
            0 <= k < pending.len() ==> {
                let u = (#[trigger] pending[k]).0;
                &&& u < n
                &&& self.visited(u as int)
                &&& !self.on_stack@[u as int]
                &&& self.owner@.contains_key(u)
                &&& self.owner@[u] == self.components@.len()
            }
        &&& forall|k: int, l: int|
            0 <= k < l < pending.len() ==> (#[trigger] pending[k]) != #[trigger] pending[l]
        // Every visited vertex is on the stack or in a component.
        &&& forall|u: int|
            0 <= u < n && self.visited(u) && !self.on_stack@[u] ==> #[trigger] self.owner@.contains_key(
                u as usize,
            )
        &&& forall|u: usize| #[trigger]
            self.owner@.contains_key(u) ==> {
                let c = self.owner@[u];
                ||| 0 <= c < self.components@.len() && self.components@[c]@.contains(DefIndex(u))
                ||| c == self.components@.len() && pending.contains(DefIndex(u))
            }
    }

    spec fn wf(self, n: nat) -> bool {
        self.inv(n, Seq::empty())
    }

    /// The stack holds visited vertices of a graph of `n` vertices, in the
    /// order they were numbered, each with a lowlink no greater than its number.
    spec fn stack_sorted(self, n: nat) -> bool {
        &&& self.indices@.len() == n
        &&& self.lowlinks@.len() == n
        &&& forall|k: int|
            0 <= k < self.stack@.len() ==> {
                let u = #[trigger] self.stack@[k];
                &&& u < n
                &&& self.visited(u as int)
                &&& self.lowlinks@[u as int] <= self.num(u as int)
            }
        &&& forall|k: int, l: int|
            0 <= k < l < self.stack@.len() ==> self.num(#[trigger] self.stack@[k] as int) < self.num(
                #[trigger] self.stack@[l] as int,
            )
    }

    proof fn lemma_wf_sorted(self, n: nat)
        requires
            self.wf(n),
        ensures
            self.stack_sorted(n),
    {
    }

    /// The vertex at `p` on the stack reaches a vertex on the stack whose
    /// number is its lowlink.
    spec fn reach_witness(self, graph: Seq<Vec<DefIndex>>, p: int) -> bool {
        exists|q: int|
            0 <= q < self.stack@.len() && self.num(self.stack@[q] as int)
                == self.lowlinks@[self.stack@[p] as int] && #[trigger] reaches(
                graph,
                self.stack@[p],
                self.stack@[q],
            )
    }

    /// Every vertex on the stack reaches a vertex on the stack whose number
    /// is its lowlink.
    spec fn stack_reach(self, graph: Seq<Vec<DefIndex>>) -> bool {
        forall|p: int| 0 <= p < self.stack@.len() ==> #[trigger] self.reach_witness(graph, p)
    }

    /// The vertices of each finished component reach each other.
    spec fn comps_reach(self, graph: Seq<Vec<DefIndex>>) -> bool {
        forall|c: int, k1: int, k2: int|
            #![trigger self.components@[c]@[k1], self.components@[c]@[k2]]
            0 <= c < self.components@.len() && 0 <= k1 < self.components@[c]@.len() && 0 <= k2
                < self.components@[c]@.len() ==> reaches(
                graph,
                self.components@[c]@[k1].0,
                self.components@[c]@[k2].0,
            )
    }

    /// Pushing a newly numbered vertex keeps what the stack reaches.
    #[verifier::spinoff_prover]
    proof fn lemma_reach_push(before: Finder, after: Finder, graph: Seq<Vec<DefIndex>>, vertex: usize)
        requires
            before.stack_sorted(graph.len()),
            before.stack_reach(graph),
            vertex < graph.len(),
            !before.visited(vertex as int),
            after.indices@ == before.indices@.update(vertex as int, after.indices@[vertex as int]),
            after.indices@[vertex as int] is Some,
            after.lowlinks@ == before.lowlinks@.update(
                vertex as int,
                after.indices@[vertex as int].unwrap(),
            ),
            after.stack@ == before.stack@.push(vertex),
    ensures
            after.stack_reach(graph),
    {
        let len = before.stack@.len();
        assert forall|p: int| 0 <= p < after.stack@.len() implies #[trigger] after.reach_witness(graph, p) by {
            if p < len {
                let u = before.stack@[p] as int;
                assert(after.stack@[p] == before.stack@[p]);
                assert(before.visited(u));
                assert(before.reach_witness(graph, p));
                let q = choose|q: int|
                    0 <= q < before.stack@.len() && before.num(before.stack@[q] as int)
                        == before.lowlinks@[before.stack@[p] as int] && #[trigger] reaches(
                        graph,
                        before.stack@[p],
                        before.stack@[q],
                    );
                assert(before.visited(before.stack@[q] as int));
                assert(after.stack@[q] == before.stack@[q]);
                assert(reaches(graph, after.stack@[p], after.stack@[q]));
            } else {
                lemma_reach_refl(graph, vertex);
                assert(after.stack@[p] == vertex);
                assert(reaches(graph, after.stack@[p], after.stack@[p]));
            }
        }
    }

    /// Setting the lowlink of the stacked vertex `v` to the number of a
    /// stacked vertex it reaches, or leaving it, keeps what the stack
    /// reaches.
    #[verifier::spinoff_prover]
    proof fn lemma_reach_lowered(before: Finder, after: Finder, graph: Seq<Vec<DefIndex>>, v: int, q: int)
        requires
            before.stack_sorted(before.lowlinks@.len()),
            before.stack_reach(graph),
            after.stack == before.stack,
            after.indices == before.indices,
            after.lowlinks@ == before.lowlinks@.update(v, after.lowlinks@[v]),
            0 <= v < before.lowlinks@.len(),
            after.lowlinks@[v] == before.lowlinks@[v] || (0 <= q < before.stack@.len()
                && before.num(before.stack@[q] as int) == after.lowlinks@[v] && reaches(
                graph,
                v as usize,
                before.stack@[q],
            )),
        ensures
            after.stack_reach(graph),
    {
        assert forall|p: int| 0 <= p < after.stack@.len() implies #[trigger] after.reach_witness(graph, p) by {
            let u = before.stack@[p] as int;
            if u == v && after.lowlinks@[v] != before.lowlinks@[v] {
                assert(reaches(graph, after.stack@[p], after.stack@[q]));
            } else {
                assert(before.reach_witness(graph, p));
                let q2 = choose|q2: int|
                    0 <= q2 < before.stack@.len() && before.num(before.stack@[q2] as int)
                        == before.lowlinks@[before.stack@[p] as int] && #[trigger] reaches(
                        graph,
                        before.stack@[p],
                        before.stack@[q2],
                    );
                assert(reaches(graph, after.stack@[p], after.stack@[q2]));
            }
        }
    }

    /// Cutting the stack down to its first `r` vertices keeps what the
    /// stack reaches.
    #[verifier::spinoff_prover]
    proof fn lemma_reach_cut(before: Finder, after: Finder, graph: Seq<Vec<DefIndex>>, r: int)
        requires
            before.stack_sorted(graph.len()),
            before.stack_reach(graph),
            0 <= r <= before.stack@.len(),
            after.stack@ == before.stack@.take(r),
            after.indices@ == before.indices@,
            after.lowlinks@ == before.lowlinks@,
        ensures
            after.stack_reach(graph),
    {
        assert forall|p: int| 0 <= p < after.stack@.len() implies #[trigger] after.reach_witness(graph, p) by {
            let u = before.stack@[p] as int;
            assert(after.stack@[p] == before.stack@[p]);
            assert(before.visited(u));
            assert(before.reach_witness(graph, p));
            let q = choose|q: int|
                0 <= q < before.stack@.len() && before.num(before.stack@[q] as int)
                    == before.lowlinks@[before.stack@[p] as int] && #[trigger] reaches(
                    graph,
                    before.stack@[p],
                    before.stack@[q],
                );
            if q > p {
                assert(before.num(before.stack@[p] as int) < before.num(before.stack@[q] as int));
            }
            assert(after.stack@[q] == before.stack@[q]);
            assert(reaches(graph, after.stack@[p], after.stack@[q]));
        }
    }

    /// A vertex on the stack at `p`, at or above `root`, reaches the vertex
    /// at `root`, where every vertex above `root` has a lowlink below its
    /// number and none from `root` up a lowlink below the number of the
    /// vertex at `root`.
    #[verifier::spinoff_prover]
    proof fn lemma_reach_root(f: Finder, graph: Seq<Vec<DefIndex>>, root: int, p: int)
        requires
            f.stack_sorted(graph.len()),
            f.stack_reach(graph),
            0 <= root <= p < f.stack@.len(),
            forall|p2: int|
                root < p2 < f.stack@.len() ==> f.lowlinks@[#[trigger] f.stack@[p2] as int] < f.num(
                    f.stack@[p2] as int,
                ),
            forall|p2: int|
                root <= p2 < f.stack@.len() ==> f.lowlinks@[#[trigger] f.stack@[p2] as int] >= f.num(
                    f.stack@[root] as int,
                ),
        ensures
            reaches(graph, f.stack@[p], f.stack@[root]),
        decreases p,
    {
        if p == root {
            lemma_reach_refl(graph, f.stack@[p]);
        } else {
            assert(f.reach_witness(graph, p));
            let q = choose|q: int|
                0 <= q < f.stack@.len() && f.num(f.stack@[q] as int) == f.lowlinks@[f.stack@[p] as int]
                    && #[trigger] reaches(graph, f.stack@[p], f.stack@[q]);
            assert(f.lowlinks@[f.stack@[p] as int] < f.num(f.stack@[p] as int));
            if q >= p {
                if q > p {
                    assert(f.num(f.stack@[p] as int) < f.num(f.stack@[q] as int));
                }
            }
            if q < root {
                assert(f.num(f.stack@[q] as int) < f.num(f.stack@[root] as int));
            }
            Finder::lemma_reach_root(f, graph, root, q);
            lemma_reach_trans(graph, f.stack@[p], f.stack@[q], f.stack@[root]);
        }
    }

    /// The vertices of a component popped from `root` up reach each other.
    #[verifier::spinoff_prover]
    proof fn lemma_new_component_reach(f: Finder, graph: Seq<Vec<DefIndex>>, root: int, comp: Seq<DefIndex>)
        requires
            f.stack_sorted(graph.len()),
            f.stack_reach(graph),
            0 <= root < f.stack@.len(),
            forall|p2: int|
                root < p2 < f.stack@.len() ==> f.lowlinks@[#[trigger] f.stack@[p2] as int] < f.num(
                    f.stack@[p2] as int,
                ),
            forall|p2: int|
                root <= p2 < f.stack@.len() ==> f.lowlinks@[#[trigger] f.stack@[p2] as int] >= f.num(
                    f.stack@[root] as int,
                ),
            forall|p2: int|
                root <= p2 < f.stack@.len() ==> #[trigger] reaches(graph, f.stack@[root], f.stack@[p2]),
            comp.len() == f.stack@.len() - root,
            forall|j: int| 0 <= j < comp.len() ==> (#[trigger] comp[j]).0 == f.stack@[f.stack@.len() - 1 - j],
        ensures
            forall|k1: int, k2: int|
                0 <= k1 < comp.len() && 0 <= k2 < comp.len() ==> reaches(
                    graph,
                    (#[trigger] comp[k1]).0,
                    (#[trigger] comp[k2]).0,
                ),
    {
        let len = f.stack@.len();
        assert forall|k1: int, k2: int| 0 <= k1 < comp.len() && 0 <= k2 < comp.len() implies reaches(
            graph,
            (#[trigger] comp[k1]).0,
            (#[trigger] comp[k2]).0,
        ) by {
            let p1 = len - 1 - k1;
            let p2 = len - 1 - k2;
            Finder::lemma_reach_root(f, graph, root, p1);
            assert(reaches(graph, f.stack@[root], f.stack@[p2]));
            lemma_reach_trans(graph, f.stack@[p1], f.stack@[root], f.stack@[p2]);
        }
    }

    /// After the visit of the child that the edge numbered `i` of `vertex`
    /// leads to, and the lowering of the lowlink of `vertex` to the
    /// child's, the stack still reaches as it should, and `vertex` reaches
    /// the vertices on the stack from `from` on.
    #[verifier::spinoff_prover]
    proof fn lemma_child_reach(
        start: Finder,
        after: Finder,
        fin: Finder,
        graph: Seq<Vec<DefIndex>>,
        vertex: usize,
        i: int,
        from: int,
    )
        requires
            graph_ok(graph),
            vertex < graph.len(),
            0 <= i < graph[vertex as int]@.len(),
            after.stack_sorted(graph.len()),
            after.stack_reach(graph),
            start.stack@.is_prefix_of(after.stack@),
            0 <= from <= start.stack@.len(),
            forall|p: int| from <= p < start.stack@.len() ==> #[trigger] reaches(graph, vertex, start.stack@[p]),
            forall|p: int|
                start.stack@.len() <= p < after.stack@.len() ==> #[trigger] reaches(
                    graph,
                    graph[vertex as int]@[i].0,
                    after.stack@[p],
                ),
            ({
                let child = graph[vertex as int]@[i].0 as int;
                ||| (after.stack@ == start.stack@ && after.lowlinks@[child] == after.num(child))
                ||| (after.stack@.len() > start.stack@.len() && after.stack@[start.stack@.len() as int]
                    == child)
            }),
            after.lowlinks@[vertex as int] < after.num(graph[vertex as int]@[i].0 as int),
            fin.stack == after.stack,
            fin.indices == after.indices,
            fin.lowlinks@ == after.lowlinks@.update(vertex as int, fin.lowlinks@[vertex as int]),
            fin.lowlinks@[vertex as int] == if after.lowlinks@[vertex as int]
                <= after.lowlinks@[graph[vertex as int]@[i].0 as int] {
                after.lowlinks@[vertex as int]
            } else {
                after.lowlinks@[graph[vertex as int]@[i].0 as int]
            },
        ensures
            fin.stack_reach(graph),
            forall|p: int| from <= p < fin.stack@.len() ==> #[trigger] reaches(graph, vertex, fin.stack@[p]),
    {
        let child = graph[vertex as int]@[i].0;
        lemma_reach_extend(graph, vertex, i, start.stack@, after.stack@, from);
        if fin.lowlinks@[vertex as int] != after.lowlinks@[vertex as int] {
            let pc = start.stack@.len() as int;
            assert(after.stack@[pc] == child);
            assert(after.reach_witness(graph, pc));
            let q = choose|q: int|
                0 <= q < after.stack@.len() && after.num(after.stack@[q] as int)
                    == after.lowlinks@[after.stack@[pc] as int] && #[trigger] reaches(
                    graph,
                    after.stack@[pc],
                    after.stack@[q],
                );
            lemma_reach_edge(graph, vertex, i);
            lemma_reach_trans(graph, vertex, child, after.stack@[q]);
            Finder::lemma_reach_lowered(after, fin, graph, vertex as int, q);
        } else {
            Finder::lemma_reach_lowered(after, fin, graph, vertex as int, 0);
        }
    }

    /// What the stack reaches depends on the stack, the numbers and the
    /// lowlinks alone.
    proof fn lemma_reach_same(before: Finder, after: Finder, graph: Seq<Vec<DefIndex>>)
        requires
            before.stack_reach(graph),
            after.stack == before.stack,
            after.indices == before.indices,
            after.lowlinks == before.lowlinks,
        ensures
            after.stack_reach(graph),
    {
        assert forall|p: int| 0 <= p < after.stack@.len() implies #[trigger] after.reach_witness(graph, p) by {
            assert(before.reach_witness(graph, p));
            let q = choose|q: int|
                0 <= q < before.stack@.len() && before.num(before.stack@[q] as int)
                    == before.lowlinks@[before.stack@[p] as int] && #[trigger] reaches(
                    graph,
                    before.stack@[p],
                    before.stack@[q],
                );
            assert(reaches(graph, after.stack@[p], after.stack@[q]));
        }
    }

    /// Every followed edge leads to a visited vertex that is in a
    /// component, or on the stack and numbered no lower than the lowlink of
    /// the vertex it leaves. The vertices of finished components have had
    /// all their edges followed, each leading to the same or an earlier
    /// component.
    spec fn edges_ok(self, graph: Seq<Vec<DefIndex>>) -> bool {
        let n = graph.len();
        &&& self.done@.len() == n
        &&& forall|u: int| 0 <= u < n ==> #[trigger] self.done@[u] <= graph[u]@.len()
        &&& forall|u: int| 0 <= u < n && #[trigger] self.done@[u] > 0 ==> self.visited(u)
        &&& forall|u: int, k: int|
            #![trigger graph[u]@[k]]
            0 <= u < n && 0 <= k < self.done@[u] ==> {
                let w = graph[u]@[k].0 as int;
                &&& self.visited(w)
                &&& self.owner@.contains_key(w as usize) || (self.on_stack@[w] && self.num(w)
                    >= self.lowlinks@[u])
            }
        &&& forall|u: int|
            0 <= u < n && #[trigger] self.owner@.contains_key(u as usize) && self.owner@[u as usize]
                < self.components@.len() ==> self.done@[u] == graph[u]@.len()
        &&& forall|u: int, k: int|
            #![trigger graph[u]@[k]]
            0 <= u < n && self.owner@.contains_key(u as usize) && self.owner@[u as usize]
                < self.components@.len() && 0 <= k < graph[u]@.len() ==> {
                let w = graph[u]@[k].0;
                &&& self.owner@.contains_key(w)
                &&& self.owner@[w] <= self.owner@[u as usize]
            }
    }

    /// What a visit of a vertex keeps of the state `old`.
    spec fn keeps(self, old: Finder, n: nat) -> bool {
        &&& forall|u: int|
            0 <= u < n && (#[trigger] old.indices@[u]) is Some ==> self.indices@[u] == old.indices@[u]
        &&& old.stack@.is_prefix_of(self.stack@)
        &&& forall|k: int|
            0 <= k < old.stack@.len() ==> self.lowlinks@[#[trigger] old.stack@[k] as int]
                == old.lowlinks@[old.stack@[k] as int]
        &&& old.components@.is_prefix_of(self.components@)
        &&& forall|u: usize| #[trigger]
            old.owner@.contains_key(u) ==> self.owner@.contains_key(u) && self.owner@[u]
                == old.owner@[u]
        &&& count_some(self.indices@) >= count_some(old.indices@)
    }

    /// Number `vertex` and push it on the stack.
    #[verifier::spinoff_prover]
    fn start_visit(&mut self, vertex: usize, Ghost(n): Ghost<nat>) -> (number: usize)
        requires
            old(self).wf(n),
            vertex < n,
            !old(self).visited(vertex as int),
        ensures
            final(self).wf(n),
            number == old(self).index,
            final(self).indices@ == old(self).indices@.update(vertex as int, Some(number)),
            final(self).lowlinks@ == old(self).lowlinks@.update(vertex as int, number),
            final(self).stack@ == old(self).stack@.push(vertex),
            final(self).components == old(self).components,
            final(self).owner == old(self).owner,
            final(self).done == old(self).done,
            final(self).on_stack@ == old(self).on_stack@.update(vertex as int, true),
            count_some(final(self).indices@) == count_some(old(self).indices@) + 1,
            count_some(final(self).indices@) <= n,
    {
        let ghost old_len = self.stack@.len();
        let ghost before = *self;
        proof {
            lemma_count_update(self.indices@, vertex as int, self.index);
            lemma_count_bound(self.indices@.update(vertex as int, Some(self.index)));
        }
        let number = self.index;
        self.indices.set(vertex, Some(number));
        self.lowlinks.set(vertex, number);
        self.index = self.index + 1;
        self.stack.push(vertex);
        self.on_stack.set(vertex, true);
        proof {
            assert(self.stack@.take(old_len as int) =~= before.stack@);
            assert forall|k: int| 0 <= k < old_len implies #[trigger] self.stack@[k] == before.stack@[k] by {}
            assert(self.stack@[old_len as int] == vertex);
            assert forall|k: int| 0 <= k < self.stack@.len() implies {
                let u = #[trigger] self.stack@[k] as int;
                &&& 0 <= u < n
                &&& self.visited(u)
                &&& self.on_stack@[u]
                &&& self.lowlinks@[u] >= self.num(self.stack@[0] as int)
            } by {
                if k < old_len {
                    let u = before.stack@[k] as int;
                    assert(u != vertex);
                    assert(before.lowlinks@[u] >= before.num(before.stack@[0] as int));
                } else if old_len > 0 {
                    assert(before.visited(before.stack@[0] as int));
                }
            }
            assert forall|k: int, l: int| 0 <= k < l < self.stack@.len() implies self.num(
                #[trigger] self.stack@[k] as int,
            ) < self.num(#[trigger] self.stack@[l] as int) by {
                if l < old_len {
                    assert(before.num(before.stack@[k] as int) < before.num(before.stack@[l] as int));
                } else {
                    assert(before.visited(before.stack@[k] as int));
                }
            }
            assert forall|u: int| 0 <= u < n && #[trigger] self.on_stack@[u] implies self.stack@.contains(
                u as usize,
            ) by {
                if u != vertex {
                    assert(before.stack@.contains(u as usize));
                    let k = choose|k: int| 0 <= k < before.stack@.len() && before.stack@[k] == u as usize;
                    assert(self.stack@[k] == u as usize);
                } else {
                    assert(self.stack@[old_len as int] == u as usize);
                }
            }
            assert forall|c: int, k: int|
                0 <= c < self.components@.len() && 0 <= k < self.components@[c]@.len() implies {
                let u = (#[trigger] self.components@[c]@[k]).0;
                &&& u < n
                &&& self.visited(u as int)
                &&& !self.on_stack@[u as int]
                &&& self.owner@.contains_key(u)
                &&& self.owner@[u] == c
            } by {
                let u = self.components@[c]@[k].0;
                assert(before.visited(u as int));
            }
            assert(self.inv(n, Seq::empty()));
        }
        number
    }

    /// Numbering a vertex that was not visited keeps what holds of the
    /// followed edges.
    proof fn lemma_visit_edges(before: Finder, after: Finder, graph: Seq<Vec<DefIndex>>, vertex: int)
        requires
            before.wf(graph.len()),
            graph_ok(graph),
            before.edges_ok(graph),
            0 <= vertex < graph.len(),
            !before.visited(vertex),
            after.indices@ == before.indices@.update(vertex, Some(after.indices@[vertex].unwrap())),
            after.indices@[vertex] is Some,
            after.lowlinks@ == before.lowlinks@.update(vertex, after.lowlinks@[vertex]),
            after.on_stack@ == before.on_stack@.update(vertex, true),
            after.components == before.components,
            after.owner == before.owner,
            after.done == before.done,
        ensures
            after.edges_ok(graph),
    {
        let n = graph.len();
        assert(before.done@[vertex] == 0);
        assert forall|u: int, k: int|
            #![trigger graph[u]@[k]]
            0 <= u < n && 0 <= k < after.done@[u] implies {
                let w = graph[u]@[k].0 as int;
                &&& after.visited(w)
                &&& after.owner@.contains_key(w as usize) || (after.on_stack@[w] && after.num(w)
                    >= after.lowlinks@[u])
            } by {
            let w = graph[u]@[k].0 as int;
            assert(before.visited(u));
            assert(u != vertex);
            assert(before.visited(w));
            assert(w != vertex);
        }
        assert forall|u: int| 0 <= u < n && #[trigger] after.done@[u] > 0 implies after.visited(u) by {
            assert(before.visited(u));
        }
    }

    /// Visit `vertex` and every vertex reachable from it not yet visited;
    /// a vertex whose component is complete pops it off the stack.
    #[verifier::loop_isolation(false)]
    #[verifier::spinoff_prover]
    #[verifier::rlimit(80)]
    fn connect(&mut self, graph: &Vec<Vec<DefIndex>>, vertex: usize)
        requires
            old(self).wf(graph@.len()),
            graph_ok(graph@),
            vertex < graph@.len(),
            !old(self).visited(vertex as int),
            old(self).edges_ok(graph@),
            old(self).stack_reach(graph@),
            old(self).comps_reach(graph@),
        ensures
            final(self).wf(graph@.len()),
            final(self).edges_ok(graph@),
            final(self).stack_reach(graph@),
            final(self).comps_reach(graph@),
            forall|p: int|
                old(self).stack@.len() <= p < final(self).stack@.len() ==> #[trigger] reaches(
                    graph@,
                    vertex,
                    final(self).stack@[p],
                ),
            forall|u: int|
                0 <= u < graph@.len() && old(self).visited(u) ==> #[trigger] final(self).done@[u]
                    == old(self).done@[u],
            final(self).on_stack@[vertex as int] ==> forall|p: int|
                old(self).stack@.len() <= p < final(self).stack@.len() ==> final(self).done@[
                    #[trigger] final(self).stack@[p] as int] == graph@[final(self).stack@[p] as int]@.len()
                    && final(self).lowlinks@[final(self).stack@[p] as int] >= final(self).lowlinks@[vertex as int]
                    && final(self).lowlinks@[final(self).stack@[p] as int] < final(self).num(
                    final(self).stack@[p] as int,
                ),
            final(self).keeps(*old(self), graph@.len()),
            final(self).visited(vertex as int),
            final(self).num(vertex as int) >= old(self).index,
            count_some(final(self).indices@) > count_some(old(self).indices@),
            old(self).stack@.len() == 0 ==> final(self).stack@.len() == 0,
            final(self).stack@.len() == 0 ==> forall|w: usize|
                #[trigger] reaches(graph@, vertex, w) ==> in_component(final(self).components@, DefIndex(w)),
            edges_go_back(graph@, final(self).components@),
            (final(self).stack@ == old(self).stack@ && final(self).lowlinks@[vertex as int]
                == final(self).num(vertex as int)) || (final(self).on_stack@[vertex as int]
                && final(self).lowlinks@[vertex as int] < final(self).num(vertex as int)
                && final(self).stack@.len() > old(self).stack@.len() && final(self).stack@[old(
                self,
            ).stack@.len() as int] == vertex),
        decreases graph@.len() - count_some(old(self).indices@),
    {
        let ghost n = graph@.len();
        let ghost old_len = self.stack@.len();
        let n_exec = graph.len();
        let ghost before_visit = *self;
        let number = self.start_visit(vertex, Ghost(n));
        proof {
            Finder::lemma_visit_edges(before_visit, *self, graph@, vertex as int);
            before_visit.lemma_wf_sorted(n);
            Finder::lemma_reach_push(before_visit, *self, graph@, vertex);
            lemma_reach_refl(graph@, vertex);
            assert(self.stack@[old_len as int] == vertex);
        }
        let mut i: usize = 0;
        while i < graph[vertex].len()
            invariant
                n == graph@.len(),
                graph_ok(graph@),
                vertex < n,
                self.wf(n),
                self.keeps(*old(self), n),
                self.visited(vertex as int),
                self.num(vertex as int) == number,
                number >= old(self).index,
                count_some(self.indices@) > count_some(old(self).indices@),
                self.stack@.len() > old_len,
                self.stack@[old_len as int] == vertex,
                i <= graph@[vertex as int]@.len(),
                self.edges_ok(graph@),
                self.done@[vertex as int] == i,
                forall|u: int|
                    0 <= u < n && old(self).visited(u) ==> #[trigger] self.done@[u] == old(self).done@[u],
                forall|p: int|
                    old_len < p < self.stack@.len() ==> self.done@[#[trigger] self.stack@[p] as int]
                        == graph@[self.stack@[p] as int]@.len() && self.lowlinks@[self.stack@[p] as int]
                        >= self.lowlinks@[vertex as int] && self.lowlinks@[self.stack@[p] as int] < self.num(
                        self.stack@[p] as int,
                    ),
                self.stack_reach(graph@),
                self.comps_reach(graph@),
                forall|p: int|
                    old_len <= p < self.stack@.len() ==> #[trigger] reaches(graph@, vertex, self.stack@[p]),
            decreases graph@[vertex as int]@.len() - i,
        {
            let child = graph[vertex][i].0;
            assert(child < n);
            let ghost start = *self;
            proof {
                assert(self.stack@.len() > 0);
                assert(start.visited(start.stack@[0] as int));
            }
            if self.indices[child].is_none() {
                proof {
                    lemma_count_bound(self.indices@);
                }
                self.connect(graph, child);
                let ghost after = *self;
                proof {
                    assert(self.stack@[0] == start.stack@[0]);
                    assert(self.stack@[old_len as int] == vertex);
                    assert(self.lowlinks@[child as int] >= self.num(self.stack@[0] as int)) by {
                        if self.on_stack@[child as int] {
                            assert(self.stack@[start.stack@.len() as int] == child);
                        } else {
                            assert(start.num(start.stack@[0] as int) < start.index);
                        }
                    }
                }
                let lowlink = if self.lowlinks[vertex] <= self.lowlinks[child] {
                    self.lowlinks[vertex]
                } else {
                    self.lowlinks[child]
                };
                self.lowlinks.set(vertex, lowlink);
                proof {
                    Finder::lemma_lowlink_lowered_edges(after, *self, graph@, vertex as int);
                    assert forall|p: int|
                        old_len < p < self.stack@.len() implies self.done@[#[trigger] self.stack@[p] as int]
                            == graph@[self.stack@[p] as int]@.len() && self.lowlinks@[self.stack@[p] as int]
                            >= self.lowlinks@[vertex as int] by {
                        let u = self.stack@[p] as int;
                        assert(u != vertex as int) by {
                            assert(self.num(self.stack@[old_len as int] as int) < self.num(self.stack@[p] as int));
                        }
                        if p < start.stack@.len() {
                            assert(start.stack@[p] == self.stack@[p]);
                            assert(after.lowlinks@[u] == start.lowlinks@[u]);
                            assert(start.visited(u));
                        } else {
                            assert(after.on_stack@[child as int]);
                        }
                    }
                    if after.on_stack@[child as int] {
                        assert(after.num(child as int) > after.num(vertex as int));
                    }
                    Finder::lemma_keeps_trans(*old(self), start, after, n);
                    Finder::lemma_lowlink_lowered(after, *self, vertex as int, n);
                    after.lemma_wf_sorted(n);
                    assert(after.lowlinks@[vertex as int] < after.num(child as int)) by {
                        assert(start.lowlinks@[vertex as int] <= start.num(vertex as int));
                        assert(start.stack@[old_len as int] == vertex);
                    }
                    Finder::lemma_child_reach(start, after, *self, graph@, vertex, i as int, old_len as int);
                    assert(self.keeps(*old(self), n)) by {
                        assert forall|k: int| 0 <= k < old(self).stack@.len() implies self.lowlinks@[
                            #[trigger] old(self).stack@[k] as int] == old(self).lowlinks@[old(self).stack@[k] as int] by {
                            assert(old(self).visited(old(self).stack@[k] as int));
                            assert(old(self).stack@[k] != vertex);
                        }
                        assert(old(self).stack@.is_prefix_of(self.stack@));
                        assert(old(self).components@.is_prefix_of(self.components@));
                    }
                }
            } else if self.on_stack[child] {
                let num_child = self.indices[child].unwrap();
                proof {
                    assert(self.stack@.contains(child));
                    let k = choose|k: int| 0 <= k < self.stack@.len() && self.stack@[k] == child;
                    if k > 0 {
                        assert(self.num(self.stack@[0] as int) < self.num(self.stack@[k] as int));
                    }
                }
                let lowlink = if self.lowlinks[vertex] <= num_child {
                    self.lowlinks[vertex]
                } else {
                    num_child
                };
                self.lowlinks.set(vertex, lowlink);
                proof {
                    Finder::lemma_lowlink_lowered_edges(start, *self, graph@, vertex as int);
                    assert forall|p: int|
                        old_len < p < self.stack@.len() implies self.done@[#[trigger] self.stack@[p] as int]
                            == graph@[self.stack@[p] as int]@.len() && self.lowlinks@[self.stack@[p] as int]
                            >= self.lowlinks@[vertex as int] by {
                        let u = self.stack@[p] as int;
                        assert(u != vertex as int) by {
                            assert(self.num(self.stack@[old_len as int] as int) < self.num(self.stack@[p] as int));
                        }
                        assert(start.stack@[p] == self.stack@[p]);
                    }
                    Finder::lemma_lowlink_lowered(start, *self, vertex as int, n);
                    start.lemma_wf_sorted(n);
                    assert(start.stack@.contains(child));
                    let k = choose|k: int| 0 <= k < start.stack@.len() && start.stack@[k] == child;
                    lemma_reach_edge(graph@, vertex, i as int);
                    Finder::lemma_reach_lowered(start, *self, graph@, vertex as int, k);
                    assert(self.keeps(*old(self), n)) by {
                        assert forall|k: int| 0 <= k < old(self).stack@.len() implies self.lowlinks@[
                            #[trigger] old(self).stack@[k] as int] == old(self).lowlinks@[old(self).stack@[k] as int] by {
                            assert(old(self).visited(old(self).stack@[k] as int));
                            assert(old(self).stack@[k] != vertex);
                        }
                        assert(old(self).stack@.is_prefix_of(self.stack@));
                        assert(old(self).components@.is_prefix_of(self.components@));
                    }
                }
            } else {
                proof {
                    assert(self.keeps(*old(self), n));
                }
            }
            proof {
                let before_done = *self;
                self.done@ = self.done@.update(vertex as int, (i + 1) as nat);
                Finder::lemma_edge_followed(before_done, *self, graph@, vertex as int, i as int);
                Finder::lemma_reach_same(before_done, *self, graph@);
            }
            i = i + 1;
        }
        if self.lowlinks[vertex] == self.indices[vertex].unwrap() {
            let ghost before_pop = *self;
            self.pop_component(vertex, Ghost(n), Ghost(old_len as nat), Ghost(graph@));
            proof {
                assert(old(self).stack@.is_prefix_of(before_pop.stack@));
                assert(self.stack@ =~= old(self).stack@);
                assert(old(self).stack@.is_prefix_of(self.stack@));
                assert(old(self).components@.is_prefix_of(self.components@));
                assert forall|u: usize| #[trigger] old(self).owner@.contains_key(u) implies self.owner@.contains_key(u)
                    && self.owner@[u] == old(self).owner@[u] by {
                    assert(before_pop.owner@.contains_key(u));
                }
                assert(self.keeps(*old(self), n));
            }
        }
        proof {
            assert((self.stack@ == old(self).stack@ && self.lowlinks@[vertex as int] == self.num(
                vertex as int,
            )) || (self.on_stack@[vertex as int] && self.lowlinks@[vertex as int] < self.num(
                vertex as int,
            ) && self.stack@.len() > old(self).stack@.len() && self.stack@[old(self).stack@.len() as int]
                == vertex));
            assert(self.wf(n));
            assert(self.edges_ok(graph@));
            assert(self.visited(vertex as int));
            if old(self).stack@.len() == 0 && self.stack@.len() > 0 {
                assert(self.stack@[0] == vertex);
            }
            Finder::lemma_finished_ordered(*self, graph@);
            if self.stack@.len() == 0 {
                assert forall|w: usize| #[trigger] reaches(graph@, vertex, w) implies in_component(
                    self.components@,
                    DefIndex(w),
                ) by {
                    reveal(reaches);
                    let path = choose|path: Seq<usize>|
                        #[trigger] is_walk(graph@, path) && path[0] == vertex && path.last() == w;
                    assert(!self.on_stack@[vertex as int]);
                    assert(self.owner@.contains_key(vertex));
                    Finder::lemma_finished_closed(*self, graph@, path, 0);
                    assert(self.owner@.contains_key(w));
                    let c = self.owner@[w];
                    assert(Seq::<DefIndex>::empty().contains(DefIndex(w)) == false);
                    assert(self.components@[c]@.contains(DefIndex(w)));
                    let k = choose|k: int| 0 <= k < self.components@[c]@.len() && self.components@[c]@[k] == DefIndex(w);
                    assert(self.components@[c]@[k] == DefIndex(w));
                }
            }
        }
    }

    /// With no pending component, the vertices in finished components hold
    /// every vertex a walk from one of them leads to.
    proof fn lemma_finished_closed(f: Finder, graph: Seq<Vec<DefIndex>>, path: Seq<usize>, from: int)
        requires
            f.wf(graph.len()),
            f.edges_ok(graph),
            is_walk(graph, path),
            0 <= from < path.len(),
            f.owner@.contains_key(path[from]),
        ensures
            f.owner@.contains_key(path.last()),
        decreases path.len() - from,
    {
        if from < path.len() - 1 {
            let u = path[from] as int;
            assert(path[from] < graph.len());
            let k = choose|k: int|
                0 <= k < graph[path[from] as int]@.len() && #[trigger] graph[path[from] as int]@[k]
                    == DefIndex(path[from + 1]);
            assert(graph[u]@[k] == DefIndex(path[from + 1]));
            assert(f.owner@.contains_key(u as usize));
            assert(Seq::<DefIndex>::empty().contains(DefIndex(u as usize)) == false);
            assert(f.owner@[u as usize] < f.components@.len());
            Finder::lemma_finished_closed(f, graph, path, from + 1);
        }
    }

    /// With no pending component, edges between finished components lead
    /// to the same or an earlier one.
    proof fn lemma_finished_ordered(f: Finder, graph: Seq<Vec<DefIndex>>)
        requires
            f.wf(graph.len()),
            f.edges_ok(graph),
        ensures
            edges_go_back(graph, f.components@),
    {
        let comps = f.components@;
        assert forall|u: int, k: int, c1: int, k1: int, c2: int, k2: int|
            #![trigger graph[u]@[k], comps[c1]@[k1], comps[c2]@[k2]]
            0 <= u < graph.len() && 0 <= k < graph[u]@.len() && 0 <= c1 < comps.len() && 0 <= k1
                < comps[c1]@.len() && 0 <= c2 < comps.len() && 0 <= k2 < comps[c2]@.len() && comps[c1]@[k1]
                == DefIndex(u as usize) && comps[c2]@[k2] == graph[u]@[k] implies c2 <= c1 by {
            assert(f.owner@[comps[c1]@[k1].0] == c1);
            assert(f.owner@[comps[c2]@[k2].0] == c2);
        }
    }

    /// Following the edge numbered `i` of `v`, which leads to a visited
    /// vertex in a component or on the stack numbered no lower than the
    /// lowlink of `v`, keeps what holds of the followed edges.
    proof fn lemma_edge_followed(before: Finder, after: Finder, graph: Seq<Vec<DefIndex>>, v: int, i: int)
        requires
            before.wf(graph.len()),
            graph_ok(graph),
            before.edges_ok(graph),
            0 <= v < graph.len(),
            before.visited(v),
            before.on_stack@[v],
            0 <= i < graph[v]@.len(),
            before.done@[v] == i,
            after.done@ == before.done@.update(v, (i + 1) as nat),
            after.indices == before.indices,
            after.lowlinks == before.lowlinks,
            after.on_stack == before.on_stack,
            after.stack == before.stack,
            after.components == before.components,
            after.owner == before.owner,
            ({
                let w = graph[v]@[i].0 as int;
                &&& before.visited(w)
                &&& before.owner@.contains_key(w as usize) || (before.on_stack@[w] && before.num(w)
                    >= before.lowlinks@[v])
            }),
        ensures
            after.edges_ok(graph),
    {
        let n = graph.len();
        assert forall|u: int, k: int|
            #![trigger graph[u]@[k]]
            0 <= u < n && 0 <= k < after.done@[u] implies {
                let w = graph[u]@[k].0 as int;
                &&& after.visited(w)
                &&& after.owner@.contains_key(w as usize) || (after.on_stack@[w] && after.num(w)
                    >= after.lowlinks@[u])
            } by {
            if u == v && k == i {
            } else {
                assert(k < before.done@[u]);
            }
        }
        assert forall|u: int|
            0 <= u < n && #[trigger] after.owner@.contains_key(u as usize) && after.owner@[u as usize]
                < after.components@.len() implies after.done@[u] == graph[u]@.len() by {
            if u == v {
                assert(!before.owner@.contains_key(v as usize));
            }
        }
        assert forall|u: int| 0 <= u < n && #[trigger] after.done@[u] > 0 implies after.visited(u) by {
            if u != v {
                assert(before.done@[u] > 0);
            }
        }
    }

    /// Lowering the lowlink of `v` keeps what holds of the followed edges.
    proof fn lemma_lowlink_lowered_edges(before: Finder, after: Finder, graph: Seq<Vec<DefIndex>>, v: int)
        requires
            before.wf(graph.len()),
            before.edges_ok(graph),
            0 <= v < graph.len(),
            after.indices == before.indices,
            after.on_stack == before.on_stack,
            after.stack == before.stack,
            after.components == before.components,
            after.owner == before.owner,
            after.done == before.done,
            after.lowlinks@ == before.lowlinks@.update(v, after.lowlinks@[v]),
            after.lowlinks@[v] <= before.lowlinks@[v],
            after.lowlinks@.len() == before.lowlinks@.len(),
        ensures
            after.edges_ok(graph),
    {
        let n = graph.len();
        assert forall|u: int, k: int|
            #![trigger graph[u]@[k]]
            0 <= u < n && 0 <= k < after.done@[u] implies {
                let w = graph[u]@[k].0 as int;
                &&& after.visited(w)
                &&& after.owner@.contains_key(w as usize) || (after.on_stack@[w] && after.num(w)
                    >= after.lowlinks@[u])
            } by {
            assert(k < before.done@[u]);
        }
        assert forall|u: int| 0 <= u < n && #[trigger] after.done@[u] > 0 implies after.visited(u) by {
            assert(before.done@[u] > 0);
        }
    }

    proof fn lemma_keeps_trans(a: Finder, b: Finder, c: Finder, n: nat)
        requires
            b.keeps(a, n),
            c.keeps(b, n),
        ensures
            c.keeps(a, n),
    {
        assert forall|k: int| 0 <= k < a.stack@.len() implies c.lowlinks@[#[trigger] a.stack@[k] as int]
            == a.lowlinks@[a.stack@[k] as int] by {
            assert(a.stack@[k] == b.stack@[k]);
        }
        assert(a.stack@.is_prefix_of(c.stack@));
        assert(a.components@.is_prefix_of(c.components@));
    }

    /// Lowering the lowlink of the visited vertex `v`, on the stack, to a
    /// value no less than the number of the bottom of the stack keeps the
    /// invariant.
    proof fn lemma_lowlink_lowered(before: Finder, after: Finder, v: int, n: nat)
        requires
            before.wf(n),
            0 <= v < n,
            before.visited(v),
            before.on_stack@[v],
            after.indices == before.indices,
            after.stack == before.stack,
            after.on_stack == before.on_stack,
            after.components == before.components,
            after.owner == before.owner,
            after.index == before.index,
            after.lowlinks@ == before.lowlinks@.update(v, after.lowlinks@[v]),
            after.lowlinks@[v] <= before.lowlinks@[v],
            before.stack@.len() > 0,
            after.lowlinks@[v] >= before.num(before.stack@[0] as int),
        ensures
            after.wf(n),
    {
        assert forall|k: int| 0 <= k < after.stack@.len() implies {
            let u = #[trigger] after.stack@[k] as int;
            &&& 0 <= u < n
            &&& after.visited(u)
            &&& after.on_stack@[u]
            &&& after.lowlinks@[u] >= after.num(after.stack@[0] as int)
        } by {
            let u = after.stack@[k] as int;
            assert(before.stack@[k] as int == u);
        }
        assert forall|u: int| 0 <= u < n && after.visited(u) implies after.num(u) < after.index by {
            assert(before.visited(u));
        }
        assert forall|u: int| 0 <= u < n && after.visited(u) implies #[trigger] after.lowlinks@[u]
            <= after.num(u) by {
            assert(before.lowlinks@[u] <= before.num(u));
        }
    }

    /// Pop the component whose root `vertex` sits at `root` on the stack.
    fn pop_component(
        &mut self,
        vertex: usize,
        Ghost(n): Ghost<nat>,
        Ghost(root): Ghost<nat>,
        Ghost(graph): Ghost<Seq<Vec<DefIndex>>>,
    )
        requires
            old(self).wf(n),
            vertex < n,
            old(self).visited(vertex as int),
            old(self).stack@.len() > root,
            old(self).stack@[root as int] == vertex,
            graph.len() == n,
            graph_ok(graph),
            old(self).edges_ok(graph),
            forall|p: int|
                root <= p < old(self).stack@.len() ==> old(self).done@[#[trigger] old(self).stack@[p] as int]
                    == graph[old(self).stack@[p] as int]@.len() && old(self).lowlinks@[old(self).stack@[p] as int]
                    >= old(self).num(vertex as int),
            forall|p: int|
                root < p < old(self).stack@.len() ==> old(self).lowlinks@[#[trigger] old(self).stack@[p] as int]
                    < old(self).num(old(self).stack@[p] as int),
            forall|p: int|
                root <= p < old(self).stack@.len() ==> #[trigger] reaches(graph, vertex, old(self).stack@[p]),
            old(self).stack_reach(graph),
            old(self).comps_reach(graph),
        ensures
            final(self).wf(n),
            final(self).edges_ok(graph),
            final(self).stack_reach(graph),
            final(self).comps_reach(graph),
            final(self).done == old(self).done,
            final(self).stack@ == old(self).stack@.take(root as int),
            final(self).indices@ == old(self).indices@,
            final(self).lowlinks@ == old(self).lowlinks@,
            final(self).index == old(self).index,
            old(self).components@.is_prefix_of(final(self).components@),
            forall|u: usize| #[trigger]
                old(self).owner@.contains_key(u) ==> final(self).owner@.contains_key(u)
                    && final(self).owner@[u] == old(self).owner@[u],
            !final(self).on_stack@[vertex as int],
    {
        let ghost c_new = self.components@.len();
        let mut component: Vec<DefIndex> = Vec::new();
        loop
            invariant_except_break
                self.stack@.len() > root,
                self.stack@[root as int] == vertex,
            invariant
                old(self).wf(n),
                vertex < n,
                old(self).stack@.len() > root,
                old(self).stack@[root as int] == vertex,
                self.inv(n, component@),
                self.stack@.len() <= old(self).stack@.len(),
                self.stack@ == old(self).stack@.take(self.stack@.len() as int),
                self.indices@ == old(self).indices@,
                self.lowlinks@ == old(self).lowlinks@,
                self.index == old(self).index,
                self.components@ == old(self).components@,
                c_new == self.components@.len(),
                forall|u: usize| #[trigger]
                    old(self).owner@.contains_key(u) ==> self.owner@.contains_key(u)
                        && self.owner@[u] == old(self).owner@[u],
                graph.len() == n,
                graph_ok(graph),
                self.edges_ok(graph),
                self.done == old(self).done,
                component@.len() == old(self).stack@.len() - self.stack@.len(),
                forall|j: int|
                    0 <= j < component@.len() ==> (#[trigger] component@[j]).0 == old(self).stack@[old(
                        self,
                    ).stack@.len() - 1 - j],
            ensures
                self.edges_ok(graph),
                self.done == old(self).done,
                component@.len() == old(self).stack@.len() - root,
                forall|j: int|
                    0 <= j < component@.len() ==> (#[trigger] component@[j]).0 == old(self).stack@[old(
                        self,
                    ).stack@.len() - 1 - j],
                self.inv(n, component@),
                component@.len() > 0,
                self.stack@ == old(self).stack@.take(root as int),
                self.indices@ == old(self).indices@,
                self.lowlinks@ == old(self).lowlinks@,
                self.index == old(self).index,
                self.components@ == old(self).components@,
                c_new == self.components@.len(),
                forall|u: usize| #[trigger]
                    old(self).owner@.contains_key(u) ==> self.owner@.contains_key(u)
                        && self.owner@[u] == old(self).owner@[u],
                !self.on_stack@[vertex as int],
            decreases self.stack@.len(),
        {
            let ghost before = *self;
            let ghost pending = component@;
            let ghost top: int = self.stack@.len() - 1;
            let child = self.stack.pop().unwrap();
            assert(child == before.stack@[top as int]);
            assert forall|k: int| 0 <= k < pending.len() implies (#[trigger] pending[k]).0 != child by {
                assert(before.on_stack@[child as int]);
            }
            component.push(DefIndex(child));
            self.on_stack.set(child, false);
            proof {
                self.owner@ = self.owner@.insert(child, c_new as int);
                assert(self.stack@ =~= before.stack@.take(top));
                assert forall|i: int| 0 <= i < top implies #[trigger] self.stack@[i] == old(self).stack@[i] by {
                    assert(before.stack@[i] == old(self).stack@.take(before.stack@.len() as int)[i]);
                }
                assert(self.stack@ =~= old(self).stack@.take(self.stack@.len() as int));
                assert forall|k: int, l: int| 0 <= k < l < before.stack@.len() implies before.stack@[k]
                    != before.stack@[l] by {
                    assert(before.num(before.stack@[k] as int) < before.num(before.stack@[l] as int));
                }
                assert forall|u: int| 0 <= u < n && #[trigger] self.on_stack@[u] implies self.stack@.contains(
                    u as usize,
                ) by {
                    assert(before.stack@.contains(u as usize));
                    let k = choose|k: int| 0 <= k < before.stack@.len() && before.stack@[k] == u as usize;
                    assert(u != child as int);
                    assert(k != top);
                    assert(self.stack@[k] == u as usize);
                }
                assert(component@ =~= pending.push(DefIndex(child)));
                assert forall|u: usize| #[trigger] self.owner@.contains_key(u) implies {
                    let c = self.owner@[u];
                    ||| 0 <= c < self.components@.len() && self.components@[c]@.contains(DefIndex(u))
                    ||| c == self.components@.len() && component@.contains(DefIndex(u))
                } by {
                    if u != child {
                        assert(before.owner@.contains_key(u));
                        if before.owner@[u] == before.components@.len() {
                            let j = choose|j: int| 0 <= j < pending.len() && pending[j] == DefIndex(u);
                            assert(component@[j] == DefIndex(u));
                        }
                    } else {
                        assert(component@[pending.len() as int] == DefIndex(child));
                    }
                }
                assert(self.inv(n, component@));
                assert(self.stack@.len() == before.stack@.len() - 1);
                assert forall|j: int| 0 <= j < component@.len() implies (#[trigger] component@[j]).0
                    == old(self).stack@[old(self).stack@.len() - 1 - j] by {
                    if j < pending.len() {
                        assert(component@[j] == pending[j]);
                    } else {
                        assert(before.stack@[top as int] == old(self).stack@.take(before.stack@.len() as int)[top as int]);
                    }
                }
                assert forall|u: int, k: int|
                    #![trigger graph[u]@[k]]
                    0 <= u < n && 0 <= k < self.done@[u] implies {
                        let w = graph[u]@[k].0 as int;
                        &&& self.visited(w)
                        &&& self.owner@.contains_key(w as usize) || (self.on_stack@[w] && self.num(w)
                            >= self.lowlinks@[u])
                    } by {
                    let w = graph[u]@[k].0 as int;
                    if w == child as int {
                        assert(self.owner@.contains_key(child));
                    } else {
                        assert(before.owner@.contains_key(w as usize) ==> self.owner@.contains_key(w as usize));
                    }
                }
                assert forall|u: int|
                    0 <= u < n && #[trigger] self.owner@.contains_key(u as usize) && self.owner@[u as usize]
                        < self.components@.len() implies self.done@[u] == graph[u]@.len() by {
                    assert(before.owner@.contains_key(u as usize));
                }
                assert forall|u: int, k: int|
                    #![trigger graph[u]@[k]]
                    0 <= u < n && self.owner@.contains_key(u as usize) && self.owner@[u as usize]
                        < self.components@.len() && 0 <= k < graph[u]@.len() implies {
                        let w = graph[u]@[k].0;
                        &&& self.owner@.contains_key(w)
                        &&& self.owner@[w] <= self.owner@[u as usize]
                    } by {
                    assert(before.owner@.contains_key(u as usize));
                    assert(u as usize != child);
                    let w = graph[u]@[k].0;
                    assert(before.owner@.contains_key(w));
                    assert(before.owner@[w] < c_new);
                    assert(w != child);
                }
                assert(self.edges_ok(graph));
            }
            if child == vertex {
                assert(top == root);
                break;
            }
        }
        let ghost popped = *self;
        self.components.push(component);
        proof {
            assert(old(self).components@.is_prefix_of(self.components@));
            assert(self.inv(n, Seq::empty()));
            let old_len = old(self).stack@.len();
            // Every vertex of the new component was on the stack from `root` up.
            assert forall|u: int|
                #![trigger popped.owner@[u as usize]]
                0 <= u < n && popped.owner@.contains_key(u as usize) && popped.owner@[u as usize] == c_new
                implies exists|p: int| root <= p < old_len && #[trigger] old(self).stack@[p] == u as usize by {
                let j = choose|j: int| 0 <= j < component@.len() && component@[j] == DefIndex(u as usize);
                assert(component@[j].0 == old(self).stack@[old_len - 1 - j]);
            }
            assert forall|u: int|
                0 <= u < n && #[trigger] self.owner@.contains_key(u as usize) && self.owner@[u as usize]
                    < self.components@.len() implies self.done@[u] == graph[u]@.len() by {
                if popped.owner@[u as usize] == c_new {
                    let p = choose|p: int| root <= p < old_len && #[trigger] old(self).stack@[p] == u as usize;
                    assert(old(self).done@[old(self).stack@[p] as int] == graph[old(self).stack@[p] as int]@.len());
                }
            }
            assert forall|u: int, k: int|
                #![trigger graph[u]@[k]]
                0 <= u < n && self.owner@.contains_key(u as usize) && self.owner@[u as usize]
                    < self.components@.len() && 0 <= k < graph[u]@.len() implies {
                    let w = graph[u]@[k].0;
                    &&& self.owner@.contains_key(w)
                    &&& self.owner@[w] <= self.owner@[u as usize]
                } by {
                let w = graph[u]@[k].0;
                if popped.owner@[u as usize] == c_new {
                    let p = choose|p: int| root <= p < old_len && #[trigger] old(self).stack@[p] == u as usize;
                    assert(old(self).done@[u] == graph[u]@.len());
                    assert(old(self).lowlinks@[u] >= old(self).num(vertex as int));
                    assert(old(self).visited(u));
                    if old(self).owner@.contains_key(w) {
                        assert(old(self).owner@[w] < c_new);
                    } else {
                        assert(old(self).on_stack@[w as int]);
                        assert(old(self).num(w as int) >= old(self).num(vertex as int));
                        assert(old(self).stack@.contains(w));
                        let q = choose|q: int| 0 <= q < old_len && old(self).stack@[q] == w;
                        if q < root {
                            assert(old(self).num(old(self).stack@[q] as int) < old(self).num(old(self).stack@[root as int] as int));
                        }
                        let j = old_len - 1 - q;
                        assert(component@[j].0 == w);
                        assert(popped.owner@[w] == c_new);
                    }
                }
            }
            assert(self.edges_ok(graph));
            old(self).lemma_wf_sorted(n);
            Finder::lemma_reach_cut(*old(self), *self, graph, root as int);
            Finder::lemma_new_component_reach(*old(self), graph, root as int, component@);
            assert forall|c: int, k1: int, k2: int|
                0 <= c < self.components@.len() && 0 <= k1 < self.components@[c]@.len() && 0 <= k2
                    < self.components@[c]@.len() implies reaches(
                    graph,
                    (#[trigger] self.components@[c]@[k1]).0,
                    (#[trigger] self.components@[c]@[k2]).0,
                ) by {
                if c < c_new {
                    assert(self.components@[c] == old(self).components@[c]);
                    assert(old(self).components@[c]@[k1] == self.components@[c]@[k1]);
                    assert(old(self).components@[c]@[k2] == self.components@[c]@[k2]);
                } else {
                    assert(self.components@[c]@ == component@);
                    assert(component@[k1] == self.components@[c]@[k1]);
                    assert(component@[k2] == self.components@[c]@[k2]);
                }
            }
        }
    }
}

/// Find all the strongly connected components of `graph`, where vertex
/// `v`'s successors are `graph[v]`. Every vertex is in exactly one of them,
/// the vertices of each reach each other, and no edge leads to a later one.
pub fn components(graph: &Vec<Vec<DefIndex>>) -> (components: Components)
    requires
        graph_ok(graph@),
    ensures
        forall|c: int, k: int|
            0 <= c < components.ordered@.len() && 0 <= k < components.ordered@[c]@.len() ==> (
            #[trigger] components.ordered@[c]@[k]).0 < graph@.len(),
        forall|v: int|
            0 <= v < graph@.len() ==> #[trigger] in_component(
                components.ordered@,
                DefIndex(v as usize),
            ),
        forall|c1: int, k1: int, c2: int, k2: int|
            0 <= c1 < components.ordered@.len() && 0 <= k1 < components.ordered@[c1]@.len() && 0
                <= c2 < components.ordered@.len() && 0 <= k2 < components.ordered@[c2]@.len()
                && #[trigger] components.ordered@[c1]@[k1] == #[trigger] components.ordered@[c2]@[k2]
                ==> c1 == c2 && k1 == k2,
        forall|c: int|
            0 <= c < components.ordered@.len() ==> #[trigger] components.ordered@[c]@.len() > 0,
        forall|u: int, k: int, c1: int, k1: int, c2: int, k2: int|
            #![trigger graph@[u]@[k], components.ordered@[c1]@[k1], components.ordered@[c2]@[k2]]
            0 <= u < graph@.len() && 0 <= k < graph@[u]@.len() && 0 <= c1 < components.ordered@.len()
                && 0 <= k1 < components.ordered@[c1]@.len() && 0 <= c2 < components.ordered@.len() && 0
                <= k2 < components.ordered@[c2]@.len() && components.ordered@[c1]@[k1] == DefIndex(
                u as usize,
            ) && components.ordered@[c2]@[k2] == graph@[u]@[k] ==> c2 <= c1,
        ordered_partition(graph@, components.ordered@),
        strongly_connected_parts(graph@, components.ordered@),
{
    let n = graph.len();
    let mut indices: Vec<Option<usize>> = Vec::new();
    let mut lowlinks: Vec<usize> = Vec::new();
    let mut on_stack: Vec<bool> = Vec::new();
    let mut i: usize = 0;
    while i < n
        invariant
            i <= n,
            indices@.len() == i,
            lowlinks@.len() == i,
            on_stack@.len() == i,
            forall|u: int| 0 <= u < i ==> #[trigger] indices@[u] is None,
            forall|u: int| 0 <= u < i ==> !#[trigger] on_stack@[u],
        decreases n - i,
    {
        indices.push(None);
        lowlinks.push(0);
        on_stack.push(false);
        i = i + 1;
    }
    proof {
        lemma_count_none(indices@);
    }
    let mut finder = Finder {
        index: 0,
        indices,
        lowlinks,
        stack: Vec::new(),
        on_stack,
        components: Vec::new(),
        owner: Ghost(Map::empty()),
        done: Ghost(Seq::new(n as nat, |u: int| 0nat)),
    };
    assert(finder.wf(n as nat));
    assert(finder.edges_ok(graph@));
    assert(finder.stack_reach(graph@));
    assert(finder.comps_reach(graph@));
    let mut v: usize = 0;
    while v < n
        invariant
            v <= n,
            n == graph@.len(),
            graph_ok(graph@),
            finder.wf(n as nat),
            finder.edges_ok(graph@),
            finder.stack_reach(graph@),
            finder.comps_reach(graph@),
            finder.stack@.len() == 0,
            forall|u: int| 0 <= u < v ==> finder.visited(u),
        decreases n - v,
    {
        if finder.indices[v].is_none() {
            let ghost before = finder;
            finder.connect(graph, v);
            proof {
                if finder.on_stack@[v as int] {
                    assert(finder.stack@[0] == v);
                    assert(finder.lowlinks@[finder.stack@[0] as int] >= finder.num(
                        finder.stack@[0] as int,
                    ));
                }
                assert forall|u: int| 0 <= u < v implies finder.visited(u) by {
                    assert(before.visited(u));
                }
            }
        }
        v = v + 1;
    }
    let ghost f = finder;
    proof {
        assert forall|u: int| 0 <= u < n implies !f.on_stack@[u] by {
            if f.on_stack@[u] {
                assert(f.stack@.contains(u as usize));
            }
        }
        assert forall|v: int| 0 <= v < n implies #[trigger] in_component(
            f.components@,
            DefIndex(v as usize),
        ) by {
            assert(f.owner@.contains_key(v as usize));
            let c = f.owner@[v as usize];
            let k = choose|k: int| 0 <= k < f.components@[c]@.len() && f.components@[c]@[k] == DefIndex(v as usize);
            assert(f.components@[c]@[k] == DefIndex(v as usize));
        }
        assert forall|u: int, k: int, c1: int, k1: int, c2: int, k2: int|
            #![trigger graph@[u]@[k], f.components@[c1]@[k1], f.components@[c2]@[k2]]
            0 <= u < graph@.len() && 0 <= k < graph@[u]@.len() && 0 <= c1 < f.components@.len()
                && 0 <= k1 < f.components@[c1]@.len() && 0 <= c2 < f.components@.len() && 0
                <= k2 < f.components@[c2]@.len() && f.components@[c1]@[k1] == DefIndex(
                u as usize,
            ) && f.components@[c2]@[k2] == graph@[u]@[k] implies c2 <= c1 by {
            assert(f.owner@[u as usize] == c1);
            assert(f.owner@[graph@[u]@[k].0] == c2);
            assert(f.owner@.contains_key(u as usize));
        }
        assert forall|c1: int, k1: int, c2: int, k2: int|
            0 <= c1 < f.components@.len() && 0 <= k1 < f.components@[c1]@.len() && 0 <= c2
                < f.components@.len() && 0 <= k2 < f.components@[c2]@.len()
                && #[trigger] f.components@[c1]@[k1] == #[trigger] f.components@[c2]@[k2]
            implies c1 == c2 && k1 == k2 by {
            if k1 < k2 && c1 == c2 {
                assert(f.components@[c1]@[k1] != f.components@[c1]@[k2]);
            } else if k2 < k1 && c1 == c2 {
                assert(f.components@[c1]@[k2] != f.components@[c1]@[k1]);
            }
        }
    }
    proof {
        lemma_components_ordered(graph@, f.components@);
        assert forall|c: int, k1: int, k2: int|
            0 <= c < f.components@.len() && 0 <= k1 < f.components@[c]@.len() && 0 <= k2
                < f.components@[c]@.len() implies reaches(
                graph@,
                (#[trigger] f.components@[c]@[k1]).0,
                (#[trigger] f.components@[c]@[k2]).0,
            ) by {}
    }
    Components { ordered: finder.components }
}

/// Whether `path` walks along the edges of `graph`.
pub open spec fn is_walk(graph: Seq<Vec<DefIndex>>, path: Seq<usize>) -> bool {
    &&& path.len() > 0
    &&& forall|i: int| 0 <= i < path.len() ==> #[trigger] path[i] < graph.len()
    &&& forall|i: int|
        #![trigger path[i]]
        0 <= i < path.len() - 1 ==> exists|k: int|
            0 <= k < graph[path[i] as int]@.len() && #[trigger] graph[path[i] as int]@[k] == DefIndex(
                path[i + 1],
            )
}

/// Whether some walk of `graph` leads from `a` to `b`.
#[verifier::opaque]
pub open spec fn reaches(graph: Seq<Vec<DefIndex>>, a: usize, b: usize) -> bool {
    exists|path: Seq<usize>| #[trigger] is_walk(graph, path) && path[0] == a && path.last() == b
}

/// Every vertex reaches itself.
#[verifier::spinoff_prover]
proof fn lemma_reach_refl(graph: Seq<Vec<DefIndex>>, a: usize)
    requires
        a < graph.len(),
    ensures
        reaches(graph, a, a),
{
    reveal(reaches);
    let path = seq![a];
    assert(is_walk(graph, path));
}

/// A vertex reaches where its edges lead.
#[verifier::spinoff_prover]
proof fn lemma_reach_edge(graph: Seq<Vec<DefIndex>>, a: usize, k: int)
    requires
        graph_ok(graph),
        a < graph.len(),
        0 <= k < graph[a as int]@.len(),
    ensures
        reaches(graph, a, graph[a as int]@[k].0),
{
    reveal(reaches);
    let b = graph[a as int]@[k].0;
    let path = seq![a, b];
    assert(path[0] == a);
    assert(path[1] == b);
    assert forall|i: int|
        #![trigger path[i]]
        0 <= i < path.len() - 1 implies exists|k2: int|
            0 <= k2 < graph[path[i] as int]@.len() && #[trigger] graph[path[i] as int]@[k2] == DefIndex(path[i + 1]) by {
        assert(i == 0);
        assert(graph[path[0] as int]@[k] == DefIndex(path[0int + 1]));
    }
    assert(is_walk(graph, path));
}

/// Reaching is transitive.
#[verifier::spinoff_prover]
#[verifier::rlimit(50)]
proof fn lemma_reach_trans(graph: Seq<Vec<DefIndex>>, a: usize, b: usize, c: usize)
    requires
        reaches(graph, a, b),
        reaches(graph, b, c),
    ensures
        reaches(graph, a, c),
{
    reveal(reaches);
    let p = choose|p: Seq<usize>| #[trigger] is_walk(graph, p) && p[0] == a && p.last() == b;
    let q = choose|q: Seq<usize>| #[trigger] is_walk(graph, q) && q[0] == b && q.last() == c;
    let r = p + q.drop_first();
    assert forall|i: int| 0 <= i < r.len() implies #[trigger] r[i] < graph.len() by {
        if i < p.len() {
            assert(r[i] == p[i]);
        } else {
            assert(r[i] == q[i - p.len() + 1]);
        }
    }
    assert forall|i: int|
        #![trigger r[i]]
        0 <= i < r.len() - 1 implies exists|k: int|
            0 <= k < graph[r[i] as int]@.len() && #[trigger] graph[r[i] as int]@[k] == DefIndex(r[i + 1]) by {
        if i < p.len() - 1 {
            assert(r[i] == p[i]);
            assert(r[i + 1] == p[i + 1]);
            assert(p[i] < graph.len());
            let k = choose|k: int| 0 <= k < graph[p[i] as int]@.len() && #[trigger] graph[p[i] as int]@[k] == DefIndex(p[i + 1]);
            assert(graph[r[i] as int]@[k] == DefIndex(r[i + 1]));
        } else {
            let j = i - p.len() + 1;
            assert(0 <= j < q.len() - 1);
            if i == p.len() - 1 {
                assert(r[i] == p.last());
                assert(p.last() == q[0]);
            } else {
                assert(r[i] == q[j]);
            }
            assert(r[i] == q[j]);
            assert(r[i + 1] == q[j + 1]);
            assert(q[j] < graph.len());
            let k = choose|k: int| 0 <= k < graph[q[j] as int]@.len() && #[trigger] graph[q[j] as int]@[k] == DefIndex(q[j + 1]);
            assert(graph[r[i] as int]@[k] == DefIndex(r[i + 1]));
        }
    }
    assert(r.len() > 0);
    assert(r[0] == a);
    if q.len() == 1 {
        assert(r =~= p);
    } else {
        assert(r.last() == q.last());
    }
    assert(is_walk(graph, r));
}

/// If `v` reaches the vertices of `before` from `from` on, and the edge
/// numbered `k` of `v` leads to a vertex that reaches those of `after` past
/// `before`, of which `before` is a prefix, then `v` reaches the vertices of
/// `after` from `from` on.
#[verifier::spinoff_prover]
proof fn lemma_reach_extend(
    graph: Seq<Vec<DefIndex>>,
    v: usize,
    k: int,
    before: Seq<usize>,
    after: Seq<usize>,
    from: int,
)
    requires
        graph_ok(graph),
        v < graph.len(),
        0 <= k < graph[v as int]@.len(),
        0 <= from <= before.len(),
        before.is_prefix_of(after),
        forall|p: int| from <= p < before.len() ==> #[trigger] reaches(graph, v, before[p]),
        forall|p: int|
            before.len() <= p < after.len() ==> #[trigger] reaches(graph, graph[v as int]@[k].0, after[p]),
    ensures
        forall|p: int| from <= p < after.len() ==> #[trigger] reaches(graph, v, after[p]),
{
    assert forall|p: int| from <= p < after.len() implies #[trigger] reaches(graph, v, after[p]) by {
        if p < before.len() {
            assert(after[p] == before[p]);
            assert(reaches(graph, v, before[p]));
        } else {
            lemma_reach_edge(graph, v, k);
            assert(reaches(graph, graph[v as int]@[k].0, after[p]));
            lemma_reach_trans(graph, v, graph[v as int]@[k].0, after[p]);
        }
    }
}

/// Whether `comps` splits the vertices of `graph` into nonempty parts, each
/// vertex in exactly one, with every edge leading to the same or an earlier
/// part.
pub open spec fn ordered_partition(graph: Seq<Vec<DefIndex>>, comps: Seq<Vec<DefIndex>>) -> bool {
    &&& forall|v: int| 0 <= v < graph.len() ==> #[trigger] in_component(comps, DefIndex(v as usize))
    &&& forall|c1: int, k1: int, c2: int, k2: int|
        0 <= c1 < comps.len() && 0 <= k1 < comps[c1]@.len() && 0 <= c2 < comps.len() && 0 <= k2
            < comps[c2]@.len() && #[trigger] comps[c1]@[k1] == #[trigger] comps[c2]@[k2] ==> c1 == c2 && k1
            == k2
    &&& forall|u: int, k: int, c1: int, k1: int, c2: int, k2: int|
        #![trigger graph[u]@[k], comps[c1]@[k1], comps[c2]@[k2]]
        0 <= u < graph.len() && 0 <= k < graph[u]@.len() && 0 <= c1 < comps.len() && 0 <= k1
            < comps[c1]@.len() && 0 <= c2 < comps.len() && 0 <= k2 < comps[c2]@.len() && comps[c1]@[k1]
            == DefIndex(u as usize) && comps[c2]@[k2] == graph[u]@[k] ==> c2 <= c1
}

/// Whether every edge of `graph` between vertices of `comps` leads to the
/// same or an earlier part: the parts come in reverse topological order.
pub open spec fn edges_go_back(graph: Seq<Vec<DefIndex>>, comps: Seq<Vec<DefIndex>>) -> bool {
    forall|u: int, k: int, c1: int, k1: int, c2: int, k2: int|
        #![trigger graph[u]@[k], comps[c1]@[k1], comps[c2]@[k2]]
        0 <= u < graph.len() && 0 <= k < graph[u]@.len() && 0 <= c1 < comps.len() && 0 <= k1
            < comps[c1]@.len() && 0 <= c2 < comps.len() && 0 <= k2 < comps[c2]@.len() && comps[c1]@[k1]
            == DefIndex(u as usize) && comps[c2]@[k2] == graph[u]@[k] ==> c2 <= c1
}

/// Whether the vertices of each part of `comps` reach each other in `graph`.
pub open spec fn strongly_connected_parts(graph: Seq<Vec<DefIndex>>, comps: Seq<Vec<DefIndex>>) -> bool {
    forall|c: int, k1: int, k2: int|
        0 <= c < comps.len() && 0 <= k1 < comps[c]@.len() && 0 <= k2 < comps[c]@.len() ==> reaches(
            graph,
            (#[trigger] comps[c]@[k1]).0,
            (#[trigger] comps[c]@[k2]).0,
        )
}

/// Two vertices are in the same strongly connected component exactly when
/// each reaches the other.
pub proof fn law_same_component_iff_mutual_reach(
    graph: Seq<Vec<DefIndex>>,
    comps: Seq<Vec<DefIndex>>,
    c1: int,
    k1: int,
    c2: int,
    k2: int,
)
    requires
        ordered_partition(graph, comps),
        strongly_connected_parts(graph, comps),
        0 <= c1 < comps.len(),
        0 <= k1 < comps[c1]@.len(),
        0 <= c2 < comps.len(),
        0 <= k2 < comps[c2]@.len(),
    ensures
        c1 == c2 <==> (reaches(graph, comps[c1]@[k1].0, comps[c2]@[k2].0) && reaches(
            graph,
            comps[c2]@[k2].0,
            comps[c1]@[k1].0,
        )),
{
    let a = comps[c1]@[k1].0;
    let b = comps[c2]@[k2].0;
    if c1 == c2 {
        assert(reaches(graph, comps[c1]@[k1].0, comps[c1]@[k2].0));
        assert(reaches(graph, comps[c1]@[k2].0, comps[c1]@[k1].0));
    } else if reaches(graph, a, b) && reaches(graph, b, a) {
        reveal(reaches);
        let there = choose|path: Seq<usize>| #[trigger] is_walk(graph, path) && path[0] == a && path.last() == b;
        let back = choose|path: Seq<usize>| #[trigger] is_walk(graph, path) && path[0] == b && path.last() == a;
        assert(comps[c1]@[k1] == DefIndex(there[0]));
        assert(comps[c2]@[k2] == DefIndex(there.last()));
        law_mutual_reach_same_component(graph, comps, there, back, c1, k1, c2, k2);
    }
}

/// The components that `components` finds split the graph in order.
pub proof fn lemma_components_ordered(graph: Seq<Vec<DefIndex>>, comps: Seq<Vec<DefIndex>>)
    requires
        forall|v: int| 0 <= v < graph.len() ==> #[trigger] in_component(comps, DefIndex(v as usize)),
        forall|c1: int, k1: int, c2: int, k2: int|
            0 <= c1 < comps.len() && 0 <= k1 < comps[c1]@.len() && 0 <= c2 < comps.len() && 0 <= k2
                < comps[c2]@.len() && #[trigger] comps[c1]@[k1] == #[trigger] comps[c2]@[k2] ==> c1 == c2
                && k1 == k2,
        forall|u: int, k: int, c1: int, k1: int, c2: int, k2: int|
            #![trigger graph[u]@[k], comps[c1]@[k1], comps[c2]@[k2]]
            0 <= u < graph.len() && 0 <= k < graph[u]@.len() && 0 <= c1 < comps.len() && 0 <= k1
                < comps[c1]@.len() && 0 <= c2 < comps.len() && 0 <= k2 < comps[c2]@.len() && comps[c1]@[k1]
                == DefIndex(u as usize) && comps[c2]@[k2] == graph[u]@[k] ==> c2 <= c1,
    ensures
        ordered_partition(graph, comps),
{
}

/// Along a walk from its vertex numbered `from` on, the components come no
/// later.
#[verifier::spinoff_prover]
proof fn lemma_walk_back_from(
    graph: Seq<Vec<DefIndex>>,
    comps: Seq<Vec<DefIndex>>,
    path: Seq<usize>,
    from: int,
    c1: int,
    k1: int,
    c2: int,
    k2: int,
)
    requires
        ordered_partition(graph, comps),
        is_walk(graph, path),
        0 <= from < path.len(),
        0 <= c1 < comps.len(),
        0 <= k1 < comps[c1]@.len(),
        comps[c1]@[k1] == DefIndex(path[from]),
        0 <= c2 < comps.len(),
        0 <= k2 < comps[c2]@.len(),
        comps[c2]@[k2] == DefIndex(path.last()),
    ensures
        c2 <= c1,
    decreases path.len() - from,
{
    if from == path.len() - 1 {
        assert(comps[c1]@[k1] == comps[c2]@[k2]);
    } else {
        let b = path[from + 1];
        assert(path[from + 1] < graph.len());
        assert(in_component(comps, DefIndex(b)));
        let (cb, kb) = choose|c: int, k: int|
            0 <= c < comps.len() && 0 <= k < comps[c]@.len() && #[trigger] comps[c]@[k] == DefIndex(b);
        let a = path[from] as int;
        assert(path[from] < graph.len());
        let k = choose|k: int| 0 <= k < graph[path[from] as int]@.len() && #[trigger] graph[path[from] as int]@[k] == DefIndex(path[from + 1]);
        assert(graph[a]@[k] == DefIndex(b));
        assert(comps[c1]@[k1] == DefIndex(a as usize));
        assert(cb <= c1);
        lemma_walk_back_from(graph, comps, path, from + 1, cb, kb, c2, k2);
    }
}

/// Along any walk of the graph, the components of its vertices come no
/// later: a vertex reaches only vertices of its own or earlier components.
#[verifier::spinoff_prover]
pub proof fn law_walks_go_back(
    graph: Seq<Vec<DefIndex>>,
    comps: Seq<Vec<DefIndex>>,
    path: Seq<usize>,
    c1: int,
    k1: int,
    c2: int,
    k2: int,
)
    requires
        ordered_partition(graph, comps),
        is_walk(graph, path),
        0 <= c1 < comps.len(),
        0 <= k1 < comps[c1]@.len(),
        comps[c1]@[k1] == DefIndex(path[0]),
        0 <= c2 < comps.len(),
        0 <= k2 < comps[c2]@.len(),
        comps[c2]@[k2] == DefIndex(path.last()),
    ensures
        c2 <= c1,
{
    lemma_walk_back_from(graph, comps, path, 0, c1, k1, c2, k2);
}

/// Two vertices that reach each other are in the same component.
pub proof fn law_mutual_reach_same_component(
    graph: Seq<Vec<DefIndex>>,
    comps: Seq<Vec<DefIndex>>,
    there: Seq<usize>,
    back: Seq<usize>,
    c1: int,
    k1: int,
    c2: int,
    k2: int,
)
    requires
        ordered_partition(graph, comps),
        is_walk(graph, there),
        is_walk(graph, back),
        back[0] == there.last(),
        back.last() == there[0],
        0 <= c1 < comps.len(),
        0 <= k1 < comps[c1]@.len(),
        comps[c1]@[k1] == DefIndex(there[0]),
        0 <= c2 < comps.len(),
        0 <= k2 < comps[c2]@.len(),
        comps[c2]@[k2] == DefIndex(there.last()),
    ensures
        c1 == c2,
{
    law_walks_go_back(graph, comps, there, c1, k1, c2, k2);
    law_walks_go_back(graph, comps, back, c2, k2, c1, k1);
}

proof fn lemma_count_none(s: Seq<Option<usize>>)
    requires
        forall|u: int| 0 <= u < s.len() ==> #[trigger] s[u] is None,
    ensures
        count_some(s) == 0,
    decreases s.len(),
{
    if s.len() > 0 {
        lemma_count_none(s.drop_last());
    }
}

} // verus!
