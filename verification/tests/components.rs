use zippy_frontend::components::{components, DefIndex};

fn graph(edges: &[&[usize]]) -> Vec<Vec<DefIndex>> {
    edges.iter().map(|succ| succ.iter().map(|&v| DefIndex(v)).collect()).collect()
}

fn sorted(component: &[DefIndex]) -> Vec<usize> {
    let mut v: Vec<usize> = component.iter().map(|d| d.0).collect();
    v.sort();
    v
}

#[test]
fn components_of_a_cycle_and_a_tail() {
    // 0 -> 1 -> 2 -> 0, 2 -> 3
    let g = graph(&[&[1], &[2], &[0, 3], &[]]);
    let c = components(&g);
    assert_eq!(c.ordered.len(), 2);
    // Dependencies come first: the tail's component is found before the cycle.
    assert_eq!(sorted(&c.ordered[0]), vec![3]);
    assert_eq!(sorted(&c.ordered[1]), vec![0, 1, 2]);
}

#[test]
fn components_of_a_chain() {
    // 0 -> 1 -> 2
    let g = graph(&[&[1], &[2], &[]]);
    let c = components(&g);
    let found: Vec<Vec<usize>> = c.ordered.iter().map(|c| sorted(c)).collect();
    assert_eq!(found, vec![vec![2], vec![1], vec![0]]);
}

#[test]
fn components_of_a_self_loop_and_isolated_vertices() {
    let g = graph(&[&[0], &[], &[1]]);
    let c = components(&g);
    let found: Vec<Vec<usize>> = c.ordered.iter().map(|c| sorted(c)).collect();
    assert_eq!(found, vec![vec![0], vec![1], vec![2]]);
}

#[test]
fn components_of_two_cycles() {
    // 0 <-> 1, 1 -> 2, 2 <-> 3
    let g = graph(&[&[1], &[0, 2], &[3], &[2]]);
    let c = components(&g);
    let found: Vec<Vec<usize>> = c.ordered.iter().map(|c| sorted(c)).collect();
    assert_eq!(found, vec![vec![2, 3], vec![0, 1]]);
}

#[test]
fn components_of_empty_graph() {
    let c = components(&Vec::new());
    assert!(c.ordered.is_empty());
}

#[test]
fn every_vertex_in_exactly_one_component() {
    let g = graph(&[&[3], &[0], &[1, 4], &[1], &[2], &[]]);
    let c = components(&g);
    let mut seen = vec![0; 6];
    for comp in &c.ordered {
        assert!(!comp.is_empty());
        for v in comp {
            seen[v.0] += 1;
        }
    }
    assert_eq!(seen, vec![1; 6]);
}

#[test]
fn every_edge_leads_to_the_same_or_an_earlier_component() {
    // 0 -> 1 <-> 2, 2 -> 3, 4 -> 0, 4 -> 3
    let edges: &[&[usize]] = &[&[1], &[2], &[1, 3], &[], &[0, 3]];
    let g = graph(edges);
    let c = components(&g);
    let component_of = |v: usize| c.ordered.iter().position(|comp| comp.contains(&DefIndex(v))).unwrap();
    for (u, succ) in edges.iter().enumerate() {
        for &w in succ.iter() {
            assert!(component_of(w) <= component_of(u));
        }
    }
    assert_eq!(component_of(1), component_of(2));
    assert_ne!(component_of(0), component_of(1));
}

fn reachable(g: &[Vec<DefIndex>], from: usize) -> Vec<bool> {
    let mut seen = vec![false; g.len()];
    let mut todo = vec![from];
    seen[from] = true;
    while let Some(u) = todo.pop() {
        for w in &g[u] {
            if !seen[w.0] {
                seen[w.0] = true;
                todo.push(w.0);
            }
        }
    }
    seen
}

#[test]
fn vertices_reach_each_other_exactly_within_a_component() {
    // Two cycles joined one way, a self loop, and a vertex feeding into it all.
    let g = graph(&[&[1], &[2], &[0, 3], &[4], &[3, 5], &[5], &[0, 5]]);
    let c = components(&g);
    let mut owner = vec![usize::MAX; g.len()];
    for (i, comp) in c.ordered.iter().enumerate() {
        for v in comp {
            owner[v.0] = i;
        }
    }
    for a in 0..g.len() {
        let from_a = reachable(&g, a);
        for b in 0..g.len() {
            let mutual = from_a[b] && reachable(&g, b)[a];
            assert_eq!(owner[a] == owner[b], mutual, "vertices {} and {}", a, b);
        }
    }
}
