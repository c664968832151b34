use call_stack::graph::{CallGraph, Node};
use call_stack::propagate::propagate;
use call_stack::usage::{max_of, Local, Max};

fn graph(locals: &[Option<u64>], edges: &[(usize, usize)]) -> CallGraph {
    let mut g = CallGraph::new();
    for (i, local) in locals.iter().enumerate() {
        g.add_node(Node(format!("f{}", i), *local, false));
    }
    for (a, b) in edges {
        g.add_edge(*a, *b);
    }
    g
}

fn bounds(g: &CallGraph) -> Vec<Option<Max>> {
    (0..g.node_count()).map(|i| g.node(i).max).collect()
}

#[test]
fn simple_chain() {
    let mut g = graph(&[Some(8), Some(16), Some(4)], &[(0, 1), (1, 2)]);
    let cycles = propagate(&mut g);
    assert!(cycles.is_empty());
    assert_eq!(
        bounds(&g),
        vec![Some(Max::Exact(28)), Some(Max::Exact(20)), Some(Max::Exact(4))]
    );
}

#[test]
fn branch_takes_the_larger_callee() {
    let mut g = graph(&[Some(8), Some(16), Some(32)], &[(0, 1), (0, 2)]);
    propagate(&mut g);
    assert_eq!(g.node(0).max, Some(Max::Exact(40)));
    assert_eq!(g.node(1).max, Some(Max::Exact(16)));
    assert_eq!(g.node(2).max, Some(Max::Exact(32)));
}

#[test]
fn unknown_leaf_gives_lower_bounds() {
    let mut g = graph(&[Some(8), None], &[(0, 1)]);
    propagate(&mut g);
    assert_eq!(g.node(1).max, Some(Max::LowerBound(0)));
    assert_eq!(g.node(0).max, Some(Max::LowerBound(8)));
}

#[test]
fn recursive_pair() {
    let mut g = graph(&[Some(8), Some(16)], &[(0, 1), (1, 0)]);
    let cycles = propagate(&mut g);
    assert_eq!(g.node(0).max, Some(Max::LowerBound(16)));
    assert_eq!(g.node(1).max, Some(Max::LowerBound(16)));
    assert_eq!(cycles.len(), 1);
    let mut members = cycles[0].clone();
    members.sort();
    assert_eq!(members, vec![0, 1]);
}

#[test]
fn zero_cost_cycle_stays_exact() {
    let mut g = graph(&[Some(0), Some(0)], &[(0, 1), (1, 0)]);
    propagate(&mut g);
    assert_eq!(g.node(0).max, Some(Max::Exact(0)));
    assert_eq!(g.node(1).max, Some(Max::Exact(0)));
}

#[test]
fn self_loop_is_a_cycle() {
    let mut g = graph(&[Some(8), Some(4)], &[(0, 0), (0, 1)]);
    let cycles = propagate(&mut g);
    assert_eq!(cycles, vec![vec![0]]);
    assert_eq!(g.node(0).max, Some(Max::LowerBound(12)));
    assert_eq!(g.node(1).max, Some(Max::Exact(4)));
}

#[test]
fn cycle_adds_the_largest_bound_outside() {
    // 0 <-> 1, 0 -> 2, 1 -> 3, 4 -> 0
    let mut g = graph(
        &[Some(8), Some(16), Some(100), Some(7), Some(1)],
        &[(0, 1), (1, 0), (0, 2), (1, 3), (4, 0)],
    );
    propagate(&mut g);
    assert_eq!(g.node(2).max, Some(Max::Exact(100)));
    assert_eq!(g.node(3).max, Some(Max::Exact(7)));
    assert_eq!(g.node(0).max, Some(Max::LowerBound(116)));
    assert_eq!(g.node(1).max, Some(Max::LowerBound(116)));
    assert_eq!(g.node(4).max, Some(Max::LowerBound(117)));
}

#[test]
fn cycle_with_unknown_member_is_a_lower_bound() {
    let mut g = graph(&[Some(0), None], &[(0, 1), (1, 0)]);
    propagate(&mut g);
    assert_eq!(g.node(0).max, Some(Max::LowerBound(0)));
    assert_eq!(g.node(1).max, Some(Max::LowerBound(0)));
}

#[test]
fn isolated_nodes_get_their_own_usage() {
    let mut g = graph(&[Some(3), None], &[]);
    let cycles = propagate(&mut g);
    assert!(cycles.is_empty());
    assert_eq!(g.node(0).max, Some(Max::Exact(3)));
    assert_eq!(g.node(1).max, Some(Max::LowerBound(0)));
}

#[test]
fn empty_graph_has_nothing_to_bound() {
    let mut g = CallGraph::new();
    let cycles = propagate(&mut g);
    assert!(cycles.is_empty());
    assert_eq!(g.node_count(), 0);
}

#[test]
fn every_bound_covers_the_local_usage() {
    let mut g = graph(
        &[Some(8), Some(16), None, Some(7), Some(1), Some(0)],
        &[(0, 1), (1, 0), (0, 2), (1, 3), (4, 0), (5, 5), (3, 5)],
    );
    propagate(&mut g);
    for i in 0..g.node_count() {
        let node = g.node(i);
        assert!(node.max.unwrap().bytes() >= node.local.bytes());
    }
}

#[test]
fn every_bound_covers_the_callees_off_cycles() {
    let edges = [(0, 1), (0, 2), (1, 3), (2, 3), (3, 4)];
    let mut g = graph(&[Some(8), Some(16), Some(2), Some(7), Some(1)], &edges);
    propagate(&mut g);
    for (u, v) in edges {
        let bu = g.node(u).max.unwrap().bytes();
        let bv = g.node(v).max.unwrap().bytes();
        assert!(bu >= g.node(u).local.bytes() + bv);
    }
    // node 1 has the largest bound among the callees of node 0
    assert_eq!(g.node(0).max, Some(Max::Exact(8 + 16 + 7 + 1)));
    assert_eq!(g.node(2).max, Some(Max::Exact(2 + 7 + 1)));
}

#[test]
fn uncertainty_reaches_every_caller() {
    let mut g = graph(
        &[Some(8), Some(16), Some(2), None, Some(1)],
        &[(0, 1), (1, 2), (2, 3), (4, 2)],
    );
    propagate(&mut g);
    for i in [0usize, 1, 2, 3, 4] {
        assert!(matches!(g.node(i).max, Some(Max::LowerBound(_))));
    }
    assert_eq!(g.node(0).max, Some(Max::LowerBound(26)));
}

#[test]
fn propagation_keeps_names_and_usage() {
    let mut g = graph(&[Some(8), None], &[(0, 1)]);
    propagate(&mut g);
    assert_eq!(g.node(0).name, "f0");
    assert_eq!(g.node(0).local, Local::Exact(8));
    assert_eq!(g.node(1).local, Local::Unknown);
    assert!(!g.node(0).dashed);
    assert_eq!(g.neighbors(0), vec![1]);
}

#[test]
fn neighbors_come_most_recent_first() {
    let g = graph(&[None, None, None, None], &[(0, 1), (0, 2), (3, 0), (0, 3), (0, 1)]);
    assert_eq!(g.neighbors(0), vec![1, 3, 2, 1]);
    assert_eq!(g.neighbors(1), Vec::<usize>::new());
    assert_eq!(g.neighbors(3), vec![0]);
    assert_eq!(g.edge_count(), 5);
}

#[test]
fn components_come_callees_first() {
    let g = graph(&[None, None, None, None], &[(0, 1), (1, 2), (2, 1), (2, 3)]);
    let mut comps = g.components();
    for c in comps.iter_mut() {
        c.sort();
    }
    assert_eq!(comps, vec![vec![3], vec![1, 2], vec![0]]);
}

#[test]
fn reached_nodes_start_with_the_entry() {
    let g = graph(&[None, None, None, None], &[(0, 1), (1, 2), (3, 0)]);
    assert_eq!(g.reached_from(0), vec![0, 1, 2]);
    assert_eq!(g.reached_from(2), vec![2]);
    let mut all = g.reached_from(3);
    all.sort();
    assert_eq!(all, vec![0, 1, 2, 3]);
}

#[test]
fn callees_of_equal_bound_both_give_the_bound() {
    let mut g = graph(&[Some(8), Some(16), Some(16), Some(4)], &[(0, 1), (0, 2), (0, 3)]);
    propagate(&mut g);
    let a = g.node(0).max.unwrap().bytes();
    assert_eq!(a, 24);
    assert_eq!(a, g.node(0).local.bytes() + g.node(1).max.unwrap().bytes());
    assert_eq!(a, g.node(0).local.bytes() + g.node(2).max.unwrap().bytes());
    assert!(a > g.node(0).local.bytes() + g.node(3).max.unwrap().bytes());
}

/// The bounds of a graph, worked out from which nodes reach which.
fn reference(locals: &[Option<u64>], edges: &[(usize, usize)]) -> Vec<Max> {
    let n = locals.len();
    let mut reach = vec![vec![false; n]; n];
    for i in 0..n {
        reach[i][i] = true;
    }
    for (a, b) in edges {
        reach[*a][*b] = true;
    }
    for k in 0..n {
        for i in 0..n {
            for j in 0..n {
                if reach[i][k] && reach[k][j] {
                    reach[i][j] = true;
                }
            }
        }
    }
    let same = |u: usize, v: usize| reach[u][v] && reach[v][u];
    let on_cycle = |u: usize| edges.iter().any(|(a, b)| *a == u && reach[*b][u]);
    let mut done: Vec<Option<Max>> = vec![None; n];
    // a node is worked out once everything that its cycle calls is
    loop {
        let mut progress = false;
        for u in 0..n {
            if done[u].is_some() {
                continue;
            }
            let members: Vec<usize> = (0..n).filter(|w| same(u, *w)).collect();
            let exits: Vec<usize> = edges
                .iter()
                .filter(|(a, b)| same(u, *a) && !same(u, *b))
                .map(|(_, b)| *b)
                .collect();
            if exits.iter().any(|v| done[*v].is_none()) {
                continue;
            }
            let outside = max_of(&exits.iter().map(|v| done[*v].unwrap()).collect());
            let bound = if on_cycle(u) {
                let inside: Vec<Max> = members.iter().map(|w| Max::from(Local::from_option(locals[*w]))).collect();
                let own = max_of(&inside).unwrap().promoted();
                match outside {
                    Some(m) => m + own,
                    None => own,
                }
            } else {
                match outside {
                    Some(m) => m + Local::from_option(locals[u]),
                    None => Max::from(Local::from_option(locals[u])),
                }
            };
            done[u] = Some(bound);
            progress = true;
        }
        if !progress {
            break;
        }
    }
    done.into_iter().map(|b| b.unwrap()).collect()
}

#[test]
fn bounds_agree_with_reachability_on_many_graphs() {
    let mut seed: u64 = 0x2545_f491_4f6c_dd1d;
    let mut next = move |bound: u64| {
        seed ^= seed << 13;
        seed ^= seed >> 7;
        seed ^= seed << 17;
        seed % bound
    };
    for round in 0..200 {
        let n = 1 + next(9) as usize;
        let locals: Vec<Option<u64>> =
            (0..n).map(|_| if next(5) == 0 { None } else { Some(next(4) * 8) }).collect();
        let mut edges: Vec<(usize, usize)> = Vec::new();
        for _ in 0..next(2 * n as u64 + 1) {
            let e = (next(n as u64) as usize, next(n as u64) as usize);
            if !edges.contains(&e) {
                edges.push(e);
            }
        }
        let mut g = graph(&locals, &edges);
        let cycles = propagate(&mut g);
        let wanted = reference(&locals, &edges);
        for i in 0..n {
            assert_eq!(g.node(i).max, Some(wanted[i]), "round {} node {}", round, i);
        }
        // the cycles listed are the nodes on cycles, each once
        let mut listed: Vec<usize> = cycles.iter().flatten().copied().collect();
        listed.sort();
        let on_cycles: Vec<usize> = (0..n)
            .filter(|u| g.reached_from(*u).iter().any(|v| g.neighbors(*v).contains(u)))
            .collect();
        assert_eq!(listed, on_cycles, "round {}", round);
    }
}
