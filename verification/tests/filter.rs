use call_stack::filter::{find_entry, part_from};
use call_stack::graph::{CallGraph, Node};
use call_stack::intrinsics::{classify, is_symbolless, Policy};
use call_stack::shorten::{count_of, shorten};
use call_stack::table::Table;
use call_stack::usage::Local;

fn graph(names: &[&str], edges: &[(usize, usize)]) -> CallGraph {
    let mut g = CallGraph::new();
    for (i, name) in names.iter().enumerate() {
        g.add_node(Node(name.to_string(), Some(i as u64), i % 2 == 1));
    }
    for (a, b) in edges {
        g.add_edge(*a, *b);
    }
    g
}

#[test]
fn part_holds_exactly_what_is_reached() {
    let g = graph(&["a", "b", "c", "d", "e"], &[(0, 1), (1, 2), (2, 1), (3, 0), (1, 4), (0, 4)]);
    let (part, map) = part_from(&g, 1);
    assert_eq!(part.node_count(), 3);
    assert_eq!(map[0], None);
    assert_eq!(map[3], None);
    let b = map[1].unwrap();
    let c = map[2].unwrap();
    let e = map[4].unwrap();
    assert_eq!(b, 0);
    assert_eq!(part.node(b).name, "b");
    assert_eq!(part.node(c).name, "c");
    assert_eq!(part.node(e).name, "e");
    assert_eq!(part.node(c).local, Local::Exact(2));
    assert!(part.node(b).dashed);
    assert!(!part.node(c).dashed);
    assert_eq!(part.edge_count(), 3);
    let mut from_b = part.neighbors(b);
    from_b.sort();
    let mut wanted = vec![c, e];
    wanted.sort();
    assert_eq!(from_b, wanted);
    assert_eq!(part.neighbors(c), vec![b]);
    assert!(part.neighbors(e).is_empty());
}

#[test]
fn part_from_a_leaf_is_the_leaf() {
    let g = graph(&["a", "b"], &[(0, 1)]);
    let (part, map) = part_from(&g, 1);
    assert_eq!(part.node_count(), 1);
    assert_eq!(part.edge_count(), 0);
    assert_eq!(map, vec![None, Some(0)]);
}

#[test]
fn entry_is_found_by_name_or_by_demangled_prefix() {
    let mut t: Table<usize> = Table::new();
    t.insert("main".to_string(), 0);
    t.insert("_ZN3foo3bar17h0123456789abcdefE".to_string(), 1);
    t.insert("_ZN3foo3baz17h0123456789abcdefE".to_string(), 2);
    t.insert("_ZN3foo3baz17hfedcba9876543210E".to_string(), 3);
    assert_eq!(find_entry(&t, "main"), (Some(0), vec![]));
    assert_eq!(
        find_entry(&t, "foo::bar"),
        (Some(1), vec!["_ZN3foo3bar17h0123456789abcdefE".to_string()])
    );
    assert_eq!(find_entry(&t, "foo::ba").0, None);
    assert_eq!(find_entry(&t, "foo::baz").0, None);
    assert_eq!(find_entry(&t, "foo::baz").1.len(), 2);
    assert_eq!(find_entry(&t, "nowhere"), (None, vec![]));
}

#[test]
fn names_are_shortened_where_the_prefix_is_unique() {
    let mut g = graph(
        &[
            "_ZN3foo3bar17h0123456789abcdefE",
            "_ZN3foo3baz17h0123456789abcdefE",
            "_ZN3foo3baz17hfedcba9876543210E",
            "main",
            "_ZN3foo4gone17h0123456789abcdefE",
        ],
        &[(0, 1)],
    );
    let prefixes = vec![
        Some("foo::bar".to_string()),
        Some("foo::baz".to_string()),
        Some("foo::baz".to_string()),
        None,
    ];
    assert_eq!(count_of(&prefixes, "foo::bar"), 1);
    assert_eq!(count_of(&prefixes, "foo::baz"), 2);
    assert_eq!(count_of(&prefixes, "foo::gone"), 0);
    shorten(&mut g, &prefixes);
    assert_eq!(g.node(0).name, "foo::bar");
    assert_eq!(g.node(1).name, "_ZN3foo3baz17h0123456789abcdefE");
    assert_eq!(g.node(2).name, "_ZN3foo3baz17hfedcba9876543210E");
    assert_eq!(g.node(3).name, "main");
    // a name that was not counted keeps its hash
    assert_eq!(g.node(4).name, "_ZN3foo4gone17h0123456789abcdefE");
    assert_eq!(g.node(0).local, Local::Exact(0));
    assert_eq!(g.neighbors(0), vec![1]);
}

#[test]
fn calls_are_classified_by_name() {
    assert_eq!(classify("llvm.dbg.value", false), Policy::Marker);
    assert_eq!(classify("llvm.lifetime.start.p0i8", true), Policy::Marker);
    assert_eq!(classify("llvm.memcpy.p0i8.p0i8.i32", false), Policy::Memcpy);
    assert_eq!(classify("llvm.memcpy.p0i8.p0i8.i32", true), Policy::Memcpy);
    assert_eq!(classify("llvm.memset.p0i8.i32", false), Policy::Memset);
    assert_eq!(classify("llvm.memmove.p0i8.p0i8.i32", false), Policy::Memset);
    assert_eq!(classify("llvm.umul.with.overflow.i32", false), Policy::Lowered);
    assert_eq!(classify("llvm.x86.sse2.pause", false), Policy::Lowered);
    assert_eq!(classify("llvm.x86.sse2.pause.more", false), Policy::Unhandled);
    assert_eq!(classify("llvm.fma.f32", false), Policy::Unhandled);
    assert_eq!(classify("llvm.fma.f32", true), Policy::Deferred);
    assert_eq!(classify("llvm.memcpy", false), Policy::Unhandled);
    assert_eq!(classify("memcpy", false), Policy::Plain);
    assert_eq!(classify("llvm", false), Policy::Plain);
    assert_eq!(classify("", true), Policy::Plain);
    assert!(is_symbolless("memcmp"));
    assert!(!is_symbolless("memcpy"));
}

#[test]
fn parts_agree_with_reachability_on_many_graphs() {
    let mut seed: u64 = 0x9e37_79b9_7f4a_7c15;
    let mut next = move |bound: u64| {
        seed ^= seed << 13;
        seed ^= seed >> 7;
        seed ^= seed << 17;
        seed % bound
    };
    for round in 0..200 {
        let n = 1 + next(8) as usize;
        let names: Vec<String> = (0..n).map(|i| format!("f{}", i)).collect();
        let names: Vec<&str> = names.iter().map(|s| s.as_str()).collect();
        let mut edges: Vec<(usize, usize)> = Vec::new();
        for _ in 0..next(2 * n as u64 + 1) {
            let e = (next(n as u64) as usize, next(n as u64) as usize);
            if !edges.contains(&e) {
                edges.push(e);
            }
        }
        let g = graph(&names, &edges);
        let start = next(n as u64) as usize;
        // what is reached from the start, by closing under the edges
        let mut reached = vec![false; n];
        reached[start] = true;
        for _ in 0..n {
            for (a, b) in &edges {
                if reached[*a] {
                    reached[*b] = true;
                }
            }
        }
        let (part, map) = part_from(&g, start);
        assert_eq!(map.len(), n);
        assert_eq!(map[start], Some(0), "round {}", round);
        let mut places: Vec<usize> = Vec::new();
        for v in 0..n {
            assert_eq!(map[v].is_some(), reached[v], "round {} node {}", round, v);
            if let Some(i) = map[v] {
                assert_eq!(part.node(i).name, g.node(v).name);
                assert_eq!(part.node(i).local, g.node(v).local);
                assert_eq!(part.node(i).dashed, g.node(v).dashed);
                places.push(i);
            }
        }
        places.sort();
        assert_eq!(places, (0..part.node_count()).collect::<Vec<usize>>());
        let mut wanted: Vec<(usize, usize)> = edges
            .iter()
            .filter(|(a, _)| reached[*a])
            .map(|(a, b)| (map[*a].unwrap(), map[*b].unwrap()))
            .collect();
        wanted.sort();
        let mut found: Vec<(usize, usize)> = (0..part.edge_count()).map(|k| part.edge(k)).collect();
        found.sort();
        assert_eq!(found, wanted, "round {}", round);
    }
}
