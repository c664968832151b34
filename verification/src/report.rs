//! The two reports: the graph as a document for `dot`, and the table of
//! functions by local stack usage.

use vstd::prelude::*;
use vstd::string::StringExecFns;
use crate::graph::{index_list, index_lists, CallGraph, Node};
use crate::names::{demangle, demangled, escaped, Escaper};
use crate::text::push_char;
use crate::usage::{max, spec_max, Local, Max};

verus! {

/// The decimal digit for a number below ten.
pub open spec fn spec_digit(d: nat) -> char {
    if d == 0 {
        '0'
    } else if d == 1 {
        '1'
    } else if d == 2 {
        '2'
    } else if d == 3 {
        '3'
    } else if d == 4 {
        '4'
    } else if d == 5 {
        '5'
    } else if d == 6 {
        '6'
    } else if d == 7 {
        '7'
    } else if d == 8 {
        '8'
    } else {
        '9'
    }
}

/// A number in decimal digits, without leading zeros.
pub open spec fn spec_decimal(n: nat) -> Seq<char>
    decreases n,
{
    if n < 10 {
        seq![spec_digit(n)]
    } else {
        spec_decimal(n / 10).push(spec_digit(n % 10))
    }
}

fn digit(d: u64) -> (c: char)
    requires
        d < 10,
    ensures
        c == spec_digit(d as nat),
{
    if d == 0 {
        '0'
    } else if d == 1 {
        '1'
    } else if d == 2 {
        '2'
    } else if d == 3 {
        '3'
    } else if d == 4 {
        '4'
    } else if d == 5 {
        '5'
    } else if d == 6 {
        '6'
    } else if d == 7 {
        '7'
    } else if d == 8 {
        '8'
    } else {
        '9'
    }
}

/// A number in decimal digits.
pub fn decimal(n: u64) -> (s: String)
    ensures
        s@ == spec_decimal(n as nat),
    decreases n,
{
    if n < 10 {
        let mut s = String::new();
        push_char(&mut s, digit(n));
        proof {
            assert(s@ =~= seq![spec_digit(n as nat)]);
        }
        s
    } else {
        let mut s = decimal(n / 10);
        push_char(&mut s, digit(n % 10));
        s
    }
}

/// An index in decimal digits.
pub fn decimal_index(n: usize) -> (s: String)
    ensures
        s@ == spec_decimal(n as nat),
{
    decimal(n as u64)
}

impl Local {
    /// How a local stack usage is written: the number, or `?` when unknown.
    pub open spec fn text(self) -> Seq<char> {
        match self {
            Local::Exact(n) => spec_decimal(n as nat),
            Local::Unknown => "?"@,
        }
    }

    /// Writes the local stack usage.
    pub fn render(&self) -> (s: String)
        ensures
            s@ == self.text(),
    {
        match *self {
            Local::Exact(n) => decimal(n),
            Local::Unknown => "?".to_owned(),
        }
    }
}

impl Max {
    /// How a bound is written: `= ` and the number when exact, `>= ` and
    /// the number when a lower bound.
    pub open spec fn text(self) -> Seq<char> {
        match self {
            Max::Exact(n) => "= "@ + spec_decimal(n as nat),
            Max::LowerBound(n) => ">= "@ + spec_decimal(n as nat),
        }
    }

    /// Writes the bound.
    pub fn render(&self) -> (s: String)
        ensures
            s@ == self.text(),
    {
        match *self {
            Max::Exact(n) => {
                let mut s = "= ".to_owned();
                s.append(decimal(n).as_str());
                s
            },
            Max::LowerBound(n) => {
                let mut s = ">= ".to_owned();
                s.append(decimal(n).as_str());
                s
            },
        }
    }
}

/// How the name of a node is written inside quotes: demangled, with a
/// backslash before each double quote.
pub open spec fn spec_label(name: Seq<char>) -> Seq<char> {
    escaped(demangled(name))
}

/// Writes the name of a node for use inside quotes.
pub fn label(name: &str) -> (s: String)
    ensures
        s@ == spec_label(name@),
{
    let mut e = Escaper::new(String::new());
    e.write_str(demangle(name).as_str());
    let s = e.finish();
    proof {
        assert(Seq::<char>::empty() + escaped(demangled(name@)) =~= escaped(demangled(name@)));
    }
    s
}

/// The line for node `i` in the document for `dot`.
pub open spec fn dot_node(i: nat, node: Node) -> Seq<char> {
    "    "@ + spec_decimal(i) + " [label=\""@ + spec_label(node.name@) + (match node.max {
        Some(m) => "\\nmax "@ + m.text(),
        None => Seq::empty(),
    }) + "\\nlocal = "@ + node.local.text() + "\""@ + (if node.dashed {
        " style=dashed"@
    } else {
        Seq::empty()
    }) + "]\n"@
}

/// The lines for the first `upto` nodes.
pub open spec fn dot_nodes(nodes: Seq<Node>, upto: nat) -> Seq<char>
    decreases upto,
{
    if upto == 0 {
        Seq::empty()
    } else {
        dot_nodes(nodes, (upto - 1) as nat) + dot_node((upto - 1) as nat, nodes[upto - 1])
    }
}

/// The line for the edge from `a` to `b`.
pub open spec fn dot_edge(a: int, b: int) -> Seq<char> {
    "    "@ + spec_decimal(a as nat) + " -> "@ + spec_decimal(b as nat) + "\n"@
}

/// The lines for the first `upto` edges.
pub open spec fn dot_edges(edges: Seq<(int, int)>, upto: nat) -> Seq<char>
    decreases upto,
{
    if upto == 0 {
        Seq::empty()
    } else {
        dot_edges(edges, (upto - 1) as nat) + dot_edge(edges[upto - 1].0, edges[upto - 1].1)
    }
}

/// The lines for the first `upto` members of a cycle.
pub open spec fn dot_members(cycle: Seq<int>, upto: nat) -> Seq<char>
    decreases upto,
{
    if upto == 0 {
        Seq::empty()
    } else {
        dot_members(cycle, (upto - 1) as nat) + ("        "@ + spec_decimal(cycle[upto - 1] as nat) + "\n"@)
    }
}

/// The lines for cycle `i`: a dashed box around its members.
pub open spec fn dot_cluster(i: nat, cycle: Seq<int>) -> Seq<char> {
    "\n    subgraph cluster_"@ + spec_decimal(i) + " {\n"@ + "        style=dashed\n"@
        + "        fontname=monospace\n"@ + "        label=\"SCC"@ + spec_decimal(i) + "\"\n"@
        + dot_members(cycle, cycle.len()) + "    }\n"@
}

/// The lines for the first `upto` cycles.
pub open spec fn dot_clusters(cycles: Seq<Seq<int>>, upto: nat) -> Seq<char>
    decreases upto,
{
    if upto == 0 {
        Seq::empty()
    } else {
        dot_clusters(cycles, (upto - 1) as nat) + dot_cluster((upto - 1) as nat, cycles[upto - 1])
    }
}

/// The document for `dot`: a box for each node, with its name, its bound
/// where it has one and its local stack usage, dashed for a call site; an
/// arrow for each edge; and a dashed box around each cycle.
pub open spec fn spec_dot(nodes: Seq<Node>, edges: Seq<(int, int)>, cycles: Seq<Seq<int>>) -> Seq<char> {
    "digraph {\n"@ + "    node [fontname=monospace shape=box]\n"@ + dot_nodes(nodes, nodes.len())
        + dot_edges(edges, edges.len()) + dot_clusters(cycles, cycles.len()) + "}\n"@
}

fn dot_node_line(i: usize, node: &Node) -> (s: String)
    ensures
        s@ == dot_node(i as nat, *node),
{
    let mut s = "    ".to_owned();
    s.append(decimal_index(i).as_str());
    s.append(" [label=\"");
    s.append(label(node.name.as_str()).as_str());
    match node.max {
        Some(m) => {
            let mut part = "\\nmax ".to_owned();
            part.append(m.render().as_str());
            s.append(part.as_str());
        },
        None => {
            proof {
                assert(s@ + Seq::<char>::empty() =~= s@);
            }
        },
    }
    s.append("\\nlocal = ");
    s.append(node.local.render().as_str());
    s.append("\"");
    if node.dashed {
        s.append(" style=dashed");
    } else {
        proof {
            assert(s@ + Seq::<char>::empty() =~= s@);
        }
    }
    s.append("]\n");
    s
}

fn dot_cluster_lines(i: usize, cycle: &Vec<usize>) -> (s: String)
    ensures
        s@ == dot_cluster(i as nat, index_list(cycle@)),
{
    let ghost members = index_list(cycle@);
    let mut s = "\n    subgraph cluster_".to_owned();
    s.append(decimal_index(i).as_str());
    s.append(" {\n");
    s.append("        style=dashed\n");
    s.append("        fontname=monospace\n");
    s.append("        label=\"SCC");
    s.append(decimal_index(i).as_str());
    s.append("\"\n");
    let mut lines = String::new();
    let mut j: usize = 0;
    while j < cycle.len()
        invariant
            j <= cycle@.len(),
            members == index_list(cycle@),
            lines@ == dot_members(members, j as nat),
        decreases cycle@.len() - j,
    {
        let mut line = "        ".to_owned();
        line.append(decimal_index(cycle[j]).as_str());
        line.append("\n");
        proof {
            assert(members[j as int] == cycle@[j as int] as int);
        }
        lines.append(line.as_str());
        j += 1;
    }
    s.append(lines.as_str());
    s.append("    }\n");
    s
}

/// Writes the document for `dot`.
pub fn dot(g: &CallGraph, cycles: &Vec<Vec<usize>>) -> (s: String)
    ensures
        s@ == spec_dot(g.nodes(), g.edges(), index_lists(cycles@)),
{
    let mut nodes = String::new();
    let n = g.node_count();
    let mut i: usize = 0;
    while i < n
        invariant
            i <= n,
            n == g.nodes().len(),
            nodes@ == dot_nodes(g.nodes(), i as nat),
        decreases n - i,
    {
        nodes.append(dot_node_line(i, g.node(i)).as_str());
        i += 1;
    }
    let mut edges = String::new();
    let e = g.edge_count();
    let mut k: usize = 0;
    while k < e
        invariant
            k <= e,
            e == g.edges().len(),
            edges@ == dot_edges(g.edges(), k as nat),
        decreases e - k,
    {
        let (a, b) = g.edge(k);
        let mut line = "    ".to_owned();
        line.append(decimal_index(a).as_str());
        line.append(" -> ");
        line.append(decimal_index(b).as_str());
        line.append("\n");
        edges.append(line.as_str());
        k += 1;
    }
    let ghost lists = index_lists(cycles@);
    let mut clusters = String::new();
    let mut c: usize = 0;
    while c < cycles.len()
        invariant
            c <= cycles@.len(),
            lists == index_lists(cycles@),
            clusters@ == dot_clusters(lists, c as nat),
        decreases cycles@.len() - c,
    {
        proof {
            assert(lists[c as int] == index_list(cycles@[c as int]@));
        }
        clusters.append(dot_cluster_lines(c, &cycles[c]).as_str());
        c += 1;
    }
    let mut s = "digraph {\n".to_owned();
    s.append("    node [fontname=monospace shape=box]\n");
    s.append(nodes.as_str());
    s.append(edges.as_str());
    s.append(clusters.as_str());
    s.append("}\n");
    s
}

/// The number by which node `i` is ranked in the table: its local stack
/// usage, 0 when unknown.
pub open spec fn rank_key(nodes: Seq<Node>, i: int) -> nat {
    nodes[i].local.value()
}

/// Whether node `i` stands before node `j` in the table: it uses more
/// stack, or as much and comes first in the graph.
pub open spec fn ranks_before(nodes: Seq<Node>, i: int, j: int) -> bool {
    rank_key(nodes, i) > rank_key(nodes, j) || (rank_key(nodes, i) == rank_key(nodes, j) && i < j)
}

/// Whether `order` lists the first `n` nodes, each once, by falling local
/// stack usage, nodes of equal usage in the order of the graph.
pub open spec fn is_ranking(nodes: Seq<Node>, order: Seq<int>, n: int) -> bool {
    &&& order.len() == n
    &&& forall|k: int| 0 <= k < order.len() ==> 0 <= #[trigger] order[k] < n
    &&& forall|v: int| 0 <= v < n ==> order.contains(v)
    &&& forall|a: int, b: int|
        0 <= a < b < order.len() ==> ranks_before(nodes, #[trigger] order[a], #[trigger] order[b])
}

/// The nodes of the graph by falling local stack usage, nodes of equal
/// usage in the order of the graph.
pub fn ranking(g: &CallGraph) -> (order: Vec<usize>)
    ensures
        is_ranking(g.nodes(), index_list(order@), g.nodes().len() as int),
{
    let ghost nodes = g.nodes();
    let n = g.node_count();
    let mut order: Vec<usize> = Vec::new();
    let mut i: usize = 0;
    while i < n
        invariant
            i <= n,
            n == nodes.len(),
            nodes == g.nodes(),
            is_ranking(nodes, index_list(order@), i as int),
            forall|k: int| 0 <= k < order@.len() ==> order@[k] < i,
        decreases n - i,
    {
        let key = g.node(i).local.bytes();
        let ghost before = index_list(order@);
        let mut p: usize = 0;
        while p < order.len() && g.node(order[p]).local.bytes() >= key
            invariant
                p <= order@.len(),
                i < n,
                n == nodes.len(),
                nodes == g.nodes(),
                key == rank_key(nodes, i as int),
                before == index_list(order@),
                is_ranking(nodes, before, i as int),
                forall|k: int| 0 <= k < order@.len() ==> order@[k] < i,
                forall|k: int| 0 <= k < p ==> rank_key(nodes, #[trigger] before[k]) >= key,
            decreases order@.len() - p,
        {
            proof {
                assert(before[p as int] == order@[p as int] as int);
            }
            p += 1;
        }
        proof {
            if p < order@.len() {
                assert(before[p as int] == order@[p as int] as int);
            }
        }
        order.insert(p, i);
        proof {
            let after = index_list(order@);
            assert(after =~= before.insert(p as int, i as int));
            assert forall|k: int| 0 <= k < order@.len() implies order@[k] < i + 1 by {
                assert(after[k] == order@[k] as int);
                if k < p {
                    assert(after[k] == before[k]);
                } else if k > p {
                    assert(after[k] == before[k - 1]);
                }
            }
            assert forall|k: int| 0 <= k < after.len() implies 0 <= #[trigger] after[k] < i + 1 by {
                if k < p {
                    assert(after[k] == before[k]);
                } else if k > p {
                    assert(after[k] == before[k - 1]);
                }
            }
            assert forall|v: int| 0 <= v < i + 1 implies after.contains(v) by {
                if v == i {
                    assert(after[p as int] == v);
                } else {
                    assert(before.contains(v));
                    let t = choose|t: int| 0 <= t < before.len() && before[t] == v;
                    if t < p {
                        assert(after[t] == v);
                    } else {
                        assert(after[t + 1] == v);
                    }
                }
            }
            assert forall|a: int, b: int| 0 <= a < b < after.len() implies ranks_before(
                nodes,
                #[trigger] after[a],
                #[trigger] after[b],
            ) by {
                let x = if a < p {
                    a
                } else {
                    a - 1
                };
                let y = if b < p {
                    b
                } else {
                    b - 1
                };
                if a != p {
                    assert(after[a] == before[x]);
                }
                if b != p {
                    assert(after[b] == before[y]);
                }
                if a == p {
                    // the new node stands before what uses less
                    assert(rank_key(nodes, before[p as int]) < key);
                    if y > p {
                        assert(ranks_before(nodes, before[p as int], before[y]));
                    }
                } else if b == p {
                    assert(rank_key(nodes, before[x]) >= key);
                    assert(before[x] < i);
                } else {
                    assert(ranks_before(nodes, before[x], before[y]));
                }
            }
        }
        i += 1;
    }
    order
}

/// The largest of the bounds of the first `upto` nodes, a node without
/// bound counting as exactly 0.
pub open spec fn top_max(nodes: Seq<Node>, upto: nat) -> Max
    decreases upto,
{
    let own = match nodes[upto - 1].max {
        Some(m) => m,
        None => Max::Exact(0),
    };
    if upto <= 1 {
        own
    } else {
        spec_max(top_max(nodes, (upto - 1) as nat), own)
    }
}

/// The line of the table for one node: its local stack usage, 0 when
/// unknown, and its name.
pub open spec fn top_row(node: Node) -> Seq<char> {
    spec_decimal(node.local.value()) + " "@ + spec_label(node.name@) + "\n"@
}

/// The lines of the table for the first `upto` nodes of `order`.
pub open spec fn top_rows(nodes: Seq<Node>, order: Seq<int>, upto: nat) -> Seq<char>
    decreases upto,
{
    if upto == 0 {
        Seq::empty()
    } else {
        top_rows(nodes, order, (upto - 1) as nat) + top_row(nodes[order[upto - 1]])
    }
}

/// The table: the largest bound of all, where there is a node; a heading;
/// and a line for each node of `order`.
pub open spec fn spec_top(nodes: Seq<Node>, order: Seq<int>) -> Seq<char> {
    (if nodes.len() > 0 {
        spec_decimal(top_max(nodes, nodes.len()).value()) + " MAX\n"@
    } else {
        Seq::empty()
    }) + "Usage Function\n"@ + top_rows(nodes, order, order.len())
}

/// Writes the table of the nodes in the given order.
pub fn top_of(g: &CallGraph, order: &Vec<usize>) -> (s: String)
    requires
        forall|k: int| 0 <= k < order@.len() ==> order@[k] < g.nodes().len(),
    ensures
        s@ == spec_top(g.nodes(), index_list(order@)),
{
    let ghost nodes = g.nodes();
    let ghost listed = index_list(order@);
    let n = g.node_count();
    let mut s = String::new();
    if n > 0 {
        let mut largest = match g.node(0).max {
            Some(m) => m,
            None => Max::Exact(0),
        };
        let mut i: usize = 1;
        while i < n
            invariant
                1 <= i <= n,
                n == nodes.len(),
                nodes == g.nodes(),
                largest == top_max(nodes, i as nat),
            decreases n - i,
        {
            let own = match g.node(i).max {
                Some(m) => m,
                None => Max::Exact(0),
            };
            largest = max(largest, own);
            i += 1;
        }
        s.append(decimal(largest.bytes()).as_str());
        s.append(" MAX\n");
        proof {
            assert(Seq::<char>::empty() + spec_decimal(largest.value()) =~= spec_decimal(largest.value()));
        }
    }
    s.append("Usage Function\n");
    let mut rows = String::new();
    let mut k: usize = 0;
    while k < order.len()
        invariant
            k <= order@.len(),
            nodes == g.nodes(),
            listed == index_list(order@),
            forall|t: int| 0 <= t < order@.len() ==> order@[t] < g.nodes().len(),
            rows@ == top_rows(nodes, listed, k as nat),
        decreases order@.len() - k,
    {
        let node = g.node(order[k]);
        let mut row = decimal(node.local.bytes());
        row.append(" ");
        row.append(label(node.name.as_str()).as_str());
        row.append("\n");
        proof {
            assert(listed[k as int] == order@[k as int] as int);
        }
        rows.append(row.as_str());
        k += 1;
    }
    s.append(rows.as_str());
    s
}

/// Writes the table of all nodes, by falling local stack usage.
pub fn top(g: &CallGraph) -> (r: (String, Vec<usize>))
    ensures
        is_ranking(g.nodes(), index_list(r.1@), g.nodes().len() as int),
        r.0@ == spec_top(g.nodes(), index_list(r.1@)),
{
    let order = ranking(g);
    proof {
        assert forall|k: int| 0 <= k < order@.len() implies order@[k] < g.nodes().len() by {
            assert(index_list(order@)[k] == order@[k] as int);
        }
    }
    let s = top_of(g, &order);
    (s, order)
}

} // verus!
