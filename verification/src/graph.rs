//! The call graph: nodes with their stack usage, and the calls between them.
//!
//! The graph is kept in a `petgraph` directed graph. What that graph holds is
//! known to the verifier only through [`graph_nodes`] and [`graph_edges`];
//! the functions of this file that touch it directly state what `petgraph`
//! documents of each operation, and everything else is proved against them.

use vstd::prelude::*;
use crate::usage::{Local, Max};

verus! {

/// A function of the program, or a stand-in for calls that cannot be resolved.
#[derive(Debug)]
pub struct Node {
    /// Canonical symbol name; after shortening, the display name.
    pub name: String,
    /// Stack used by the function's own frame.
    pub local: Local,
    /// Worst-case stack of the function and its callees, once computed.
    pub max: Option<Max>,
    /// Whether the node was made up to stand for an indirect call site.
    pub dashed: bool,
}

/// A node, with the text of its name.
pub struct NodeView {
    pub name: Seq<char>,
    pub local: Local,
    pub max: Option<Max>,
    pub dashed: bool,
}

impl View for Node {
    type V = NodeView;

    open spec fn view(&self) -> NodeView {
        NodeView { name: self.name@, local: self.local, max: self.max, dashed: self.dashed }
    }
}

/// The nodes of a list, with the texts of their names.
pub open spec fn node_views(nodes: Seq<Node>) -> Seq<NodeView> {
    Seq::new(nodes.len(), |i: int| nodes[i]@)
}

/// A node with the given name and local stack usage, and no bound yet.
#[allow(non_snake_case)]
pub fn Node(name: String, stack: Option<u64>, dashed: bool) -> (node: Node)
    ensures
        node.name == name,
        node.local == Local::from_option_spec(stack),
        node.max is None,
        node.dashed == dashed,
{
    Node { name, local: Local::from_option(stack), max: None, dashed }
}

impl Node {
    /// A copy of the node.
    pub fn duplicate(&self) -> (node: Node)
        ensures
            node == *self,
    {
        Node { name: self.name.clone(), local: self.local, max: self.max, dashed: self.dashed }
    }
}

/// `petgraph::graph::Graph`, of which the verifier is told nothing but
/// that it is a type.
#[verifier::external_type_specification]
#[verifier::external_body]
#[verifier::reject_recursive_types(N)]
#[verifier::reject_recursive_types(E)]
#[verifier::reject_recursive_types(Ty)]
#[verifier::reject_recursive_types(Ix)]
pub struct ExGraph<N, E, Ty, Ix>(petgraph::graph::Graph<N, E, Ty, Ix>);

/// `petgraph::Directed`, the marker of graphs with directed edges.
#[verifier::external_type_specification]
#[verifier::external_body]
pub struct ExDirected(petgraph::Directed);

/// The node weights of a `petgraph` graph, by node index.
pub uninterp spec fn graph_nodes(g: petgraph::graph::Graph<Node, (), petgraph::Directed, u32>) -> Seq<Node>;

/// The edges of a `petgraph` graph as (source, target) pairs of node indices,
/// in the order in which they were added.
pub uninterp spec fn graph_edges(g: petgraph::graph::Graph<Node, (), petgraph::Directed, u32>) -> Seq<(int, int)>;

/// `Graph::new`: a graph without nodes or edges.
#[verifier::external_body]
fn pg_new() -> (g: petgraph::graph::Graph<Node, (), petgraph::Directed, u32>)
    ensures
        graph_nodes(g) == Seq::<Node>::empty(),
        graph_edges(g) == Seq::<(int, int)>::empty(),
{
    petgraph::graph::Graph::new()
}

/// `Graph::node_count`: the number of nodes.
#[verifier::external_body]
fn pg_node_count(g: &petgraph::graph::Graph<Node, (), petgraph::Directed, u32>) -> (n: usize)
    ensures
        n == graph_nodes(*g).len(),
{
    g.node_count()
}

/// `Graph::edge_count`: the number of edges.
#[verifier::external_body]
fn pg_edge_count(g: &petgraph::graph::Graph<Node, (), petgraph::Directed, u32>) -> (n: usize)
    ensures
        n == graph_edges(*g).len(),
{
    g.edge_count()
}

/// `Graph::add_node`: appends a node, whose index is the former node count,
/// and leaves the edges alone. It panics on a graph that already holds as
/// many nodes as its `u32` index type can number, which `requires` excludes.
#[verifier::external_body]
fn pg_add_node(g: &mut petgraph::graph::Graph<Node, (), petgraph::Directed, u32>, node: Node) -> (i: usize)
    requires
        graph_nodes(*old(g)).len() < u32::MAX,
    ensures
        graph_nodes(*final(g)) == graph_nodes(*old(g)).push(node),
        graph_edges(*final(g)) == graph_edges(*old(g)),
        i == graph_nodes(*old(g)).len(),
{
    g.add_node(node).index()
}

/// `Graph::add_edge`: appends an edge from `a` to `b`, parallel edges
/// included, and leaves the nodes alone. It panics when an end point is no
/// node or the edge indices are used up, which `requires` excludes.
#[verifier::external_body]
fn pg_add_edge(g: &mut petgraph::graph::Graph<Node, (), petgraph::Directed, u32>, a: usize, b: usize)
    requires
        a < graph_nodes(*old(g)).len(),
        b < graph_nodes(*old(g)).len(),
        graph_edges(*old(g)).len() < u32::MAX,
    ensures
        graph_nodes(*final(g)) == graph_nodes(*old(g)),
        graph_edges(*final(g)) == graph_edges(*old(g)).push((a as int, b as int)),
{
    g.add_edge(petgraph::graph::NodeIndex::new(a), petgraph::graph::NodeIndex::new(b), ());
}

/// Indexing a `Graph` by a node index: the weight of that node. It panics on
/// an index that is no node, which `requires` excludes.
#[verifier::external_body]
fn pg_node(g: &petgraph::graph::Graph<Node, (), petgraph::Directed, u32>, i: usize) -> (node: &Node)
    requires
        i < graph_nodes(*g).len(),
    ensures
        *node == graph_nodes(*g)[i as int],
{
    &g[petgraph::graph::NodeIndex::new(i)]
}

/// Mutable indexing of a `Graph` by a node index: replaces the weight of
/// that node and nothing else.
#[verifier::external_body]
fn pg_set_node(g: &mut petgraph::graph::Graph<Node, (), petgraph::Directed, u32>, i: usize, node: Node)
    requires
        i < graph_nodes(*old(g)).len(),
    ensures
        graph_nodes(*final(g)) == graph_nodes(*old(g)).update(i as int, node),
        graph_edges(*final(g)) == graph_edges(*old(g)),
{
    g[petgraph::graph::NodeIndex::new(i)] = node;
}

/// Whether `edges` holds an edge from `a` to `b`.
pub open spec fn has_edge(edges: Seq<(int, int)>, a: int, b: int) -> bool {
    edges.contains((a, b))
}

/// Whether `b` is reached from `a` along exactly `steps` edges.
pub open spec fn reach_in(edges: Seq<(int, int)>, a: int, b: int, steps: nat) -> bool
    decreases steps,
{
    if steps == 0 {
        a == b
    } else {
        exists|v: int| has_edge(edges, a, v) && reach_in(edges, v, b, (steps - 1) as nat)
    }
}

/// Whether `b` is reached from `a` along any number of edges, none included.
pub open spec fn reaches(edges: Seq<(int, int)>, a: int, b: int) -> bool {
    exists|steps: nat| reach_in(edges, a, b, steps)
}

/// Whether each of `a` and `b` is reached from the other.
pub open spec fn mutual(edges: Seq<(int, int)>, a: int, b: int) -> bool {
    reaches(edges, a, b) && reaches(edges, b, a)
}

/// Whether `a` lies on a cycle: some edge leaves it for a node from which it
/// is reached again.
pub open spec fn on_cycle(edges: Seq<(int, int)>, a: int) -> bool {
    exists|v: int| has_edge(edges, a, v) && reaches(edges, v, a)
}

/// The targets of the edges that leave `a`, the most recently added first.
pub open spec fn out_targets(edges: Seq<(int, int)>, a: int) -> Seq<int>
    decreases edges.len(),
{
    if edges.len() == 0 {
        Seq::empty()
    } else if edges.last().0 == a {
        seq![edges.last().1] + out_targets(edges.drop_last(), a)
    } else {
        out_targets(edges.drop_last(), a)
    }
}

/// The targets listed for a node are exactly the heads of its edges.
pub proof fn lemma_out_targets(edges: Seq<(int, int)>, a: int, b: int)
    ensures
        out_targets(edges, a).contains(b) <==> has_edge(edges, a, b),
    decreases edges.len(),
{
    if edges.len() > 0 {
        let init = edges.drop_last();
        lemma_out_targets(init, a, b);
        let rest = out_targets(init, a);
        if has_edge(edges, a, b) {
            let k = choose|k: int| 0 <= k < edges.len() && edges[k] == (a, b);
            if k < init.len() {
                assert(init[k] == (a, b));
                let j = choose|j: int| 0 <= j < rest.len() && rest[j] == b;
                if edges.last().0 == a {
                    assert(out_targets(edges, a)[j + 1] == b);
                }
            } else {
                assert(out_targets(edges, a)[0] == b);
            }
        }
        if out_targets(edges, a).contains(b) {
            let j = choose|j: int| 0 <= j < out_targets(edges, a).len() && out_targets(edges, a)[j] == b;
            if edges.last().0 == a && j == 0 {
                assert(edges[edges.len() - 1] == (a, b));
            } else {
                if edges.last().0 == a {
                    assert(rest[j - 1] == b);
                }
                assert(rest.contains(b));
                let k = choose|k: int| 0 <= k < init.len() && init[k] == (a, b);
                assert(edges[k] == (a, b));
            }
        }
    }
}

/// Every node reaches itself.
pub proof fn lemma_reaches_self(edges: Seq<(int, int)>, a: int)
    ensures
        reaches(edges, a, a),
{
    assert(reach_in(edges, a, a, 0));
}

/// An edge is a way of reaching.
pub proof fn lemma_reaches_edge(edges: Seq<(int, int)>, a: int, b: int)
    requires
        has_edge(edges, a, b),
    ensures
        reaches(edges, a, b),
{
    assert(reach_in(edges, b, b, 0));
    assert(reach_in(edges, a, b, 1));
}

proof fn lemma_reach_in_join(edges: Seq<(int, int)>, a: int, b: int, c: int, m: nat, n: nat)
    requires
        reach_in(edges, a, b, m),
        reach_in(edges, b, c, n),
    ensures
        reach_in(edges, a, c, m + n),
    decreases m,
{
    if m > 0 {
        let v = choose|v: int| has_edge(edges, a, v) && reach_in(edges, v, b, (m - 1) as nat);
        lemma_reach_in_join(edges, v, b, c, (m - 1) as nat, n);
        assert(reach_in(edges, v, c, (m + n - 1) as nat));
    }
}

/// Reaching is transitive.
pub proof fn lemma_reaches_trans(edges: Seq<(int, int)>, a: int, b: int, c: int)
    requires
        reaches(edges, a, b),
        reaches(edges, b, c),
    ensures
        reaches(edges, a, c),
{
    let m = choose|m: nat| reach_in(edges, a, b, m);
    let n = choose|n: nat| reach_in(edges, b, c, n);
    lemma_reach_in_join(edges, a, b, c, m, n);
}

/// A node that reaches another node does so through one of its edges.
pub proof fn lemma_reaches_first_edge(edges: Seq<(int, int)>, a: int, b: int) -> (v: int)
    requires
        reaches(edges, a, b),
        a != b,
    ensures
        has_edge(edges, a, v),
        reaches(edges, v, b),
{
    let m = choose|m: nat| reach_in(edges, a, b, m);
    let v = choose|v: int| has_edge(edges, a, v) && reach_in(edges, v, b, (m - 1) as nat);
    v
}

/// Within a graph, only nodes of the graph are reached from a node of the graph.
pub proof fn lemma_reaches_within(edges: Seq<(int, int)>, n: nat, a: int, b: int)
    requires
        edges_within(edges, n),
        reaches(edges, a, b),
        0 <= a < n,
    ensures
        0 <= b < n,
{
    let m = choose|m: nat| reach_in(edges, a, b, m);
    lemma_reach_in_within(edges, n, a, b, m);
}

proof fn lemma_reach_in_within(edges: Seq<(int, int)>, n: nat, a: int, b: int, m: nat)
    requires
        edges_within(edges, n),
        reach_in(edges, a, b, m),
        0 <= a < n,
    ensures
        0 <= b < n,
    decreases m,
{
    if m > 0 {
        let v = choose|v: int| has_edge(edges, a, v) && reach_in(edges, v, b, (m - 1) as nat);
        let k = choose|k: int| 0 <= k < edges.len() && edges[k] == (a, v);
        assert(edges[k].1 == v);
        lemma_reach_in_within(edges, n, v, b, (m - 1) as nat);
    }
}

/// What a listing of the strongly connected components says, told by the
/// component of each node: every node lies in exactly one component, once;
/// two nodes share a component exactly when each is reached from the other;
/// and no edge leads from a component to a later one.
pub open spec fn is_scc_order(n: nat, edges: Seq<(int, int)>, comps: Seq<Seq<int>>) -> bool {
    &&& forall|k: int| 0 <= k < comps.len() ==> (#[trigger] comps[k]).len() > 0
    &&& forall|k: int| 0 <= k < comps.len() ==> (#[trigger] comps[k]).no_duplicates()
    &&& forall|k: int, u: int|
        0 <= k < comps.len() && (#[trigger] comps[k].contains(u)) ==> 0 <= u < n
    &&& forall|u: int| 0 <= u < n ==> 0 <= #[trigger] comp_of(comps, u) < comps.len()
    &&& forall|k: int, u: int|
        0 <= k < comps.len() && 0 <= u < n ==> (#[trigger] comps[k].contains(u) <==> comp_of(
            comps,
            u,
        ) == k)
    &&& forall|u: int, w: int|
        0 <= u < n && 0 <= w < n ==> (comp_of(comps, u) == comp_of(comps, w) <==> #[trigger] mutual(
            edges,
            u,
            w,
        ))
    &&& forall|a: int, b: int|
        0 <= a < n && 0 <= b < n && #[trigger] has_edge(edges, a, b) ==> comp_of(comps, b)
            <= comp_of(comps, a)
}

/// Whether `comps` lists the strongly connected components of the graph
/// with nodes `0 .. n` and the given edges, callees first: the components
/// are not empty and hold nodes of the graph, none twice; every node is in
/// a component and none in two; two nodes share a component exactly when
/// each is reached from the other; and no edge leads from a component to a
/// later one.
pub open spec fn is_scc_listing(n: nat, edges: Seq<(int, int)>, comps: Seq<Seq<int>>) -> bool {
    &&& forall|k: int| 0 <= k < comps.len() ==> (#[trigger] comps[k]).len() > 0
    &&& forall|k: int| 0 <= k < comps.len() ==> (#[trigger] comps[k]).no_duplicates()
    &&& forall|k: int, u: int|
        0 <= k < comps.len() && (#[trigger] comps[k].contains(u)) ==> 0 <= u < n
    &&& forall|u: int| 0 <= u < n ==> #[trigger] is_listed(comps, u)
    &&& forall|j: int, k: int, u: int|
        0 <= j < comps.len() && 0 <= k < comps.len() && (#[trigger] comps[j].contains(u))
            && (#[trigger] comps[k].contains(u)) ==> j == k
    &&& forall|j: int, k: int, u: int, w: int|
        0 <= j < comps.len() && 0 <= k < comps.len() && (#[trigger] comps[j].contains(u))
            && (#[trigger] comps[k].contains(w)) ==> (j == k <==> mutual(edges, u, w))
    &&& forall|j: int, k: int, a: int, b: int|
        0 <= j < comps.len() && 0 <= k < comps.len() && (#[trigger] comps[j].contains(a))
            && (#[trigger] comps[k].contains(b)) && has_edge(edges, a, b) ==> k <= j
}

/// Whether some component holds `u`.
pub open spec fn is_listed(comps: Seq<Seq<int>>, u: int) -> bool {
    exists|k: int| 0 <= k < comps.len() && #[trigger] comps[k].contains(u)
}

/// What a listing of the components says, by the component of each node.
pub proof fn lemma_scc_listing(n: nat, edges: Seq<(int, int)>, comps: Seq<Seq<int>>)
    requires
        is_scc_listing(n, edges, comps),
    ensures
        is_scc_order(n, edges, comps),
{
    assert forall|u: int| 0 <= u < n implies 0 <= #[trigger] comp_of(comps, u) < comps.len()
        && comps[comp_of(comps, u)].contains(u) by {
        assert(is_listed(comps, u));
    }
    assert forall|k: int, u: int| 0 <= k < comps.len() && 0 <= u < n implies (
    #[trigger] comps[k].contains(u) <==> comp_of(comps, u) == k) by {
        assert(comps[comp_of(comps, u)].contains(u));
    }
    assert forall|u: int, w: int| 0 <= u < n && 0 <= w < n implies (comp_of(comps, u) == comp_of(
        comps,
        w,
    ) <==> #[trigger] mutual(edges, u, w)) by {
        assert(comps[comp_of(comps, u)].contains(u));
        assert(comps[comp_of(comps, w)].contains(w));
    }
    assert forall|a: int, b: int| 0 <= a < n && 0 <= b < n && #[trigger] has_edge(edges, a, b) implies comp_of(
        comps,
        b,
    ) <= comp_of(comps, a) by {
        assert(comps[comp_of(comps, a)].contains(a));
        assert(comps[comp_of(comps, b)].contains(b));
    }
}

/// The index of a component that holds `u`.
pub open spec fn comp_of(comps: Seq<Seq<int>>, u: int) -> int {
    choose|k: int| 0 <= k < comps.len() && comps[k].contains(u)
}

/// The strongly connected components of the graph with nodes `0 .. n` and
/// the given edges, in the order in which `petgraph` lists them.
pub uninterp spec fn scc_order(n: nat, edges: Seq<(int, int)>) -> Seq<Seq<int>>;

/// Whether two lists of nodes differ at most in the bounds of the nodes.
pub open spec fn same_but_max(a: Seq<Node>, b: Seq<Node>) -> bool {
    &&& a.len() == b.len()
    &&& forall|i: int|
        0 <= i < a.len() ==> (#[trigger] a[i]).name == b[i].name && a[i].local == b[i].local
            && a[i].dashed == b[i].dashed
}

/// The nodes reached from `start` in the graph with nodes `0 .. n` and the
/// given edges, in the order in which a depth-first traversal of `petgraph`
/// comes to them.
pub uninterp spec fn dfs_order(n: nat, edges: Seq<(int, int)>, start: int) -> Seq<int>;

/// Whether `order` lists the nodes reached from `start`, each once, `start`
/// first.
pub open spec fn is_reach_order(edges: Seq<(int, int)>, start: int, order: Seq<int>) -> bool {
    &&& order.no_duplicates()
    &&& order.len() > 0
    &&& order[0] == start
    &&& forall|v: int|
        #![trigger order.contains(v)]
        #![trigger reaches(edges, start, v)]
        order.contains(v) <==> reaches(edges, start, v)
}

/// The node indices of a list of lists, as mathematical integers.
pub open spec fn index_lists(lists: Seq<Vec<usize>>) -> Seq<Seq<int>> {
    Seq::new(lists.len(), |k: int| index_list(lists[k]@))
}

/// The node indices of a list, as mathematical integers.
pub open spec fn index_list(list: Seq<usize>) -> Seq<int> {
    Seq::new(list.len(), |j: int| list[j] as int)
}

/// Every edge of `edges` joins two of the nodes `0 .. n`.
pub open spec fn edges_within(edges: Seq<(int, int)>, n: nat) -> bool {
    forall|k: int|
        0 <= k < edges.len() ==> {
            &&& 0 <= (#[trigger] edges[k]).0 < n
            &&& 0 <= edges[k].1 < n
        }
}

/// `Graph::neighbors`: the targets of the edges that leave node `a`, the most
/// recently added edge first, one entry for each edge.
#[verifier::external_body]
fn pg_neighbors(g: &petgraph::graph::Graph<Node, (), petgraph::Directed, u32>, a: usize) -> (r: Vec<usize>)
    requires
        a < graph_nodes(*g).len(),
    ensures
        index_list(r@) == out_targets(graph_edges(*g), a as int),
{
    g.neighbors(petgraph::graph::NodeIndex::new(a)).map(|n| n.index()).collect()
}

/// `petgraph::algo::kosaraju_scc`: the strongly connected components, each a
/// list of node indices in no stated order, the components themselves in
/// reverse topological order. The result depends on the number of nodes and
/// on the edges alone.
#[verifier::external_body]
fn pg_scc(g: &petgraph::graph::Graph<Node, (), petgraph::Directed, u32>) -> (r: Vec<Vec<usize>>)
    ensures
        index_lists(r@) == scc_order(graph_nodes(*g).len(), graph_edges(*g)),
        is_scc_listing(graph_nodes(*g).len(), graph_edges(*g), index_lists(r@)),
{
    petgraph::algo::kosaraju_scc(g).into_iter().map(
        |scc| scc.into_iter().map(|n| n.index()).collect(),
    ).collect()
}

/// `Graph::raw_edges`, at one index: the source and the target of edge `k`.
/// It panics on an index that is no edge, which `requires` excludes.
#[verifier::external_body]
fn pg_edge(g: &petgraph::graph::Graph<Node, (), petgraph::Directed, u32>, k: usize) -> (e: (usize, usize))
    requires
        k < graph_edges(*g).len(),
    ensures
        (e.0 as int, e.1 as int) == graph_edges(*g)[k as int],
{
    (g.raw_edges()[k].source().index(), g.raw_edges()[k].target().index())
}

/// `petgraph::visit::Dfs`, run to its end: the nodes reached from `start`,
/// each once, in the order in which the traversal first comes to them, which
/// depends on the number of nodes, the edges and `start` alone. It panics
/// on a start that is no node, which `requires` excludes.
#[verifier::external_body]
fn pg_dfs(g: &petgraph::graph::Graph<Node, (), petgraph::Directed, u32>, start: usize) -> (r: Vec<usize>)
    requires
        start < graph_nodes(*g).len(),
    ensures
        index_list(r@) == dfs_order(graph_nodes(*g).len(), graph_edges(*g), start as int),
        is_reach_order(graph_edges(*g), start as int, index_list(r@)),
{
    let dfs = petgraph::visit::Dfs::new(g, petgraph::graph::NodeIndex::new(start));
    petgraph::visit::Walker::iter(dfs, g).map(|n| n.index()).collect()
}

/// The call graph.
pub struct CallGraph {
    g: petgraph::graph::Graph<Node, (), petgraph::Directed, u32>,
}

impl CallGraph {
    /// The nodes, by index.
    pub closed spec fn nodes(&self) -> Seq<Node> {
        graph_nodes(self.g)
    }

    /// The edges as (caller, callee) pairs of node indices, in the order of
    /// their addition.
    pub closed spec fn edges(&self) -> Seq<(int, int)> {
        graph_edges(self.g)
    }

    /// Every edge joins two nodes of the graph, and nodes and edges are no
    /// more than their indices can number.
    pub open spec fn wf(&self) -> bool {
        &&& edges_within(self.edges(), self.nodes().len())
        &&& self.nodes().len() <= u32::MAX
        &&& self.edges().len() <= u32::MAX
    }

    /// An empty graph.
    pub fn new() -> (g: CallGraph)
        ensures
            g.wf(),
            g.nodes() == Seq::<Node>::empty(),
            g.edges() == Seq::<(int, int)>::empty(),
    {
        CallGraph { g: pg_new() }
    }

    /// The number of nodes.
    pub fn node_count(&self) -> (n: usize)
        ensures
            n == self.nodes().len(),
    {
        pg_node_count(&self.g)
    }

    /// The number of edges.
    pub fn edge_count(&self) -> (n: usize)
        ensures
            n == self.edges().len(),
    {
        pg_edge_count(&self.g)
    }

    /// Adds a node and returns its index.
    pub fn add_node(&mut self, node: Node) -> (i: usize)
        requires
            old(self).wf(),
            old(self).nodes().len() < u32::MAX,
        ensures
            final(self).wf(),
            final(self).nodes() == old(self).nodes().push(node),
            final(self).edges() == old(self).edges(),
            i == old(self).nodes().len(),
    {
        let i = pg_add_node(&mut self.g, node);
        assert(self.wf());
        i
    }

    /// Adds an edge from `a` to `b`, whether or not there is one already.
    pub fn add_edge(&mut self, a: usize, b: usize)
        requires
            old(self).wf(),
            a < old(self).nodes().len(),
            b < old(self).nodes().len(),
            old(self).edges().len() < u32::MAX,
        ensures
            final(self).wf(),
            final(self).nodes() == old(self).nodes(),
            final(self).edges() == old(self).edges().push((a as int, b as int)),
    {
        pg_add_edge(&mut self.g, a, b)
    }

    /// The callees of node `a`: one entry for each edge that leaves it, the
    /// most recently added first.
    pub fn neighbors(&self, a: usize) -> (r: Vec<usize>)
        requires
            self.wf(),
            a < self.nodes().len(),
        ensures
            index_list(r@) == out_targets(self.edges(), a as int),
            forall|j: int| 0 <= j < r@.len() ==> r@[j] < self.nodes().len(),
    {
        let r = pg_neighbors(&self.g, a);
        proof {
            assert forall|j: int| 0 <= j < r@.len() implies r@[j] < self.nodes().len() by {
                assert(index_list(r@)[j] == r@[j]);
                assert(out_targets(self.edges(), a as int).contains(r@[j] as int));
                lemma_out_targets(self.edges(), a as int, r@[j] as int);
                let k = choose|k: int|
                    0 <= k < self.edges().len() && self.edges()[k] == (a as int, r@[j] as int);
                assert(self.edges()[k].1 == r@[j]);
            }
        }
        r
    }

    /// The caller and the callee of edge `k`.
    pub fn edge(&self, k: usize) -> (e: (usize, usize))
        requires
            k < self.edges().len(),
        ensures
            (e.0 as int, e.1 as int) == self.edges()[k as int],
    {
        pg_edge(&self.g, k)
    }

    /// The nodes reached from `start`, each once, `start` first.
    pub fn reached_from(&self, start: usize) -> (r: Vec<usize>)
        requires
            self.wf(),
            start < self.nodes().len(),
        ensures
            index_list(r@) == dfs_order(self.nodes().len(), self.edges(), start as int),
            is_reach_order(self.edges(), start as int, index_list(r@)),
            forall|j: int| 0 <= j < r@.len() ==> r@[j] < self.nodes().len(),
    {
        let r = pg_dfs(&self.g, start);
        proof {
            assert forall|j: int| 0 <= j < r@.len() implies r@[j] < self.nodes().len() by {
                assert(index_list(r@)[j] == r@[j]);
                assert(index_list(r@).contains(r@[j] as int));
                lemma_reaches_within(self.edges(), self.nodes().len(), start as int, r@[j] as int);
            }
        }
        r
    }

    /// The strongly connected components, callees first.
    pub fn components(&self) -> (r: Vec<Vec<usize>>)
        ensures
            index_lists(r@) == scc_order(self.nodes().len(), self.edges()),
            is_scc_order(self.nodes().len(), self.edges(), index_lists(r@)),
    {
        let r = pg_scc(&self.g);
        proof {
            lemma_scc_listing(self.nodes().len(), self.edges(), index_lists(r@));
        }
        r
    }

    /// The node with index `i`.
    pub fn node(&self, i: usize) -> (node: &Node)
        requires
            i < self.nodes().len(),
        ensures
            *node == self.nodes()[i as int],
    {
        pg_node(&self.g, i)
    }

    /// Gives node `i` the bound `max` and leaves the rest of it alone.
    pub fn set_max(&mut self, i: usize, max: Max)
        requires
            old(self).wf(),
            i < old(self).nodes().len(),
        ensures
            final(self).wf(),
            final(self).edges() == old(self).edges(),
            final(self).nodes() == old(self).nodes().update(
                i as int,
                (Node {
                    name: old(self).nodes()[i as int].name,
                    local: old(self).nodes()[i as int].local,
                    max: Some(max),
                    dashed: old(self).nodes()[i as int].dashed,
                }),
            ),
    {
        let mut node = self.node(i).duplicate();
        node.max = Some(max);
        self.set_node(i, node);
    }

    /// Gives node `i` the local stack usage `local` and leaves the rest of
    /// it alone.
    pub fn set_local(&mut self, i: usize, local: Local)
        requires
            old(self).wf(),
            i < old(self).nodes().len(),
        ensures
            final(self).wf(),
            final(self).edges() == old(self).edges(),
            final(self).nodes() == old(self).nodes().update(
                i as int,
                (Node {
                    name: old(self).nodes()[i as int].name,
                    local,
                    max: old(self).nodes()[i as int].max,
                    dashed: old(self).nodes()[i as int].dashed,
                }),
            ),
    {
        let mut node = self.node(i).duplicate();
        node.local = local;
        self.set_node(i, node);
    }

    /// Gives node `i` the name `name` and leaves the rest of it alone.
    pub fn set_name(&mut self, i: usize, name: String)
        requires
            old(self).wf(),
            i < old(self).nodes().len(),
        ensures
            final(self).wf(),
            final(self).edges() == old(self).edges(),
            final(self).nodes() == old(self).nodes().update(
                i as int,
                (Node {
                    name,
                    local: old(self).nodes()[i as int].local,
                    max: old(self).nodes()[i as int].max,
                    dashed: old(self).nodes()[i as int].dashed,
                }),
            ),
    {
        let node = Node {
            name,
            local: self.node(i).local,
            max: self.node(i).max,
            dashed: self.node(i).dashed,
        };
        self.set_node(i, node);
    }

    /// Replaces the node with index `i`.
    pub fn set_node(&mut self, i: usize, node: Node)
        requires
            old(self).wf(),
            i < old(self).nodes().len(),
        ensures
            final(self).wf(),
            final(self).nodes() == old(self).nodes().update(i as int, node),
            final(self).edges() == old(self).edges(),
    {
        pg_set_node(&mut self.g, i, node);
        assert(self.wf());
    }
}

} // verus!
