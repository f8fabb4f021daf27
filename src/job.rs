//! Tasks, invocation edges and job DAGs.

use vstd::prelude::*;
use petgraph::graph::{Graph, NodeIndex};

verus! {

/// petgraph's graph, opaque to Verus: its contents are read through
/// `graph_nodes` and `graph_edges`.
#[verifier::external_type_specification]
#[verifier::external_body]
#[verifier::reject_recursive_types(N)]
#[verifier::reject_recursive_types(E)]
#[verifier::reject_recursive_types(Ty)]
#[verifier::reject_recursive_types(Ix)]
pub struct ExGraph<N, E, Ty, Ix>(Graph<N, E, Ty, Ix>);

/// petgraph's marker for directed graphs, the default of `Graph`.
#[verifier::external_type_specification]
#[verifier::external_body]
pub struct ExDirected(petgraph::Directed);

/// A task of a job.
#[derive(Debug, Clone, Copy)]
pub struct Vertex {
    /// CPU request, in hundredths of a core.
    pub cpu_request: usize,
    /// State size, in MB.
    pub state_size: usize,
}

impl Vertex {
    pub fn new(cpu_request: usize, state_size: usize) -> (r: Self)
        ensures
            r.cpu_request == cpu_request,
            r.state_size == state_size,
    {
        Vertex { cpu_request, state_size }
    }
}

/// An invocation dependency between two tasks.
#[derive(Debug, Clone, Copy)]
pub struct Edge {
    /// Argument size of one invocation, in MB.
    pub arg_size: usize,
}

impl Edge {
    pub fn new(arg_size: usize) -> (r: Self)
        ensures
            r.arg_size == arg_size,
    {
        Edge { arg_size }
    }
}

/// The tasks of a graph, by node index.
pub uninterp spec fn graph_nodes(g: Graph<Vertex, Edge>) -> Seq<Vertex>;

/// The edges of a graph as (source, target, weight), by edge index.
pub uninterp spec fn graph_edges(g: Graph<Vertex, Edge>) -> Seq<(u32, u32, Edge)>;

/// Relies on petgraph's `Graph::new`: a graph with no node and no edge.
#[verifier::external_body]
fn empty_graph() -> (g: Graph<Vertex, Edge>)
    ensures
        graph_nodes(g) == Seq::<Vertex>::empty(),
        graph_edges(g) == Seq::<(u32, u32, Edge)>::empty(),
{
    Graph::new()
}

/// Relies on petgraph's `Graph::add_node`: the weight is appended to the
/// nodes; it panics only when the node count reaches `u32::MAX`.
#[verifier::external_body]
fn push_task(g: &mut Graph<Vertex, Edge>, v: Vertex)
    requires
        graph_nodes(*old(g)).len() + 1 < u32::MAX,
    ensures
        graph_nodes(*final(g)) == graph_nodes(*old(g)).push(v),
        graph_edges(*final(g)) == graph_edges(*old(g)),
{
    g.add_node(v);
}

/// Relies on petgraph's `Graph::update_edge`: with at most one edge per
/// ordered pair, the edge from `a` to `b` gets the new weight if it exists,
/// else a new edge is appended. It panics on missing nodes and at
/// `u32::MAX` edges.
#[verifier::external_body]
fn set_link(g: &mut Graph<Vertex, Edge>, a: u32, b: u32, e: Edge)
    requires
        a < graph_nodes(*old(g)).len(),
        b < graph_nodes(*old(g)).len(),
        graph_edges(*old(g)).len() + 1 < u32::MAX,
        unique_pairs(graph_edges(*old(g))),
    ensures
        graph_nodes(*final(g)) == graph_nodes(*old(g)),
        graph_edges(*final(g)) == put_link(graph_edges(*old(g)), (a, b, e)),
{
    g.update_edge(NodeIndex::new(a as usize), NodeIndex::new(b as usize), e);
}

/// Relies on petgraph's `Graph::node_count`.
#[verifier::external_body]
fn task_count(g: &Graph<Vertex, Edge>) -> (r: usize)
    ensures
        r == graph_nodes(*g).len(),
{
    g.node_count()
}

/// Relies on petgraph's `Graph::edge_count`.
#[verifier::external_body]
fn link_count(g: &Graph<Vertex, Edge>) -> (r: usize)
    ensures
        r == graph_edges(*g).len(),
{
    g.edge_count()
}

/// Relies on petgraph's `Graph::node_weight`: the weight of node `i`.
#[verifier::external_body]
fn task_at(g: &Graph<Vertex, Edge>, i: usize) -> (r: Vertex)
    requires
        i < graph_nodes(*g).len(),
    ensures
        r == graph_nodes(*g)[i as int],
{
    *g.node_weight(NodeIndex::new(i)).unwrap()
}

/// Relies on petgraph's `Graph::raw_edges`: the edge array, by edge index.
#[verifier::external_body]
fn link_at(g: &Graph<Vertex, Edge>, i: usize) -> (r: (u32, u32, Edge))
    requires
        i < graph_edges(*g).len(),
    ensures
        r == graph_edges(*g)[i as int],
{
    let e = &g.raw_edges()[i];
    (e.source().index() as u32, e.target().index() as u32, e.weight)
}

/// Relies on petgraph's `Graph::neighbors_directed` with `Incoming`: in a
/// directed graph, the sources of the edges into `v`, most recent edge first.
#[verifier::external_body]
fn incoming_of(g: &Graph<Vertex, Edge>, v: u32) -> (r: Vec<u32>)
    ensures
        r@ == sources_into(graph_edges(*g), v),
{
    g.neighbors_directed(NodeIndex::new(v as usize), petgraph::Direction::Incoming)
        .map(|n| n.index() as u32)
        .collect()
}

/// Sum of a sequence of integers.
pub open spec fn seq_sum(s: Seq<int>) -> int
    decreases s.len(),
{
    if s.len() == 0 {
        0
    } else {
        seq_sum(s.drop_last()) + s.last()
    }
}

pub open spec fn cpu_of(tasks: Seq<Vertex>) -> Seq<int> {
    tasks.map_values(|v: Vertex| v.cpu_request as int)
}

pub open spec fn state_of(tasks: Seq<Vertex>) -> Seq<int> {
    tasks.map_values(|v: Vertex| v.state_size as int)
}

pub open spec fn arg_of(links: Seq<(u32, u32, Edge)>) -> Seq<int> {
    links.map_values(|l: (u32, u32, Edge)| l.2.arg_size as int)
}

/// Index of the first edge from `a` to `b`, or -1.
pub open spec fn link_index(links: Seq<(u32, u32, Edge)>, a: u32, b: u32) -> int
    decreases links.len(),
{
    if links.len() == 0 {
        -1
    } else if link_index(links.drop_last(), a, b) >= 0 {
        link_index(links.drop_last(), a, b)
    } else if links.last().0 == a && links.last().1 == b {
        links.len() - 1
    } else {
        -1
    }
}

/// Adds an edge, or overwrites the weight of the edge with the same endpoints.
pub open spec fn put_link(links: Seq<(u32, u32, Edge)>, l: (u32, u32, Edge)) -> Seq<(u32, u32, Edge)> {
    let k = link_index(links, l.0, l.1);
    if k >= 0 {
        links.update(k, l)
    } else {
        links.push(l)
    }
}

/// The edges of a graph built by putting `edges` in order.
pub open spec fn merge_links(edges: Seq<(u32, u32, Edge)>) -> Seq<(u32, u32, Edge)>
    decreases edges.len(),
{
    if edges.len() == 0 {
        Seq::empty()
    } else {
        put_link(merge_links(edges.drop_last()), edges.last())
    }
}

/// At most one edge per ordered pair of endpoints.
pub open spec fn unique_pairs(links: Seq<(u32, u32, Edge)>) -> bool {
    forall|i: int, j: int|
        0 <= i < links.len() && 0 <= j < links.len() && i != j
            ==> (#[trigger] links[i].0 != #[trigger] links[j].0
            || links[i].1 != links[j].1)
}

/// Every edge joins two tasks among the first `n`.
pub open spec fn links_in_range(links: Seq<(u32, u32, Edge)>, n: nat) -> bool {
    forall|i: int| 0 <= i < links.len() ==> (#[trigger] links[i]).0 < n && links[i].1 < n
}

/// Sources of the edges into `v`, the most recently added edge first.
pub open spec fn sources_into(links: Seq<(u32, u32, Edge)>, v: u32) -> Seq<u32>
    decreases links.len(),
{
    if links.len() == 0 {
        Seq::empty()
    } else if links.last().1 == v {
        seq![links.last().0].add(sources_into(links.drop_last(), v))
    } else {
        sources_into(links.drop_last(), v)
    }
}

pub proof fn lemma_sum_take(s: Seq<int>, i: int)
    requires
        0 <= i < s.len(),
    ensures
        seq_sum(s.take(i + 1)) == seq_sum(s.take(i)) + s[i],
{
    assert(s.take(i + 1).drop_last() =~= s.take(i));
}

pub proof fn lemma_sum_prefix_le(s: Seq<int>, i: int)
    requires
        0 <= i <= s.len(),
        forall|k: int| 0 <= k < s.len() ==> s[k] >= 0,
    ensures
        seq_sum(s.take(i)) <= seq_sum(s),
    decreases s.len(),
{
    if i == s.len() {
        assert(s.take(i) =~= s);
    } else {
        lemma_sum_prefix_le(s.drop_last(), i);
        assert(s.drop_last().take(i) =~= s.take(i));
    }
}

pub proof fn lemma_sum_nonneg(s: Seq<int>)
    requires
        forall|k: int| 0 <= k < s.len() ==> s[k] >= 0,
    ensures
        seq_sum(s) >= 0,
    decreases s.len(),
{
    if s.len() > 0 {
        lemma_sum_nonneg(s.drop_last());
    }
}

pub proof fn lemma_link_index(links: Seq<(u32, u32, Edge)>, a: u32, b: u32)
    ensures
        link_index(links, a, b) >= 0 ==> link_index(links, a, b) < links.len()
            && links[link_index(links, a, b)].0 == a && links[link_index(links, a, b)].1 == b,
        link_index(links, a, b) < 0 ==> link_index(links, a, b) == -1 && forall|i: int|
            0 <= i < links.len() ==> !(#[trigger] links[i].0 == a && links[i].1 == b),
    decreases links.len(),
{
    if links.len() > 0 {
        lemma_link_index(links.drop_last(), a, b);
        if link_index(links.drop_last(), a, b) < 0 {
            assert forall|i: int| 0 <= i < links.len() - 1 implies !(#[trigger] links[i].0 == a
                && links[i].1 == b) by {
                assert(links.drop_last()[i] == links[i]);
            }
        }
    }
}

pub proof fn lemma_put_link(links: Seq<(u32, u32, Edge)>, l: (u32, u32, Edge), n: nat)
    requires
        unique_pairs(links),
        links_in_range(links, n),
        l.0 < n,
        l.1 < n,
    ensures
        unique_pairs(put_link(links, l)),
        links_in_range(put_link(links, l), n),
        put_link(links, l).len() <= links.len() + 1,
        link_index(links, l.0, l.1) < 0 ==> put_link(links, l) == links.push(l),
{
    lemma_link_index(links, l.0, l.1);
    let r = put_link(links, l);
    assert forall|i: int, j: int|
        0 <= i < r.len() && 0 <= j < r.len() && i != j implies (#[trigger] r[i].0 != #[trigger] r[j].0
        || r[i].1 != r[j].1) by {
        if i < links.len() && j < links.len() {
            assert(links[i].0 != links[j].0 || links[i].1 != links[j].1);
        }
    }
}

/// Putting the edges in order yields distinct pairs, no more edges than
/// were put, and exactly the edges when their pairs were distinct already.
pub proof fn lemma_merge_links(edges: Seq<(u32, u32, Edge)>, n: nat)
    requires
        links_in_range(edges, n),
    ensures
        unique_pairs(merge_links(edges)),
        links_in_range(merge_links(edges), n),
        merge_links(edges).len() <= edges.len(),
        unique_pairs(edges) ==> merge_links(edges) == edges,
    decreases edges.len(),
{
    if edges.len() > 0 {
        let prev = edges.drop_last();
        assert(links_in_range(prev, n)) by {
            assert forall|i: int| 0 <= i < prev.len() implies (#[trigger] prev[i]).0 < n
                && prev[i].1 < n by {
                assert(prev[i] == edges[i]);
            }
        }
        lemma_merge_links(prev, n);
        assert(edges.last() == edges[edges.len() - 1]);
        lemma_put_link(merge_links(prev), edges.last(), n);
        if unique_pairs(edges) {
            assert(unique_pairs(prev)) by {
                assert forall|i: int, j: int|
                    0 <= i < prev.len() && 0 <= j < prev.len() && i != j implies (
                    #[trigger] prev[i].0 != #[trigger] prev[j].0 || prev[i].1 != prev[j].1) by {
                    assert(prev[i] == edges[i] && prev[j] == edges[j]);
                }
            }
            lemma_link_index(prev, edges.last().0, edges.last().1);
            if link_index(prev, edges.last().0, edges.last().1) >= 0 {
                let k = link_index(prev, edges.last().0, edges.last().1);
                assert(prev[k] == edges[k]);
                assert(false);
            }
            assert(prev.push(edges.last()) =~= edges);
        }
    }
}

/// A sum of `n` terms in `[0, b]` is at most `n * b`.
pub proof fn lemma_sum_bounded(s: Seq<int>, b: int)
    requires
        forall|i: int| 0 <= i < s.len() ==> 0 <= #[trigger] s[i] <= b,
    ensures
        seq_sum(s) <= s.len() * b,
    decreases s.len(),
{
    if s.len() > 0 {
        let t = s.drop_last();
        assert forall|i: int| 0 <= i < t.len() implies 0 <= #[trigger] t[i] <= b by {
            assert(t[i] == s[i]);
        }
        lemma_sum_bounded(t, b);
        assert(s.last() == s[s.len() - 1]);
        assert((t.len() as int) * b + b == (s.len() as int) * b) by (nonlinear_arith)
            requires
                t.len() + 1 == s.len(),
        ;
    }
}

/// Maximum number of tasks of a job.
pub const MAX_TASKS: u32 = 1000;

/// A job: a DAG of tasks, each edge an invocation from its source to its
/// target.
pub struct Job {
    graph: Graph<Vertex, Edge>,
}

impl Job {
    /// The tasks, by index.
    pub closed spec fn tasks(&self) -> Seq<Vertex> {
        graph_nodes(self.graph)
    }

    /// The edges as (source, target, weight), by index.
    pub closed spec fn links(&self) -> Seq<(u32, u32, Edge)> {
        graph_edges(self.graph)
    }

    pub open spec fn wf(&self) -> bool {
        &&& self.tasks().len() + 1 < u32::MAX
        &&& self.links().len() + 1 < u32::MAX
        &&& links_in_range(self.links(), self.tasks().len())
        &&& unique_pairs(self.links())
        &&& seq_sum(cpu_of(self.tasks())) <= usize::MAX
        &&& seq_sum(state_of(self.tasks())) <= usize::MAX
        &&& seq_sum(arg_of(self.links())) <= usize::MAX
    }

    /// Builds the DAG: the vertices in order, then the edges in order, a
    /// later edge between the same two tasks overwriting the earlier one.
    pub fn new(vertices: Vec<Vertex>, edges: Vec<(u32, u32, Edge)>) -> (r: Self)
        requires
            vertices.len() + 1 < u32::MAX,
            edges.len() + 1 < u32::MAX,
            links_in_range(edges@, vertices.len() as nat),
            seq_sum(cpu_of(vertices@)) <= usize::MAX,
            seq_sum(state_of(vertices@)) <= usize::MAX,
            seq_sum(arg_of(merge_links(edges@))) <= usize::MAX,
        ensures
            r.tasks() == vertices@,
            r.links() == merge_links(edges@),
            r.wf(),
    {
        let mut graph = empty_graph();
        let mut i: usize = 0;
        while i < vertices.len()
            invariant
                i <= vertices.len(),
                vertices.len() + 1 < u32::MAX,
                graph_nodes(graph) == vertices@.take(i as int),
                graph_edges(graph) == Seq::<(u32, u32, Edge)>::empty(),
            decreases vertices.len() - i,
        {
            assert(vertices@.take(i as int).push(vertices[i as int]) =~= vertices@.take(i + 1));
            push_task(&mut graph, vertices[i]);
            i = i + 1;
        }
        assert(vertices@.take(i as int) =~= vertices@);
        proof {
            lemma_merge_links(edges@, vertices.len() as nat);
        }
        let mut j: usize = 0;
        while j < edges.len()
            invariant
                j <= edges.len(),
                edges.len() + 1 < u32::MAX,
                links_in_range(edges@, vertices.len() as nat),
                graph_nodes(graph) == vertices@,
                graph_edges(graph) == merge_links(edges@.take(j as int)),
            decreases edges.len() - j,
        {
            let ghost prefix = edges@.take(j as int);
            assert(edges@.take(j + 1).drop_last() =~= prefix);
            assert(edges@.take(j + 1).last() == edges@[j as int]);
            proof {
                assert(links_in_range(prefix, vertices.len() as nat)) by {
                    assert forall|k: int| 0 <= k < prefix.len() implies (#[trigger] prefix[k]).0
                        < vertices.len() && prefix[k].1 < vertices.len() by {
                        assert(prefix[k] == edges@[k]);
                    }
                }
                lemma_merge_links(prefix, vertices.len() as nat);
            }
            let (a, b, e) = edges[j];
            set_link(&mut graph, a, b, e);
            j = j + 1;
        }
        assert(edges@.take(j as int) =~= edges@);
        Job { graph }
    }

    /// Number of tasks.
    pub fn node_count(&self) -> (r: usize)
        ensures
            r == self.tasks().len(),
    {
        task_count(&self.graph)
    }

    /// Number of edges.
    pub fn edge_count(&self) -> (r: usize)
        ensures
            r == self.links().len(),
    {
        link_count(&self.graph)
    }

    /// The task of index `i`.
    pub fn task(&self, i: usize) -> (r: Vertex)
        requires
            i < self.tasks().len(),
        ensures
            r == self.tasks()[i as int],
    {
        task_at(&self.graph, i)
    }

    /// The edge of index `i`, as (source, target, weight).
    pub fn link(&self, i: usize) -> (r: (u32, u32, Edge))
        requires
            i < self.links().len(),
        ensures
            r == self.links()[i as int],
    {
        link_at(&self.graph, i)
    }

    /// The tasks with an edge into task `v`, the most recent edge first.
    pub fn predecessors(&self, v: u32) -> (r: Vec<u32>)
        ensures
            r@ == sources_into(self.links(), v),
    {
        incoming_of(&self.graph, v)
    }

    /// The underlying graph.
    pub fn graph(&self) -> (r: &Graph<Vertex, Edge>)
        ensures
            graph_nodes(*r) == self.tasks(),
            graph_edges(*r) == self.links(),
    {
        &self.graph
    }

    /// Sum of the CPU requests of the tasks.
    pub fn total_cpu(&self) -> (r: usize)
        requires
            self.wf(),
        ensures
            r == seq_sum(cpu_of(self.tasks())),
    {
        let n = self.node_count();
        let ghost s = cpu_of(self.tasks());
        let mut acc: usize = 0;
        let mut i: usize = 0;
        while i < n
            invariant
                i <= n,
                n == s.len(),
                s == cpu_of(self.tasks()),
                self.wf(),
                acc == seq_sum(s.take(i as int)),
            decreases n - i,
        {
            proof {
                lemma_sum_take(s, i as int);
                lemma_sum_prefix_le(s, i + 1);
            }
            let v = self.task(i);
            acc = acc + v.cpu_request;
            i = i + 1;
        }
        assert(s.take(i as int) =~= s);
        acc
    }

    /// Sum of the state sizes of the tasks.
    pub fn total_state_size(&self) -> (r: usize)
        requires
            self.wf(),
        ensures
            r == seq_sum(state_of(self.tasks())),
    {
        let n = self.node_count();
        let ghost s = state_of(self.tasks());
        let mut acc: usize = 0;
        let mut i: usize = 0;
        while i < n
            invariant
                i <= n,
                n == s.len(),
                s == state_of(self.tasks()),
                self.wf(),
                acc == seq_sum(s.take(i as int)),
            decreases n - i,
        {
            proof {
                lemma_sum_take(s, i as int);
                lemma_sum_prefix_le(s, i + 1);
            }
            let v = self.task(i);
            acc = acc + v.state_size;
            i = i + 1;
        }
        assert(s.take(i as int) =~= s);
        acc
    }

    /// Sum of the argument sizes of the edges.
    pub fn total_arg_size(&self) -> (r: usize)
        requires
            self.wf(),
        ensures
            r == seq_sum(arg_of(self.links())),
    {
        let n = self.edge_count();
        let ghost s = arg_of(self.links());
        let mut acc: usize = 0;
        let mut i: usize = 0;
        while i < n
            invariant
                i <= n,
                n == s.len(),
                s == arg_of(self.links()),
                self.wf(),
                acc == seq_sum(s.take(i as int)),
            decreases n - i,
        {
            proof {
                lemma_sum_take(s, i as int);
                lemma_sum_prefix_le(s, i + 1);
            }
            let l = self.link(i);
            acc = acc + l.2.arg_size;
            i = i + 1;
        }
        assert(s.take(i as int) =~= s);
        acc
    }
}

} // verus!
