//! The graph as the solvers see it: a number of nodes and a symmetric
//! adjacency relation, kept in a `petgraph` adjacency matrix.

use petgraph::matrix_graph::{NodeIndex, UnMatrix};
use vstd::prelude::*;

verus! {

/// The most nodes a graph may hold: every node id then fits the 16-bit index
/// type of the adjacency matrix.
pub const MAX_NODES: usize = 0xFFFF;

/// An undirected graph without edge or node weights, stored as a `petgraph`
/// adjacency matrix. The matrix is opaque to the verifier: what it holds is
/// named by [`graph_order`] and [`graph_links`].
#[verifier::external_body]
pub struct Graph {
    matrix: UnMatrix<(), ()>,
}

/// The number of nodes that the graph holds.
pub uninterp spec fn graph_order(graph: Graph) -> nat;

/// The pairs of node ids that an edge of the matrix joins, each edge in both
/// orientations.
pub uninterp spec fn graph_links(graph: Graph) -> Set<(int, int)>;

/// Two nodes are adjacent when an edge joins them. Reading the pair in either
/// orientation makes the relation symmetric by definition.
pub open spec fn adjacent(graph: Graph, a: int, b: int) -> bool {
    graph_links(graph).contains((a, b)) || graph_links(graph).contains((b, a))
}

/// What the solvers ask of a graph: its nodes are `0..N` with `N` at most
/// [`MAX_NODES`], every edge joins two of them, and no edge is a self-loop.
pub open spec fn simple_graph(graph: Graph) -> bool {
    &&& graph_order(graph) <= MAX_NODES
    &&& forall|a: int, b: int| #[trigger]
        adjacent(graph, a, b) ==> 0 <= a < graph_order(graph) && 0 <= b < graph_order(graph) && a
            != b
}

/// The number of nodes `w < limit` that are adjacent to `node` and marked.
pub open spec fn tally(graph: Graph, node: int, marks: Seq<bool>, limit: int) -> nat
    decreases limit,
{
    if limit <= 0 {
        0
    } else {
        let rest = tally(graph, node, marks, limit - 1);
        if adjacent(graph, node, limit - 1) && limit - 1 < marks.len() && marks[limit - 1] {
            rest + 1
        } else {
            rest
        }
    }
}

/// Marks that select every one of `count` nodes.
pub open spec fn every_node(count: nat) -> Seq<bool> {
    Seq::new(count, |w: int| true)
}

/// The static degree of a node: how many nodes are adjacent to it.
pub open spec fn degree(graph: Graph, node: int) -> nat {
    tally(graph, node, every_node(graph_order(graph)), graph_order(graph) as int)
}

/// `list` is what the adjacency matrix reports for `node`: its neighbors, each
/// once, in increasing order.
pub open spec fn lists_neighbors(graph: Graph, node: int, list: Seq<usize>) -> bool {
    &&& forall|i: int, j: int| 0 <= i < j < list.len() ==> list[i] < list[j]
    &&& forall|i: int| 0 <= i < list.len() ==> adjacent(graph, node, #[trigger] list[i] as int)
    &&& forall|b: int| #[trigger]
        adjacent(graph, node, b) ==> exists|i: int| 0 <= i < list.len() && #[trigger] list[i] == b
}

/// The first node id that the first `done` entries of a neighbor list have not
/// yet accounted for.
pub open spec fn frontier(list: Seq<usize>, done: int, order: nat) -> int {
    if 0 <= done < list.len() {
        list[done] as int
    } else {
        order as int
    }
}

/// `MatrixGraph::with_capacity`: a graph without nodes or edges, with room
/// set aside for `capacity` nodes.
#[verifier::external_body]
fn with_capacity(capacity: usize) -> (graph: Graph)
    requires
        capacity <= MAX_NODES,
    ensures
        graph_order(graph) == 0,
        graph_links(graph) == Set::<(int, int)>::empty(),
{
    Graph { matrix: UnMatrix::with_capacity(capacity) }
}

/// `MatrixGraph::add_node`: one more node; the edges stay as they are.
#[verifier::external_body]
fn add_node(graph: &mut Graph)
    requires
        graph_order(*old(graph)) < MAX_NODES,
    ensures
        graph_order(*final(graph)) == graph_order(*old(graph)) + 1,
        graph_links(*final(graph)) == graph_links(*old(graph)),
{
    graph.matrix.add_node(());
}

/// `MatrixGraph::update_edge`: an edge between two existing nodes is present
/// afterwards, whether or not it was before; nothing else changes.
#[verifier::external_body]
fn update_edge(graph: &mut Graph, a: usize, b: usize)
    requires
        a < graph_order(*old(graph)) <= MAX_NODES,
        b < graph_order(*old(graph)),
    ensures
        graph_order(*final(graph)) == graph_order(*old(graph)),
        graph_links(*final(graph)) == graph_links(*old(graph)).insert((a as int, b as int)).insert(
            (b as int, a as int),
        ),
{
    graph.matrix.update_edge(NodeIndex::new(a), NodeIndex::new(b), ());
}

/// `MatrixGraph::node_count`: the number of nodes of the graph.
#[verifier::external_body]
pub(crate) fn node_count(graph: &Graph) -> (count: usize)
    ensures
        count == graph_order(*graph),
{
    graph.matrix.node_count()
}

/// `MatrixGraph::neighbors`: the ids of the nodes that share an edge with
/// `node`, each once and in increasing order. The id must fit the 16-bit index
/// type of the matrix, which would otherwise cut it short.
#[verifier::external_body]
pub(crate) fn neighbors(graph: &Graph, node: usize) -> (list: Vec<usize>)
    requires
        node <= MAX_NODES,
    ensures
        lists_neighbors(*graph, node as int, list@),
{
    graph.matrix.neighbors(NodeIndex::new(node)).map(|b| b.index()).collect()
}

/// An edge that [`build_graph`] accepts: it joins two distinct nodes below
/// `node_total`.
pub open spec fn valid_edge(node_total: int, edge: (usize, usize)) -> bool {
    edge.0 < node_total && edge.1 < node_total && edge.0 != edge.1
}

/// The edge joins `a` and `b`, in either orientation.
pub open spec fn joins(edge: (usize, usize), a: int, b: int) -> bool {
    (edge.0 == a && edge.1 == b) || (edge.0 == b && edge.1 == a)
}

/// Builds the graph with nodes `0..node_total` and the given edges. An edge
/// listed twice, or in both orientations, counts once.
///
/// Returns `None` when there are more than [`MAX_NODES`] nodes or when some
/// edge is not a [`valid_edge`].
pub fn build_graph(node_total: usize, edges: &Vec<(usize, usize)>) -> (built: Option<Graph>)
    ensures
        built is Some <==> node_total <= MAX_NODES && forall|i: int|
            0 <= i < edges@.len() ==> valid_edge(node_total as int, #[trigger] edges@[i]),
        built matches Some(graph) ==> {
            &&& graph_order(graph) == node_total
            &&& simple_graph(graph)
            &&& forall|a: int, b: int| #[trigger]
                adjacent(graph, a, b) <==> exists|i: int|
                    0 <= i < edges@.len() && joins(#[trigger] edges@[i], a, b)
        },
{
    if node_total > MAX_NODES {
        return None;
    }
    let mut checked: usize = 0;
    while checked < edges.len()
        invariant
            checked <= edges@.len(),
            forall|i: int| 0 <= i < checked ==> valid_edge(node_total as int, #[trigger] edges@[i]),
        decreases edges@.len() - checked,
    {
        let edge = edges[checked];
        if edge.0 >= node_total || edge.1 >= node_total || edge.0 == edge.1 {
            return None;
        }
        checked += 1;
    }
    let mut graph = with_capacity(node_total);
    let mut added: usize = 0;
    while added < node_total
        invariant
            added <= node_total <= MAX_NODES,
            graph_order(graph) == added,
            graph_links(graph) == Set::<(int, int)>::empty(),
        decreases node_total - added,
    {
        add_node(&mut graph);
        added += 1;
    }
    let mut linked: usize = 0;
    while linked < edges.len()
        invariant
            linked <= edges@.len(),
            node_total <= MAX_NODES,
            graph_order(graph) == node_total,
            forall|i: int| 0 <= i < edges@.len() ==> valid_edge(node_total as int, #[trigger] edges@[i]),
            forall|a: int, b: int| #[trigger]
                adjacent(graph, a, b) <==> exists|i: int|
                    0 <= i < linked && joins(#[trigger] edges@[i], a, b),
        decreases edges@.len() - linked,
    {
        let edge = edges[linked];
        let ghost before = graph;
        update_edge(&mut graph, edge.0, edge.1);
        proof {
            assert forall|a: int, b: int| #[trigger] adjacent(graph, a, b) <==> exists|i: int|
                0 <= i < linked + 1 && joins(#[trigger] edges@[i], a, b) by {
                if adjacent(graph, a, b) {
                    if adjacent(before, a, b) {
                        let i = choose|i: int| 0 <= i < linked && joins(#[trigger] edges@[i], a, b);
                        assert(joins(edges@[i], a, b));
                    } else {
                        assert(joins(edges@[linked as int], a, b));
                    }
                }
                if exists|i: int| 0 <= i < linked + 1 && joins(#[trigger] edges@[i], a, b) {
                    let i = choose|i: int| 0 <= i < linked + 1 && joins(#[trigger] edges@[i], a, b);
                    if i < linked {
                        assert(adjacent(before, a, b));
                    }
                }
            }
        }
        linked += 1;
    }
    proof {
        assert forall|a: int, b: int| #[trigger] adjacent(graph, a, b) implies 0 <= a < graph_order(
            graph,
        ) && 0 <= b < graph_order(graph) && a != b by {
            let i = choose|i: int| 0 <= i < edges@.len() && joins(#[trigger] edges@[i], a, b);
            assert(valid_edge(node_total as int, edges@[i]));
        }
    }
    Some(graph)
}

/// An edge of an edge list, whose node ids count from `1`: it joins two
/// distinct nodes from `1` to [`MAX_NODES`].
pub open spec fn valid_listed_edge(edge: (usize, usize)) -> bool {
    1 <= edge.0 <= MAX_NODES && 1 <= edge.1 <= MAX_NODES && edge.0 != edge.1
}

/// The greatest node id among the first `count` edges of a list, `0` for none.
pub open spec fn greatest_endpoint(edges: Seq<(usize, usize)>, count: int) -> usize
    decreases count,
{
    if count <= 0 {
        0
    } else {
        let rest = greatest_endpoint(edges, count - 1);
        let edge = edges[count - 1];
        let higher = if edge.0 > edge.1 {
            edge.0
        } else {
            edge.1
        };
        if higher > rest {
            higher
        } else {
            rest
        }
    }
}

/// No endpoint of the first `count` edges exceeds their greatest endpoint.
pub proof fn lemma_greatest_endpoint(edges: Seq<(usize, usize)>, count: int, at: int)
    requires
        0 <= at < count <= edges.len(),
    ensures
        edges[at].0 <= greatest_endpoint(edges, count),
        edges[at].1 <= greatest_endpoint(edges, count),
    decreases count,
{
    if at < count - 1 {
        lemma_greatest_endpoint(edges, count - 1, at);
    }
}

/// Builds the graph that an edge list describes. The list numbers the nodes
/// from `1`; the graph has them as `0..N`, where `N` is the greatest number in
/// the list. An edge listed twice, or in both orientations, counts once.
///
/// Returns `None` when some edge is not a [`valid_listed_edge`].
pub fn graph_from_edge_list(edges: &Vec<(usize, usize)>) -> (built: Option<Graph>)
    ensures
        built is Some <==> forall|i: int|
            0 <= i < edges@.len() ==> valid_listed_edge(#[trigger] edges@[i]),
        built matches Some(graph) ==> {
            &&& graph_order(graph) == greatest_endpoint(edges@, edges@.len() as int)
            &&& simple_graph(graph)
            &&& forall|a: int, b: int| #[trigger]
                adjacent(graph, a, b) <==> exists|i: int|
                    0 <= i < edges@.len() && joins(#[trigger] edges@[i], a + 1, b + 1)
        },
{
    let mut shifted: Vec<(usize, usize)> = Vec::with_capacity(edges.len());
    let mut node_total: usize = 0;
    let mut at: usize = 0;
    while at < edges.len()
        invariant
            at <= edges@.len(),
            shifted@.len() == at,
            node_total == greatest_endpoint(edges@, at as int),
            node_total <= MAX_NODES,
            forall|i: int| 0 <= i < at ==> valid_listed_edge(#[trigger] edges@[i]),
            forall|i: int|
                0 <= i < at ==> (#[trigger] shifted@[i]).0 + 1 == edges@[i].0 && shifted@[i].1 + 1
                    == edges@[i].1,
        decreases edges@.len() - at,
    {
        let edge = edges[at];
        if edge.0 < 1 || edge.1 < 1 || edge.0 > MAX_NODES || edge.1 > MAX_NODES || edge.0
            == edge.1 {
            return None;
        }
        if edge.0 > node_total {
            node_total = edge.0;
        }
        if edge.1 > node_total {
            node_total = edge.1;
        }
        shifted.push((edge.0 - 1, edge.1 - 1));
        at += 1;
    }
    proof {
        assert forall|i: int| 0 <= i < shifted@.len() implies valid_edge(
            node_total as int,
            #[trigger] shifted@[i],
        ) by {
            lemma_greatest_endpoint(edges@, edges@.len() as int, i);
            assert(valid_listed_edge(edges@[i]));
        }
    }
    let built = build_graph(node_total, &shifted);
    proof {
        let graph = built->0;
        assert forall|a: int, b: int| #[trigger] adjacent(graph, a, b) <==> exists|i: int|
            0 <= i < edges@.len() && joins(#[trigger] edges@[i], a + 1, b + 1) by {
            if adjacent(graph, a, b) {
                let i = choose|i: int| 0 <= i < shifted@.len() && joins(#[trigger] shifted@[i], a, b);
                assert(joins(edges@[i], a + 1, b + 1));
            }
            if exists|i: int| 0 <= i < edges@.len() && joins(#[trigger] edges@[i], a + 1, b + 1) {
                let i = choose|i: int|
                    0 <= i < edges@.len() && joins(#[trigger] edges@[i], a + 1, b + 1);
                assert(joins(shifted@[i], a, b));
            }
        }
    }
    built
}

/// The edge leads from `a` to `b`.
pub open spec fn leads(edge: (usize, usize), a: int, b: int) -> bool {
    edge.0 == a && edge.1 == b
}

/// The matrix has a `1` in row `a` at column `b`.
pub open spec fn marked(rows: Seq<Vec<u8>>, a: int, b: int) -> bool {
    0 <= a < rows.len() && 0 <= b < rows[a]@.len() && rows[a]@[b] == 1
}

/// The entries of an adjacency matrix that are `1`, as edges from the row to
/// the column, row by row.
pub fn matrix_edges(rows: &Vec<Vec<u8>>) -> (edges: Vec<(usize, usize)>)
    ensures
        forall|i: int|
            0 <= i < edges@.len() ==> marked(
                rows@,
                (#[trigger] edges@[i]).0 as int,
                edges@[i].1 as int,
            ),
        forall|a: int, b: int| #[trigger]
            marked(rows@, a, b) ==> exists|i: int|
                0 <= i < edges@.len() && leads(#[trigger] edges@[i], a, b),
{
    let mut edges: Vec<(usize, usize)> = Vec::new();
    let mut row: usize = 0;
    while row < rows.len()
        invariant
            row <= rows@.len(),
            forall|i: int|
                0 <= i < edges@.len() ==> marked(
                    rows@,
                    (#[trigger] edges@[i]).0 as int,
                    edges@[i].1 as int,
                ),
            forall|a: int, b: int| #[trigger]
                marked(rows@, a, b) && a < row ==> exists|i: int|
                    0 <= i < edges@.len() && leads(#[trigger] edges@[i], a, b),
        decreases rows@.len() - row,
    {
        let line = &rows[row];
        let mut column: usize = 0;
        while column < line.len()
            invariant
                row < rows@.len(),
                line@ == rows@[row as int]@,
                column <= line@.len(),
                forall|i: int|
                    0 <= i < edges@.len() ==> marked(
                        rows@,
                        (#[trigger] edges@[i]).0 as int,
                        edges@[i].1 as int,
                    ),
                forall|a: int, b: int| #[trigger]
                    marked(rows@, a, b) && (a < row || (a == row && b < column)) ==> exists|i: int|
                        0 <= i < edges@.len() && leads(#[trigger] edges@[i], a, b),
            decreases line@.len() - column,
        {
            if line[column] == 1 {
                let ghost before = edges@;
                edges.push((row, column));
                proof {
                    let last = before.len() as int;
                    assert(edges@[last] == (row, column));
                    assert forall|i: int| 0 <= i < edges@.len() implies marked(
                        rows@,
                        (#[trigger] edges@[i]).0 as int,
                        edges@[i].1 as int,
                    ) by {
                        if i < last {
                            assert(edges@[i] == before[i]);
                        }
                    }
                    assert forall|a: int, b: int| #[trigger]
                        marked(rows@, a, b) && (a < row || (a == row && b < column + 1))
                        implies exists|i: int|
                        0 <= i < edges@.len() && leads(#[trigger] edges@[i], a, b) by {
                        if a == row && b == column {
                            assert(leads(edges@[last], a, b));
                        } else {
                            let i = choose|i: int|
                                0 <= i < before.len() && leads(#[trigger] before[i], a, b);
                            assert(edges@[i] == before[i]);
                        }
                    }
                }
            }
            column += 1;
        }
        row += 1;
    }
    edges
}

/// Builds the graph that an adjacency matrix describes: it has the nodes
/// `0..matrix_size`, and two nodes are adjacent when the matrix has a `1` in
/// the row of one at the column of the other.
///
/// Returns `None` when there are more than [`MAX_NODES`] nodes, or when some
/// `1` lies on the diagonal or in a row or column that is no node.
pub fn graph_from_matrix(matrix_size: usize, rows: &Vec<Vec<u8>>) -> (built: Option<Graph>)
    ensures
        built is Some <==> matrix_size <= MAX_NODES && forall|a: int, b: int| #[trigger]
            marked(rows@, a, b) ==> a < matrix_size && b < matrix_size && a != b,
        built matches Some(graph) ==> {
            &&& graph_order(graph) == matrix_size
            &&& simple_graph(graph)
            &&& forall|a: int, b: int| #[trigger]
                adjacent(graph, a, b) <==> marked(rows@, a, b) || marked(rows@, b, a)
        },
{
    let edges = matrix_edges(rows);
    let built = build_graph(matrix_size, &edges);
    proof {
        if built is Some {
            assert forall|a: int, b: int| #[trigger] marked(rows@, a, b) implies a < matrix_size
                && b < matrix_size && a != b by {
                let i = choose|i: int|
                    0 <= i < edges@.len() && leads(#[trigger] edges@[i], a, b);
                assert(valid_edge(matrix_size as int, edges@[i]));
            }
            let graph = built->0;
            assert forall|a: int, b: int| #[trigger] adjacent(graph, a, b) <==> marked(rows@, a, b)
                || marked(rows@, b, a) by {
                if adjacent(graph, a, b) {
                    let i = choose|i: int| 0 <= i < edges@.len() && joins(#[trigger] edges@[i], a, b);
                    assert(marked(rows@, edges@[i].0 as int, edges@[i].1 as int));
                }
                if marked(rows@, a, b) {
                    let i = choose|i: int|
                        0 <= i < edges@.len() && leads(#[trigger] edges@[i], a, b);
                    assert(joins(edges@[i], a, b));
                }
                if marked(rows@, b, a) {
                    let i = choose|i: int|
                        0 <= i < edges@.len() && leads(#[trigger] edges@[i], b, a);
                    assert(joins(edges@[i], a, b));
                }
            }
        } else if matrix_size <= MAX_NODES {
            let i = choose|i: int|
                0 <= i < edges@.len() && !valid_edge(matrix_size as int, #[trigger] edges@[i]);
            assert(marked(rows@, edges@[i].0 as int, edges@[i].1 as int));
        }
    }
    built
}

/// Between two node ids with no neighbor of `node` from `low` up to `high`,
/// the tally does not move.
pub proof fn lemma_tally_gap(graph: Graph, node: int, marks: Seq<bool>, low: int, high: int)
    requires
        0 <= low <= high,
        forall|w: int| low <= w < high ==> !adjacent(graph, node, w),
    ensures
        tally(graph, node, marks, high) == tally(graph, node, marks, low),
    decreases high - low,
{
    if low < high {
        lemma_tally_gap(graph, node, marks, low, high - 1);
    }
}

/// A neighbor list leaves no neighbor between one of its entries and the next,
/// nor before its first entry, nor, in a simple graph, after its last.
pub proof fn lemma_frontier_gap(graph: Graph, node: int, list: Seq<usize>, done: int)
    requires
        simple_graph(graph),
        lists_neighbors(graph, node, list),
        0 <= done <= list.len(),
    ensures
        done > 0 ==> list[done - 1] < frontier(list, done, graph_order(graph)),
        forall|w: int|
            (if done == 0 {
                0
            } else {
                list[done - 1] + 1
            }) <= w < frontier(list, done, graph_order(graph)) ==> !adjacent(graph, node, w),
{
    if done > 0 {
        assert(adjacent(graph, node, list[done - 1] as int));
    }
    assert forall|w: int|
        (if done == 0 {
            0
        } else {
            list[done - 1] + 1
        }) <= w < frontier(list, done, graph_order(graph)) implies !adjacent(graph, node, w) by {
        if adjacent(graph, node, w) {
            let i = choose|i: int| 0 <= i < list.len() && #[trigger] list[i] == w;
            if i < done {
                if i < done - 1 {
                    assert(list[i] < list[done - 1]);
                }
            } else if i > done {
                assert(list[done] < list[i]);
            }
        }
    }
}

/// The degree of a node is the length of its neighbor list.
pub proof fn lemma_degree_is_length(graph: Graph, node: int, list: Seq<usize>, done: int)
    requires
        simple_graph(graph),
        lists_neighbors(graph, node, list),
        0 <= done <= list.len(),
    ensures
        tally(
            graph,
            node,
            every_node(graph_order(graph)),
            frontier(list, done, graph_order(graph)),
        ) == done,
    decreases done,
{
    let marks = every_node(graph_order(graph));
    lemma_frontier_gap(graph, node, list, done);
    if done == 0 {
        lemma_tally_gap(graph, node, marks, 0, frontier(list, done, graph_order(graph)));
    } else {
        lemma_degree_is_length(graph, node, list, done - 1);
        let reached = list[done - 1] as int;
        assert(adjacent(graph, node, reached));
        assert(tally(graph, node, marks, reached + 1) == done);
        lemma_tally_gap(graph, node, marks, reached + 1, frontier(list, done, graph_order(graph)));
    }
}

/// The static degree of every node, computed once: entry `v` is the degree of
/// node `v`. A graph without nodes gives an empty index.
pub fn get_node_degrees(graph: &Graph) -> (degrees: Vec<usize>)
    requires
        simple_graph(*graph),
    ensures
        degrees@.len() == graph_order(*graph),
        forall|v: int| 0 <= v < degrees@.len() ==> #[trigger] degrees@[v] == degree(*graph, v),
{
    let order = node_count(graph);
    let mut degrees: Vec<usize> = Vec::with_capacity(order);
    let mut node: usize = 0;
    while node < order
        invariant
            simple_graph(*graph),
            order == graph_order(*graph),
            node <= order,
            degrees@.len() == node,
            forall|v: int| 0 <= v < node ==> #[trigger] degrees@[v] == degree(*graph, v),
        decreases order - node,
    {
        let list = neighbors(graph, node);
        proof {
            lemma_degree_is_length(*graph, node as int, list@, list@.len() as int);
        }
        degrees.push(list.len());
        node += 1;
    }
    degrees
}

/// The first node of greatest degree; node `0` when the index is empty.
pub fn find_node_with_maximum_degree(node_degrees: &Vec<usize>) -> (node: usize)
    ensures
        node_degrees@.len() == 0 ==> node == 0,
        node_degrees@.len() > 0 ==> node < node_degrees@.len(),
        forall|v: int| 0 <= v < node_degrees@.len() ==> node_degrees@[v] <= node_degrees@[node as int],
        forall|v: int| 0 <= v < node ==> node_degrees@[v] < node_degrees@[node as int],
{
    let mut best: usize = 0;
    let mut node: usize = 1;
    while node < node_degrees.len()
        invariant
            1 <= node,
            best < node,
            best == 0 || best < node_degrees@.len(),
            forall|v: int|
                0 <= v < node && v < node_degrees@.len() ==> node_degrees@[v] <= node_degrees@[best as int],
            forall|v: int| 0 <= v < best ==> node_degrees@[v] < node_degrees@[best as int],
        decreases node_degrees@.len() - node,
    {
        if node_degrees[best] < node_degrees[node] {
            best = node;
        }
        node += 1;
    }
    best
}

} // verus!
