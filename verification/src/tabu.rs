//! The tabu-search refiner: starting from the greedy coloring, it removes the
//! top color class and repairs the conflicts that this causes by a local
//! search with a tabu list, for as long as the repair succeeds.

use crate::coloring::{
    below, color_count, count_colors, is_coloring, lemma_color_count, lemma_count_at_most,
    proper, total, ColorAssignment,
};
use crate::graph::{
    adjacent, frontier, graph_order, lemma_frontier_gap, lemma_tally_gap, lists_neighbors,
    neighbors, node_count, simple_graph, tally, Graph, MAX_NODES,
};
use crate::greedy::{greedy_coloring, solve_with_greedy};
use rand::rngs::StdRng;
use rand::{Rng, SeedableRng};
use vstd::prelude::*;

verus! {

/// The number of ticks after which a repair gives up.
pub const MAX_TABU_ITERATION_COUNT: u64 = 128;

/// How many ticks longer a move stays tabu for each conflict it leaves.
pub const ALPHA: u64 = 2;

/// The greatest random delay added to the time a move stays tabu.
pub const G: usize = 10;

/// A move that is forbidden for a while: `node` may not take `color` again
/// before the tick `expires`.
#[derive(Clone, Copy, Debug)]
pub struct TabuEntry {
    pub node: usize,
    pub color: usize,
    pub expires: u64,
}

/// Where the random part of a tabu entry's lifetime comes from.
pub trait JitterSource {
    /// A number from `1` to `upper`, both included.
    fn next_jitter(&mut self, upper: usize) -> (jitter: usize)
        requires
            1 <= upper,
        ensures
            1 <= jitter <= upper,
    ;
}

/// `rand::rngs::StdRng`, the pseudo-random generator behind [`SeededJitter`].
/// Nothing is known of what is inside it.
#[verifier::external_type_specification]
#[verifier::external_body]
pub struct ExStdRng(StdRng);

/// A jitter source that draws from a pseudo-random generator started from a
/// seed: the same seed gives the same draws.
pub struct SeededJitter {
    rng: StdRng,
}

/// `SeedableRng::seed_from_u64` for `StdRng`: a generator started from `seed`.
#[verifier::external_body]
fn seeded_rng(seed: u64) -> (rng: StdRng) {
    StdRng::seed_from_u64(seed)
}

/// `Rng::gen_range` on the inclusive range from `low` to `high`: some number
/// of that range. An empty range would make it panic.
#[verifier::external_body]
fn draw_between(rng: &mut StdRng, low: usize, high: usize) -> (drawn: usize)
    requires
        low <= high,
    ensures
        low <= drawn <= high,
{
    rng.gen_range(low..=high)
}

impl SeededJitter {
    /// A jitter source started from `seed`.
    pub fn new(seed: u64) -> Self {
        SeededJitter { rng: seeded_rng(seed) }
    }
}

impl JitterSource for SeededJitter {
    fn next_jitter(&mut self, upper: usize) -> (jitter: usize) {
        draw_between(&mut self.rng, 1, upper)
    }
}

/// Marks that select the nodes of color `color`.
pub open spec fn color_marks(colors: Seq<Option<usize>>, color: usize) -> Seq<bool> {
    Seq::new(colors.len(), |w: int| colors[w] == Some(color))
}

/// The conflicts that `node` would have with color `color`: the number of its
/// neighbors that have that color.
pub open spec fn conflicts_at(
    graph: Graph,
    colors: Seq<Option<usize>>,
    node: int,
    color: usize,
) -> nat {
    tally(graph, node, color_marks(colors, color), colors.len() as int)
}

/// The conflicts of `node` with the nodes below it: the number of its
/// neighbors of lower id that have its color.
pub open spec fn conflicts_below(graph: Graph, colors: Seq<Option<usize>>, node: int) -> nat {
    match colors[node] {
        Some(color) => tally(graph, node, color_marks(colors, color), node),
        None => 0,
    }
}

/// The conflicts among the nodes below `limit`, each conflicting edge counted
/// once.
pub open spec fn conflict_sum(graph: Graph, colors: Seq<Option<usize>>, limit: int) -> nat
    decreases limit,
{
    if limit <= 0 {
        0
    } else {
        conflict_sum(graph, colors, limit - 1) + conflicts_below(graph, colors, limit - 1)
    }
}

/// The total conflict count of an assignment: the number of edges whose two
/// ends have the same color.
pub open spec fn total_conflicts(graph: Graph, colors: Seq<Option<usize>>) -> nat {
    conflict_sum(graph, colors, colors.len() as int)
}

/// A tally is at most the number of nodes it ranges over.
pub proof fn lemma_tally_bound(graph: Graph, node: int, marks: Seq<bool>, limit: int)
    requires
        0 <= limit,
    ensures
        tally(graph, node, marks, limit) <= limit,
    decreases limit,
{
    if limit > 0 {
        lemma_tally_bound(graph, node, marks, limit - 1);
    }
}

/// A tally counts every marked neighbor below its limit.
pub proof fn lemma_tally_counts(graph: Graph, node: int, marks: Seq<bool>, limit: int, other: int)
    requires
        0 <= other < limit,
        other < marks.len(),
        adjacent(graph, node, other),
        marks[other],
    ensures
        tally(graph, node, marks, limit) >= 1,
    decreases limit,
{
    if other < limit - 1 {
        lemma_tally_counts(graph, node, marks, limit - 1, other);
    }
}

/// The conflicts among the nodes below a limit are at least those of any one
/// of these nodes with the nodes below it.
pub proof fn lemma_conflict_sum_bounds(
    graph: Graph,
    colors: Seq<Option<usize>>,
    limit: int,
    node: int,
)
    requires
        0 <= node < limit <= colors.len(),
    ensures
        conflicts_below(graph, colors, node) <= conflict_sum(graph, colors, limit),
    decreases limit,
{
    if node < limit - 1 {
        lemma_conflict_sum_bounds(graph, colors, limit - 1, node);
    }
}

/// A total assignment without conflicts is proper.
pub proof fn lemma_no_conflicts_is_proper(graph: Graph, colors: Seq<Option<usize>>)
    requires
        simple_graph(graph),
        total(colors),
        total_conflicts(graph, colors) == 0,
    ensures
        proper(graph, colors),
{
    assert forall|a: int, b: int|
        0 <= a < colors.len() && 0 <= b < colors.len() && #[trigger] adjacent(graph, a, b)
            && colors[a] is Some implies colors[a] != colors[b] by {
        if colors[a] == colors[b] {
            let color = colors[a]->0;
            let (upper, lower) = if b < a {
                (a, b)
            } else {
                (b, a)
            };
            assert(adjacent(graph, upper, lower));
            assert(color_marks(colors, color)[lower]);
            lemma_tally_counts(graph, upper, color_marks(colors, color), upper, lower);
            lemma_conflict_sum_bounds(graph, colors, colors.len() as int, upper);
        }
    }
}

/// Where two markings differ on one node only, their tallies differ by that
/// node alone, and only if it is a neighbor below the limit.
pub proof fn lemma_tally_mark_change(
    graph: Graph,
    node: int,
    before: Seq<bool>,
    after: Seq<bool>,
    changed: int,
    limit: int,
)
    requires
        before.len() == after.len(),
        0 <= changed < before.len(),
        0 <= limit <= before.len(),
        forall|w: int| 0 <= w < before.len() && w != changed ==> before[w] == after[w],
    ensures
        tally(graph, node, after, limit) + (if changed < limit && adjacent(graph, node, changed)
            && before[changed] {
            1int
        } else {
            0int
        }) == tally(graph, node, before, limit) + (if changed < limit && adjacent(
            graph,
            node,
            changed,
        ) && after[changed] {
            1int
        } else {
            0int
        }),
    decreases limit,
{
    if limit > 0 {
        lemma_tally_mark_change(graph, node, before, after, changed, limit - 1);
    }
}

/// Recoloring one node changes the conflicts among the nodes below a limit by
/// the conflicts that the node gains and loses with them.
pub proof fn lemma_conflict_sum_move(
    graph: Graph,
    colors: Seq<Option<usize>>,
    node: int,
    color: usize,
    limit: int,
)
    requires
        simple_graph(graph),
        total(colors),
        0 <= node < colors.len(),
        0 <= limit <= colors.len(),
    ensures
        conflict_sum(graph, colors.update(node, Some(color)), limit) + (if limit > node {
            tally(graph, node, color_marks(colors, colors[node]->0), limit)
        } else {
            0
        }) == conflict_sum(graph, colors, limit) + (if limit > node {
            tally(graph, node, color_marks(colors, color), limit)
        } else {
            0
        }),
    decreases limit,
{
    if limit > 0 {
        let moved = colors.update(node, Some(color));
        let old_color = colors[node]->0;
        let last = limit - 1;
        lemma_conflict_sum_move(graph, colors, node, color, last);
        assert(colors[last] is Some);
        if last == node {
            lemma_tally_mark_change(
                graph,
                node,
                color_marks(colors, color),
                color_marks(moved, color),
                node,
                node,
            );
            assert(!adjacent(graph, node, node));
        } else {
            let own = colors[last]->0;
            assert(moved[last] == Some(own));
            lemma_tally_mark_change(
                graph,
                last,
                color_marks(colors, own),
                color_marks(moved, own),
                node,
                last,
            );
            if last > node {
                assert(adjacent(graph, last, node) == adjacent(graph, node, last));
                assert(color_marks(colors, own)[node] == (old_color == own));
                assert(color_marks(moved, own)[node] == (color == own));
                assert(color_marks(colors, color)[last] == (own == color));
                assert(color_marks(colors, old_color)[last] == (own == old_color));
            }
        }
    }
}

/// Recoloring one node changes the total conflict count by the conflicts that
/// the node has with its new color, less those it had with its old one.
pub proof fn lemma_move_conflicts(
    graph: Graph,
    colors: Seq<Option<usize>>,
    node: int,
    color: usize,
)
    requires
        simple_graph(graph),
        total(colors),
        0 <= node < colors.len(),
    ensures
        total_conflicts(graph, colors.update(node, Some(color))) + conflicts_at(
            graph,
            colors,
            node,
            colors[node]->0,
        ) == total_conflicts(graph, colors) + conflicts_at(graph, colors, node, color),
{
    lemma_conflict_sum_move(graph, colors, node, color, colors.len() as int);
}

/// The number of neighbors of `node` below `limit` that have the color
/// `color`.
fn count_neighbors_with_color(
    graph: &Graph,
    node_index: usize,
    color: usize,
    node_colors: &ColorAssignment,
    limit: usize,
) -> (count: usize)
    requires
        simple_graph(*graph),
        node_index < graph_order(*graph),
        node_colors@.len() == graph_order(*graph),
        limit <= graph_order(*graph),
    ensures
        count == tally(*graph, node_index as int, color_marks(node_colors@, color), limit as int),
        count <= limit,
{
    let list = neighbors(graph, node_index);
    let ghost marks = color_marks(node_colors@, color);
    let ghost order = graph_order(*graph);
    let mut count: usize = 0;
    let mut at: usize = 0;
    proof {
        lemma_frontier_gap(*graph, node_index as int, list@, 0);
        lemma_tally_gap(*graph, node_index as int, marks, 0, frontier(list@, 0, order));
    }
    while at < list.len() && list[at] < limit
        invariant
            simple_graph(*graph),
            order == graph_order(*graph),
            node_colors@.len() == order,
            limit <= order,
            marks == color_marks(node_colors@, color),
            lists_neighbors(*graph, node_index as int, list@),
            at <= list@.len(),
            at > 0 ==> list@[at - 1] < limit,
            count <= at,
            count == tally(*graph, node_index as int, marks, frontier(list@, at as int, order)),
        decreases list@.len() - at,
    {
        let other = list[at];
        proof {
            assert(adjacent(*graph, node_index as int, other as int));
            lemma_frontier_gap(*graph, node_index as int, list@, at + 1);
            lemma_tally_gap(
                *graph,
                node_index as int,
                marks,
                other + 1,
                frontier(list@, at + 1, order),
            );
            assert(marks[other as int] == (node_colors@[other as int] == Some(color)));
        }
        if node_colors.get(other) == Some(color) {
            count += 1;
        }
        at += 1;
    }
    proof {
        lemma_frontier_gap(*graph, node_index as int, list@, at as int);
        let low: int = if at == 0 {
            0
        } else {
            list@[at - 1] + 1
        };
        let high = frontier(list@, at as int, order);
        lemma_tally_gap(*graph, node_index as int, marks, low, high);
        assert forall|w: int| low <= w < limit implies !adjacent(*graph, node_index as int, w) by {}
        lemma_tally_gap(*graph, node_index as int, marks, low, limit as int);
        lemma_tally_bound(*graph, node_index as int, marks, limit as int);
    }
    count
}

/// The conflicts that a node would have with a color: the number of its
/// neighbors that have that color.
pub fn count_conflicts_for_node_color(
    graph: &Graph,
    node_index: usize,
    new_color: usize,
    existing_node_colors: &ColorAssignment,
) -> (conflict_count: usize)
    requires
        simple_graph(*graph),
        node_index < graph_order(*graph),
        existing_node_colors@.len() == graph_order(*graph),
    ensures
        conflict_count == conflicts_at(
            *graph,
            existing_node_colors@,
            node_index as int,
            new_color,
        ),
        conflict_count <= graph_order(*graph),
{
    let order = node_count(graph);
    count_neighbors_with_color(graph, node_index, new_color, existing_node_colors, order)
}

/// The total conflict count of an assignment: the number of edges whose two
/// ends have the same color.
pub fn count_total_conflicts(
    graph: &Graph,
    node_colors: &ColorAssignment,
) -> (conflict_count: usize)
    requires
        simple_graph(*graph),
        node_colors@.len() == graph_order(*graph),
    ensures
        conflict_count == total_conflicts(*graph, node_colors@),
        conflict_count <= MAX_NODES * MAX_NODES,
{
    let order = node_count(graph);
    let mut conflict_count: usize = 0;
    let mut node: usize = 0;
    while node < order
        invariant
            simple_graph(*graph),
            order == graph_order(*graph),
            node_colors@.len() == order,
            node <= order,
            conflict_count == conflict_sum(*graph, node_colors@, node as int),
            conflict_count <= node * MAX_NODES,
        decreases order - node,
    {
        match node_colors.get(node) {
            Some(color) => {
                let below_node = count_neighbors_with_color(graph, node, color, node_colors, node);
                conflict_count += below_node;
            },
            None => {},
        }
        node += 1;
    }
    assert(node * MAX_NODES <= MAX_NODES * MAX_NODES) by (nonlinear_arith)
        requires
            node <= MAX_NODES,
    ;
    conflict_count
}

/// The conflict sum of an assignment over at most `MAX_NODES` nodes stays
/// within `MAX_NODES` for each node.
pub proof fn lemma_conflict_sum_limit(graph: Graph, colors: Seq<Option<usize>>, limit: int)
    requires
        0 <= limit <= colors.len() <= MAX_NODES,
    ensures
        conflict_sum(graph, colors, limit) <= limit * MAX_NODES,
    decreases limit,
{
    if limit > 0 {
        let last = limit - 1;
        lemma_conflict_sum_limit(graph, colors, last);
        match colors[last] {
            Some(color) => {
                lemma_tally_bound(graph, last, color_marks(colors, color), last);
            },
            None => {},
        }
    }
}

/// `color` is the replacement for the color of `node`: among the colors below
/// `palette`, the one with which the node has the fewest conflicts, and the
/// lowest of those.
pub open spec fn is_least_conflict_color(
    graph: Graph,
    colors: Seq<Option<usize>>,
    node: int,
    palette: usize,
    color: usize,
) -> bool {
    &&& color < palette
    &&& forall|other: usize|
        other < palette ==> conflicts_at(graph, colors, node, color) <= #[trigger] conflicts_at(
            graph,
            colors,
            node,
            other,
        )
    &&& forall|other: usize|
        other < color ==> conflicts_at(graph, colors, node, color) < #[trigger] conflicts_at(
            graph,
            colors,
            node,
            other,
        )
}

/// What the reduction does to one node: a node of the top color `top` gets its
/// replacement, any other node keeps its color.
pub open spec fn reduced_at(
    graph: Graph,
    colors: Seq<Option<usize>>,
    top: usize,
    node: int,
    reduced: Option<usize>,
) -> bool {
    if colors[node] == Some(top) {
        reduced matches Some(color) && is_least_conflict_color(graph, colors, node, top, color)
    } else {
        reduced == colors[node]
    }
}

/// `reduced` is `colors` with its top color class removed. An assignment with
/// fewer than two colors has no class that could go, and stays as it is.
pub open spec fn is_reduction(
    graph: Graph,
    colors: Seq<Option<usize>>,
    reduced: Seq<Option<usize>>,
) -> bool {
    &&& reduced.len() == colors.len()
    &&& if color_count(colors) < 2 {
        reduced == colors
    } else {
        forall|v: int|
            0 <= v < colors.len() ==> reduced_at(
                graph,
                colors,
                (color_count(colors) - 1) as usize,
                v,
                #[trigger] reduced[v],
            )
    }
}

/// The assignment that removing the top color class of `colors` gives.
pub open spec fn reduction_of(graph: Graph, colors: Seq<Option<usize>>) -> Seq<Option<usize>> {
    choose|reduced: Seq<Option<usize>>| is_reduction(graph, colors, reduced)
}

/// Removing the top color class gives one assignment only.
pub proof fn lemma_reduction_unique(
    graph: Graph,
    colors: Seq<Option<usize>>,
    first: Seq<Option<usize>>,
    second: Seq<Option<usize>>,
)
    requires
        is_reduction(graph, colors, first),
        is_reduction(graph, colors, second),
    ensures
        first == second,
{
    if color_count(colors) >= 2 {
        let top = (color_count(colors) - 1) as usize;
        assert forall|v: int| 0 <= v < first.len() implies first[v] == second[v] by {
            assert(reduced_at(graph, colors, top, v, first[v]));
            assert(reduced_at(graph, colors, top, v, second[v]));
            if colors[v] == Some(top) {
                let a = first[v]->0;
                let b = second[v]->0;
                if a < b {
                    assert(conflicts_at(graph, colors, v, b) < conflicts_at(graph, colors, v, a));
                    assert(conflicts_at(graph, colors, v, a) <= conflicts_at(graph, colors, v, b));
                }
                if b < a {
                    assert(conflicts_at(graph, colors, v, a) < conflicts_at(graph, colors, v, b));
                    assert(conflicts_at(graph, colors, v, b) <= conflicts_at(graph, colors, v, a));
                }
            }
        }
        assert(first =~= second);
    }
}

/// The color below `palette` with which a node has the fewest conflicts, the
/// lowest of them where several do.
fn find_least_conflict_color(
    graph: &Graph,
    node_index: usize,
    node_colors: &ColorAssignment,
    palette: usize,
) -> (best_new_color: usize)
    requires
        simple_graph(*graph),
        node_index < graph_order(*graph),
        node_colors@.len() == graph_order(*graph),
        1 <= palette,
    ensures
        is_least_conflict_color(*graph, node_colors@, node_index as int, palette, best_new_color),
{
    let mut best_new_color: usize = 0;
    let mut min_conflict_count = count_conflicts_for_node_color(graph, node_index, 0, node_colors);
    let mut new_color: usize = 1;
    while new_color < palette
        invariant
            simple_graph(*graph),
            node_index < graph_order(*graph),
            node_colors@.len() == graph_order(*graph),
            1 <= new_color <= palette,
            best_new_color < new_color,
            min_conflict_count == conflicts_at(
                *graph,
                node_colors@,
                node_index as int,
                best_new_color,
            ),
            forall|other: usize|
                other < new_color ==> min_conflict_count <= #[trigger] conflicts_at(
                    *graph,
                    node_colors@,
                    node_index as int,
                    other,
                ),
            forall|other: usize|
                other < best_new_color ==> min_conflict_count < #[trigger] conflicts_at(
                    *graph,
                    node_colors@,
                    node_index as int,
                    other,
                ),
        decreases palette - new_color,
    {
        let conflict_count = count_conflicts_for_node_color(
            graph,
            node_index,
            new_color,
            node_colors,
        );
        if conflict_count < min_conflict_count {
            best_new_color = new_color;
            min_conflict_count = conflict_count;
        }
        new_color += 1;
    }
    best_new_color
}

/// Removes the top color class: every node of the greatest color gets, among
/// the colors below it, the one with which it has the fewest conflicts with
/// its neighbors as they are colored in `node_colors` (ties: the lowest
/// color). The other nodes keep their colors. The result has one color fewer
/// and may have conflicts. An assignment with fewer than two colors comes
/// back as it is.
pub fn reduce_node_colors(
    graph: &Graph,
    node_colors: &ColorAssignment,
) -> (reduced_node_colors: ColorAssignment)
    requires
        simple_graph(*graph),
        node_colors@.len() == graph_order(*graph),
        total(node_colors@),
    ensures
        is_reduction(*graph, node_colors@, reduced_node_colors@),
        reduced_node_colors@ == reduction_of(*graph, node_colors@),
        total(reduced_node_colors@),
        color_count(node_colors@) >= 2 ==> color_count(reduced_node_colors@) < color_count(
            node_colors@,
        ),
{
    let palette = count_colors(node_colors);
    let order = node_colors.len();
    let mut reduced_node_colors = node_colors.clone();
    if palette < 2 {
        proof {
            lemma_reduction_unique(
                *graph,
                node_colors@,
                reduced_node_colors@,
                reduction_of(*graph, node_colors@),
            );
        }
        return reduced_node_colors;
    }
    let top = palette - 1;
    proof {
        lemma_color_count(node_colors@);
    }
    let mut node: usize = 0;
    while node < order
        invariant
            simple_graph(*graph),
            order == graph_order(*graph),
            node_colors@.len() == order,
            total(node_colors@),
            palette == color_count(node_colors@),
            top == palette - 1,
            top >= 1,
            node <= order,
            reduced_node_colors@.len() == order,
            forall|v: int|
                0 <= v < node ==> reduced_at(
                    *graph,
                    node_colors@,
                    top,
                    v,
                    #[trigger] reduced_node_colors@[v],
                ),
            forall|v: int|
                node <= v < order ==> #[trigger] reduced_node_colors@[v] == node_colors@[v],
        decreases order - node,
    {
        // Only reassign color for nodes with the current max color.
        if node_colors.get(node) == Some(top) {
            // Find new node color minimizing conflicts with neighbors.
            let best_new_color = find_least_conflict_color(graph, node, node_colors, top);
            // Update node with new color.
            reduced_node_colors.insert(node, best_new_color);
        }
        node += 1;
    }
    proof {
        assert forall|v: int| 0 <= v < order implies #[trigger] below(
            reduced_node_colors@[v],
            top as nat,
        ) && reduced_node_colors@[v] is Some by {
            assert(reduced_at(*graph, node_colors@, top, v, reduced_node_colors@[v]));
            assert(below(node_colors@[v], palette as nat));
            assert(node_colors@[v] is Some);
        }
        lemma_count_at_most(reduced_node_colors@, top as nat);
        assert(is_reduction(*graph, node_colors@, reduced_node_colors@));
        lemma_reduction_unique(
            *graph,
            node_colors@,
            reduced_node_colors@,
            reduction_of(*graph, node_colors@),
        );
    }
    reduced_node_colors
}

/// The entry forbids giving `node` the color `color`.
pub open spec fn forbids(entry: TabuEntry, node: usize, color: usize) -> bool {
    entry.node == node && entry.color == color
}

/// The move of `node` to `color` is on the tabu list.
pub open spec fn is_tabu(tabu_list: Seq<TabuEntry>, node: usize, color: usize) -> bool {
    exists|at: int| 0 <= at < tabu_list.len() && forbids(#[trigger] tabu_list[at], node, color)
}

/// A candidate move: a colored node and a color below `palette` other than
/// the one it has, the pair not being tabu.
pub open spec fn is_candidate(
    colors: Seq<Option<usize>>,
    tabu_list: Seq<TabuEntry>,
    palette: usize,
    node: usize,
    color: usize,
) -> bool {
    &&& node < colors.len()
    &&& colors[node as int] is Some
    &&& color < palette
    &&& colors[node as int] != Some(color)
    &&& !is_tabu(tabu_list, node, color)
}

/// The order in which moves are listed: by node, then by color.
pub open spec fn move_before(first: (usize, usize), second: (usize, usize)) -> bool {
    first.0 < second.0 || (first.0 == second.0 && first.1 < second.1)
}

/// Whether the move of `node` to `color` is on the tabu list.
pub fn is_move_tabu(tabu_list: &Vec<TabuEntry>, node: usize, color: usize) -> (forbidden: bool)
    ensures
        forbidden == is_tabu(tabu_list@, node, color),
{
    let mut at: usize = 0;
    while at < tabu_list.len()
        invariant
            at <= tabu_list@.len(),
            forall|i: int| 0 <= i < at ==> !forbids(#[trigger] tabu_list@[i], node, color),
        decreases tabu_list@.len() - at,
    {
        let entry = tabu_list[at];
        if entry.node == node && entry.color == color {
            return true;
        }
        at += 1;
    }
    false
}

/// The candidate moves from an assignment: every colored node paired with
/// every color below `color_count` other than its own, without the pairs on
/// the tabu list. They are listed by node and then by color.
pub fn generate_neighboring_node_colors(
    node_colors: &ColorAssignment,
    tabu_list: &Vec<TabuEntry>,
    color_count: usize,
) -> (neighboring_node_colors: Vec<(usize, usize)>)
    ensures
        forall|i: int|
            0 <= i < neighboring_node_colors@.len() ==> is_candidate(
                node_colors@,
                tabu_list@,
                color_count,
                (#[trigger] neighboring_node_colors@[i]).0,
                neighboring_node_colors@[i].1,
            ),
        forall|i: int, j: int|
            0 <= i < j < neighboring_node_colors@.len() ==> move_before(
                neighboring_node_colors@[i],
                neighboring_node_colors@[j],
            ),
        forall|node: usize, color: usize| #[trigger]
            is_candidate(node_colors@, tabu_list@, color_count, node, color) ==> exists|i: int|
                0 <= i < neighboring_node_colors@.len() && #[trigger] neighboring_node_colors@[i]
                    == (node, color),
{
    let order = node_colors.len();
    let mut neighboring_node_colors: Vec<(usize, usize)> = Vec::new();
    let mut node_index: usize = 0;
    while node_index < order
        invariant
            order == node_colors@.len(),
            node_index <= order,
            forall|i: int|
                0 <= i < neighboring_node_colors@.len() ==> is_candidate(
                    node_colors@,
                    tabu_list@,
                    color_count,
                    (#[trigger] neighboring_node_colors@[i]).0,
                    neighboring_node_colors@[i].1,
                ) && neighboring_node_colors@[i].0 < node_index,
            forall|i: int, j: int|
                0 <= i < j < neighboring_node_colors@.len() ==> move_before(
                    neighboring_node_colors@[i],
                    neighboring_node_colors@[j],
                ),
            forall|node: usize, color: usize| #[trigger]
                is_candidate(node_colors@, tabu_list@, color_count, node, color) && node
                    < node_index ==> exists|i: int|
                    0 <= i < neighboring_node_colors@.len()
                        && #[trigger] neighboring_node_colors@[i] == (node, color),
        decreases order - node_index,
    {
        let current = node_colors.get(node_index);
        if current.is_some() {
            let mut color: usize = 0;
            while color < color_count
                invariant
                    order == node_colors@.len(),
                    node_index < order,
                    current == node_colors@[node_index as int],
                    current is Some,
                    color <= color_count,
                    forall|i: int|
                        0 <= i < neighboring_node_colors@.len() ==> is_candidate(
                            node_colors@,
                            tabu_list@,
                            color_count,
                            (#[trigger] neighboring_node_colors@[i]).0,
                            neighboring_node_colors@[i].1,
                        ) && (neighboring_node_colors@[i].0 < node_index || (
                        neighboring_node_colors@[i].0 == node_index && neighboring_node_colors@[i].1
                            < color)),
                    forall|i: int, j: int|
                        0 <= i < j < neighboring_node_colors@.len() ==> move_before(
                            neighboring_node_colors@[i],
                            neighboring_node_colors@[j],
                        ),
                    forall|node: usize, other: usize| #[trigger]
                        is_candidate(node_colors@, tabu_list@, color_count, node, other) && (node
                            < node_index || (node == node_index && other < color))
                            ==> exists|i: int|
                            0 <= i < neighboring_node_colors@.len()
                                && #[trigger] neighboring_node_colors@[i] == (node, other),
                decreases color_count - color,
            {
                // Exclude the current color, and a color that is in the tabu list.
                if current != Some(color) && !is_move_tabu(tabu_list, node_index, color) {
                    let ghost before = neighboring_node_colors@;
                    neighboring_node_colors.push((node_index, color));
                    proof {
                        let last = before.len() as int;
                        assert(neighboring_node_colors@[last] == (node_index, color));
                        assert forall|i: int, j: int|
                            0 <= i < j < neighboring_node_colors@.len() implies move_before(
                            neighboring_node_colors@[i],
                            neighboring_node_colors@[j],
                        ) by {
                            assert(neighboring_node_colors@[i] == before[i]);
                            if j < last {
                                assert(neighboring_node_colors@[j] == before[j]);
                            }
                        }
                        assert forall|node: usize, other: usize| #[trigger]
                            is_candidate(node_colors@, tabu_list@, color_count, node, other) && (
                            node < node_index || (node == node_index && other < color + 1))
                            implies exists|i: int|
                            0 <= i < neighboring_node_colors@.len()
                                && #[trigger] neighboring_node_colors@[i] == (node, other) by {
                            if node == node_index && other == color {
                                assert(neighboring_node_colors@[last] == (node, other));
                            } else {
                                let i = choose|i: int|
                                    0 <= i < before.len() && #[trigger] before[i] == (node, other);
                                assert(neighboring_node_colors@[i] == before[i]);
                            }
                        }
                        assert forall|i: int|
                            0 <= i < neighboring_node_colors@.len() implies is_candidate(
                            node_colors@,
                            tabu_list@,
                            color_count,
                            (#[trigger] neighboring_node_colors@[i]).0,
                            neighboring_node_colors@[i].1,
                        ) && (neighboring_node_colors@[i].0 < node_index || (
                        neighboring_node_colors@[i].0 == node_index && neighboring_node_colors@[i].1
                            < color + 1)) by {
                            if i < last {
                                assert(neighboring_node_colors@[i] == before[i]);
                            }
                        }
                    }
                }
                color += 1;
            }
        }
        node_index += 1;
    }
    neighboring_node_colors
}

/// The total conflict count that a move leaves: that of the assignment with
/// the move's node given the move's color.
pub open spec fn resulting_conflicts(
    graph: Graph,
    colors: Seq<Option<usize>>,
    candidate: (usize, usize),
) -> nat {
    total_conflicts(graph, colors.update(candidate.0 as int, Some(candidate.1)))
}

/// The move to make: the candidate that leaves the fewest conflicts, and the
/// first of those in the list. Returns its place in the list and the conflict
/// count that it leaves, or `None` when there is no candidate.
pub fn find_best_neighbor(
    graph: &Graph,
    node_colors: &ColorAssignment,
    candidates: &Vec<(usize, usize)>,
    current_conflict_count: usize,
) -> (best: Option<(usize, usize)>)
    requires
        simple_graph(*graph),
        node_colors@.len() == graph_order(*graph),
        total(node_colors@),
        current_conflict_count == total_conflicts(*graph, node_colors@),
        forall|i: int| 0 <= i < candidates@.len() ==> (#[trigger] candidates@[i]).0 < node_colors@.len(),
    ensures
        match best {
            None => candidates@.len() == 0,
            Some((at, conflict_count)) => {
                &&& at < candidates@.len()
                &&& conflict_count == resulting_conflicts(*graph, node_colors@, candidates@[at as int])
                &&& forall|j: int|
                    0 <= j < candidates@.len() ==> conflict_count <= resulting_conflicts(
                        *graph,
                        node_colors@,
                        #[trigger] candidates@[j],
                    )
                &&& forall|j: int|
                    0 <= j < at ==> conflict_count < resulting_conflicts(
                        *graph,
                        node_colors@,
                        #[trigger] candidates@[j],
                    )
            },
        },
{
    let mut best_at: usize = 0;
    let mut best_conflict_count: usize = 0;
    let mut at: usize = 0;
    proof {
        lemma_conflict_sum_limit(*graph, node_colors@, node_colors@.len() as int);
        assert(node_colors@.len() * MAX_NODES <= MAX_NODES * MAX_NODES) by (nonlinear_arith)
            requires
                node_colors@.len() <= MAX_NODES,
        ;
    }
    while at < candidates.len()
        invariant
            simple_graph(*graph),
            node_colors@.len() == graph_order(*graph),
            total(node_colors@),
            current_conflict_count == total_conflicts(*graph, node_colors@),
            current_conflict_count <= MAX_NODES * MAX_NODES,
            forall|i: int|
                0 <= i < candidates@.len() ==> (#[trigger] candidates@[i]).0 < node_colors@.len(),
            at <= candidates@.len(),
            at > 0 ==> {
                &&& best_at < at
                &&& best_conflict_count == resulting_conflicts(
                    *graph,
                    node_colors@,
                    candidates@[best_at as int],
                )
                &&& forall|j: int|
                    0 <= j < at ==> best_conflict_count <= resulting_conflicts(
                        *graph,
                        node_colors@,
                        #[trigger] candidates@[j],
                    )
                &&& forall|j: int|
                    0 <= j < best_at ==> best_conflict_count < resulting_conflicts(
                        *graph,
                        node_colors@,
                        #[trigger] candidates@[j],
                    )
            },
        decreases candidates@.len() - at,
    {
        let node_color_tuple = candidates[at];
        let current_color = match node_colors.get(node_color_tuple.0) {
            Some(color) => color,
            None => {
                // Does not happen: every node has a color.
                assert(node_colors@[node_color_tuple.0 as int] is Some);
                0
            },
        };
        // Subtract conflicts caused by current node color to be replaced.
        let conflicts_for_current_node_color = count_conflicts_for_node_color(
            graph,
            node_color_tuple.0,
            current_color,
            node_colors,
        );
        // Add conflicts caused by new neighbor node color.
        let conflicts_for_neighbor_node_color = count_conflicts_for_node_color(
            graph,
            node_color_tuple.0,
            node_color_tuple.1,
            node_colors,
        );
        proof {
            lemma_move_conflicts(
                *graph,
                node_colors@,
                node_color_tuple.0 as int,
                node_color_tuple.1,
            );
        }
        let conflict_count = current_conflict_count + conflicts_for_neighbor_node_color
            - conflicts_for_current_node_color;
        if at == 0 || conflict_count < best_conflict_count {
            best_at = at;
            best_conflict_count = conflict_count;
        }
        at += 1;
    }
    if candidates.len() == 0 {
        None
    } else {
        Some((best_at, best_conflict_count))
    }
}

/// The tick at which a move made now stops being tabu: later by `ALPHA` ticks
/// for each conflict that the move leaves, and by the random delay.
pub fn tabu_expiration_tick(
    current_tick: u64,
    conflict_count: usize,
    jitter: usize,
) -> (expiration_tick: u64)
    requires
        current_tick + ALPHA * conflict_count + jitter <= u64::MAX,
    ensures
        expiration_tick == current_tick + ALPHA * conflict_count + jitter,
{
    current_tick + ALPHA * (conflict_count as u64) + (jitter as u64)
}

/// The tabu list without the entries that expire at the tick `tick`, the
/// others in the order they had.
pub open spec fn unexpired(tabu_list: Seq<TabuEntry>, tick: u64) -> Seq<TabuEntry>
    decreases tabu_list.len(),
{
    if tabu_list.len() == 0 {
        tabu_list
    } else if tabu_list.last().expires == tick {
        unexpired(tabu_list.drop_last(), tick)
    } else {
        unexpired(tabu_list.drop_last(), tick).push(tabu_list.last())
    }
}

/// Removes the tabu list entries that expire at the tick `current_tick`.
pub fn expire_tabu_entries(
    tabu_list: &Vec<TabuEntry>,
    current_tick: u64,
) -> (remaining: Vec<TabuEntry>)
    ensures
        remaining@ == unexpired(tabu_list@, current_tick),
{
    let mut remaining: Vec<TabuEntry> = Vec::new();
    let mut at: usize = 0;
    while at < tabu_list.len()
        invariant
            at <= tabu_list@.len(),
            remaining@ == unexpired(tabu_list@.take(at as int), current_tick),
        decreases tabu_list@.len() - at,
    {
        let entry = tabu_list[at];
        proof {
            assert(tabu_list@.take(at + 1).drop_last() == tabu_list@.take(at as int));
        }
        if entry.expires != current_tick {
            remaining.push(entry);
        }
        at += 1;
    }
    assert(tabu_list@.take(at as int) == tabu_list@);
    remaining
}

/// Some move is a candidate.
pub open spec fn has_candidate(
    colors: Seq<Option<usize>>,
    tabu_list: Seq<TabuEntry>,
    color_count: usize,
) -> bool {
    exists|node: usize, color: usize| is_candidate(colors, tabu_list, color_count, node, color)
}

/// `best` is the move that a tick makes: the candidate that leaves the fewest
/// conflicts, and among those the first by node, then by color.
pub open spec fn is_best_move(
    graph: Graph,
    colors: Seq<Option<usize>>,
    tabu_list: Seq<TabuEntry>,
    color_count: usize,
    best: (usize, usize),
) -> bool {
    &&& is_candidate(colors, tabu_list, color_count, best.0, best.1)
    &&& forall|node: usize, color: usize| #[trigger]
        is_candidate(colors, tabu_list, color_count, node, color) ==> {
            let left = resulting_conflicts(graph, colors, best);
            let other = resulting_conflicts(graph, colors, (node, color));
            left < other || (left == other && (best == (node, color) || move_before(
                best,
                (node, color),
            )))
        }
}

/// The move that a tick makes, where there is a candidate.
pub open spec fn best_move(
    graph: Graph,
    colors: Seq<Option<usize>>,
    tabu_list: Seq<TabuEntry>,
    color_count: usize,
) -> (usize, usize) {
    choose|best: (usize, usize)| is_best_move(graph, colors, tabu_list, color_count, best)
}

/// Only one move is the best one.
pub proof fn lemma_best_move_unique(
    graph: Graph,
    colors: Seq<Option<usize>>,
    tabu_list: Seq<TabuEntry>,
    color_count: usize,
    first: (usize, usize),
    second: (usize, usize),
)
    requires
        is_best_move(graph, colors, tabu_list, color_count, first),
        is_best_move(graph, colors, tabu_list, color_count, second),
    ensures
        first == second,
{
    assert(is_candidate(colors, tabu_list, color_count, first.0, first.1));
    assert(is_candidate(colors, tabu_list, color_count, second.0, second.1));
}

/// What one tick of the repair makes of an assignment and a tabu list. Where
/// there is a candidate, the best move is made and put on the tabu list, to
/// expire `ALPHA` ticks later for each conflict it leaves, and `jitter` ticks
/// later still. Then the entries that expire at the next tick leave the list.
pub open spec fn tick_outcome(
    graph: Graph,
    colors: Seq<Option<usize>>,
    tabu_list: Seq<TabuEntry>,
    color_count: usize,
    current_tick: u64,
    jitter: usize,
) -> (Seq<Option<usize>>, Seq<TabuEntry>) {
    if has_candidate(colors, tabu_list, color_count) {
        let best = best_move(graph, colors, tabu_list, color_count);
        let moved = colors.update(best.0 as int, Some(best.1));
        let entry = TabuEntry {
            node: best.0,
            color: best.1,
            expires: (current_tick + ALPHA * total_conflicts(graph, moved) + jitter) as u64,
        };
        (moved, unexpired(tabu_list.push(entry), (current_tick + 1) as u64))
    } else {
        (colors, unexpired(tabu_list, (current_tick + 1) as u64))
    }
}

/// One tick of the repair, with the random delay `jitter` already drawn. It
/// makes the candidate move that leaves the fewest conflicts (ties: the first
/// by node, then by color) and puts it on the tabu list until the tick given
/// by [`tabu_expiration_tick`]; without a candidate it makes no move. Then it
/// takes the entries that expire at the next tick off the list. Returns the
/// total conflict count that is left.
pub fn tabu_tick(
    graph: &Graph,
    node_colors: &mut ColorAssignment,
    tabu_list: &mut Vec<TabuEntry>,
    color_count: usize,
    current_tick: u64,
    current_conflict_count: usize,
    jitter: usize,
) -> (conflict_count: usize)
    requires
        simple_graph(*graph),
        old(node_colors)@.len() == graph_order(*graph),
        total(old(node_colors)@),
        current_conflict_count == total_conflicts(*graph, old(node_colors)@),
        current_tick < MAX_TABU_ITERATION_COUNT,
        1 <= jitter <= G,
    ensures
        (final(node_colors)@, final(tabu_list)@) == tick_outcome(
            *graph,
            old(node_colors)@,
            old(tabu_list)@,
            color_count,
            current_tick,
            jitter,
        ),
        conflict_count == total_conflicts(*graph, final(node_colors)@),
        final(node_colors)@.len() == old(node_colors)@.len(),
        total(final(node_colors)@),
        forall|v: int|
            0 <= v < final(node_colors)@.len() ==> #[trigger] final(node_colors)@[v] == old(
                node_colors,
            )@[v] || below(final(node_colors)@[v], color_count as nat),
{
    let ghost colors = node_colors@;
    let ghost listed = tabu_list@;
    // Generate neighbors.
    let neighboring_node_color_tuples = generate_neighboring_node_colors(
        node_colors,
        tabu_list,
        color_count,
    );
    let ghost candidates = neighboring_node_color_tuples@;
    let mut conflict_count = current_conflict_count;
    proof {
        assert forall|i: int| 0 <= i < candidates.len() implies (#[trigger] candidates[i]).0
            < colors.len() by {
            assert(is_candidate(colors, listed, color_count, candidates[i].0, candidates[i].1));
        }
    }
    // Find neighboring node color minimizing conflicts.
    match find_best_neighbor(
        graph,
        node_colors,
        &neighboring_node_color_tuples,
        current_conflict_count,
    ) {
        Some((best_at, best_neighbor_conflict_count)) => {
            let best_neighbor_node_color_tuple = neighboring_node_color_tuples[best_at];
            proof {
                let best = best_neighbor_node_color_tuple;
                assert(best == candidates[best_at as int]);
                assert(is_candidate(colors, listed, color_count, best.0, best.1));
                assert forall|node: usize, color: usize| #[trigger]
                    is_candidate(colors, listed, color_count, node, color) implies {
                    let left = resulting_conflicts(*graph, colors, best);
                    let other = resulting_conflicts(*graph, colors, (node, color));
                    left < other || (left == other && (best == (node, color) || move_before(
                        best,
                        (node, color),
                    )))
                } by {
                    let j = choose|j: int|
                        0 <= j < candidates.len() && #[trigger] candidates[j] == (node, color);
                    if j > best_at {
                        assert(move_before(candidates[best_at as int], candidates[j]));
                    }
                }
                assert(is_best_move(*graph, colors, listed, color_count, best));
                lemma_best_move_unique(
                    *graph,
                    colors,
                    listed,
                    color_count,
                    best,
                    best_move(*graph, colors, listed, color_count),
                );
                let moved = colors.update(best.0 as int, Some(best.1));
                assert forall|v: int| 0 <= v < moved.len() implies (#[trigger] moved[v]) is Some by {
                    if v != best.0 {
                        assert(colors[v] is Some);
                    }
                }
                lemma_conflict_sum_limit(*graph, moved, moved.len() as int);
                assert(moved.len() * MAX_NODES <= MAX_NODES * MAX_NODES) by (nonlinear_arith)
                    requires
                        moved.len() <= MAX_NODES,
                ;
            }
            // Update current node color combination with best neighbor node color tuple.
            node_colors.insert(
                best_neighbor_node_color_tuple.0,
                best_neighbor_node_color_tuple.1,
            );
            conflict_count = best_neighbor_conflict_count;
            // Update tabu list.
            let expiration_tick = tabu_expiration_tick(
                current_tick,
                best_neighbor_conflict_count,
                jitter,
            );
            tabu_list.push(
                TabuEntry {
                    node: best_neighbor_node_color_tuple.0,
                    color: best_neighbor_node_color_tuple.1,
                    expires: expiration_tick,
                },
            );
        },
        None => {
            proof {
                if has_candidate(colors, listed, color_count) {
                    let (node, color) = choose|node: usize, color: usize|
                        is_candidate(colors, listed, color_count, node, color);
                    assert(is_candidate(colors, listed, color_count, node, color));
                }
            }
        },
    }
    // Remove expired tabu list entries.
    let remaining = expire_tabu_entries(tabu_list, current_tick + 1);
    *tabu_list = remaining;
    conflict_count
}

/// The draws of one repair: one random delay from `1` to `G` for each of the
/// ticks that the repair may take.
pub open spec fn is_draw_sequence(draws: Seq<usize>) -> bool {
    &&& draws.len() == MAX_TABU_ITERATION_COUNT
    &&& forall|i: int| 0 <= i < draws.len() ==> 1 <= #[trigger] draws[i] <= G
}

/// What the repair makes of an assignment and a tabu list from the tick `tick`
/// on, when tick `i` draws `draws[i]`: an assignment without conflicts is the
/// result; with conflicts and all ticks used up there is none; otherwise the
/// repair goes on from what one more tick gives.
pub open spec fn repair_from(
    graph: Graph,
    colors: Seq<Option<usize>>,
    tabu_list: Seq<TabuEntry>,
    color_count: usize,
    tick: nat,
    draws: Seq<usize>,
) -> Option<Seq<Option<usize>>>
    decreases MAX_TABU_ITERATION_COUNT - tick,
{
    if total_conflicts(graph, colors) == 0 {
        Some(colors)
    } else if tick >= MAX_TABU_ITERATION_COUNT {
        None
    } else {
        let next = tick_outcome(
            graph,
            colors,
            tabu_list,
            color_count,
            tick as u64,
            draws[tick as int],
        );
        repair_from(graph, next.0, next.1, color_count, tick + 1, draws)
    }
}

/// What the repair makes of an assignment when tick `i` draws `draws[i]`.
pub open spec fn repair_outcome(
    graph: Graph,
    colors: Seq<Option<usize>>,
    color_count: usize,
    draws: Seq<usize>,
) -> Option<Seq<Option<usize>>> {
    repair_from(graph, colors, Seq::<TabuEntry>::empty(), color_count, 0, draws)
}

/// The colors of a repaired assignment, if there is one.
pub open spec fn repaired_colors(fixed: Option<ColorAssignment>) -> Option<Seq<Option<usize>>> {
    match fixed {
        Some(node_colors) => Some(node_colors@),
        None => None,
    }
}

/// `fixed` is what the repair makes of `colors` for some draws.
pub open spec fn is_repair(
    graph: Graph,
    colors: Seq<Option<usize>>,
    color_count: usize,
    fixed: Option<Seq<Option<usize>>>,
) -> bool {
    exists|draws: Seq<usize>|
        is_draw_sequence(draws) && #[trigger] repair_outcome(graph, colors, color_count, draws)
            == fixed
}

/// The first `drawn.len()` draws of `draws` are those of `drawn`.
pub open spec fn begins_with(draws: Seq<usize>, drawn: Seq<usize>) -> bool {
    &&& drawn.len() <= draws.len()
    &&& forall|i: int| 0 <= i < drawn.len() ==> #[trigger] draws[i] == drawn[i]
}

/// The draws made so far, with `1` for every tick still to come.
pub open spec fn filled_up(drawn: Seq<usize>) -> Seq<usize> {
    Seq::new(
        MAX_TABU_ITERATION_COUNT as nat,
        |i: int|
            if i < drawn.len() {
                drawn[i]
            } else {
                1usize
            },
    )
}

/// Where the best first move leaves no conflict, the repair gives the
/// assignment with that move made, whatever is drawn.
pub proof fn lemma_repair_in_one_move(
    graph: Graph,
    colors: Seq<Option<usize>>,
    color_count: usize,
    draws: Seq<usize>,
)
    requires
        total_conflicts(graph, colors) > 0,
        has_candidate(colors, Seq::<TabuEntry>::empty(), color_count),
        resulting_conflicts(
            graph,
            colors,
            best_move(graph, colors, Seq::<TabuEntry>::empty(), color_count),
        ) == 0,
    ensures
        repair_outcome(graph, colors, color_count, draws) == Some(
            colors.update(
                best_move(graph, colors, Seq::<TabuEntry>::empty(), color_count).0 as int,
                Some(best_move(graph, colors, Seq::<TabuEntry>::empty(), color_count).1),
            ),
        ),
{
    reveal_with_fuel(repair_from, 3);
}

/// Repairs the conflicts of an assignment by tabu search, with the colors
/// below `color_count` only.
///
/// An assignment without conflicts is returned at once. Otherwise every tick
/// draws a random delay from `1` to `G` and does what [`tabu_tick`] does with
/// it. The search succeeds as soon as no conflict is left and gives up, with
/// `None`, after [`MAX_TABU_ITERATION_COUNT`] ticks, and then only.
pub fn fix_conflicts_with_tabu_search<J: JitterSource>(
    graph: &Graph,
    node_colors: &ColorAssignment,
    color_count: usize,
    jitter_source: &mut J,
) -> (fixed: Option<ColorAssignment>)
    requires
        simple_graph(*graph),
        node_colors@.len() == graph_order(*graph),
        total(node_colors@),
        forall|v: int| 0 <= v < node_colors@.len() ==> #[trigger] below(
            node_colors@[v],
            color_count as nat,
        ),
    ensures
        is_repair(*graph, node_colors@, color_count, repaired_colors(fixed)),
        total_conflicts(*graph, node_colors@) == 0 ==> repaired_colors(fixed) == Some(
            node_colors@,
        ),
        total_conflicts(*graph, node_colors@) > 0 && has_candidate(
            node_colors@,
            Seq::<TabuEntry>::empty(),
            color_count,
        ) && resulting_conflicts(
            *graph,
            node_colors@,
            best_move(*graph, node_colors@, Seq::<TabuEntry>::empty(), color_count),
        ) == 0 ==> repaired_colors(fixed) == Some(
            node_colors@.update(
                best_move(*graph, node_colors@, Seq::<TabuEntry>::empty(), color_count).0 as int,
                Some(best_move(*graph, node_colors@, Seq::<TabuEntry>::empty(), color_count).1),
            ),
        ),
        fixed matches Some(repaired) ==> {
            &&& is_coloring(*graph, repaired@)
            &&& forall|v: int| 0 <= v < repaired@.len() ==> #[trigger] below(
                repaired@[v],
                color_count as nat,
            )
        },
{
    // Tabu list.
    let mut tabu_list: Vec<TabuEntry> = Vec::new();
    let mut current_tick: u64 = 0;
    // Current node color combination.
    let mut current_node_colors = node_colors.clone();
    // Count total number of conflicts in current node color combination.
    let mut current_conflict_count = count_total_conflicts(graph, &current_node_colors);
    let ghost mut drawn: Seq<usize> = Seq::empty();
    // Tabu search.
    while current_tick < MAX_TABU_ITERATION_COUNT && current_conflict_count != 0
        invariant
            simple_graph(*graph),
            current_node_colors@.len() == graph_order(*graph),
            total(current_node_colors@),
            forall|v: int| 0 <= v < current_node_colors@.len() ==> #[trigger] below(
                current_node_colors@[v],
                color_count as nat,
            ),
            current_conflict_count == total_conflicts(*graph, current_node_colors@),
            current_tick <= MAX_TABU_ITERATION_COUNT,
            drawn.len() == current_tick,
            forall|i: int| 0 <= i < drawn.len() ==> 1 <= #[trigger] drawn[i] <= G,
            forall|draws: Seq<usize>|
                begins_with(draws, drawn) ==> #[trigger] repair_outcome(
                    *graph,
                    node_colors@,
                    color_count,
                    draws,
                ) == repair_from(
                    *graph,
                    current_node_colors@,
                    tabu_list@,
                    color_count,
                    current_tick as nat,
                    draws,
                ),
        decreases MAX_TABU_ITERATION_COUNT - current_tick,
    {
        let ghost colors = current_node_colors@;
        let ghost listed = tabu_list@;
        let jitter = jitter_source.next_jitter(G);
        current_conflict_count = tabu_tick(
            graph,
            &mut current_node_colors,
            &mut tabu_list,
            color_count,
            current_tick,
            current_conflict_count,
            jitter,
        );
        proof {
            let earlier = drawn;
            drawn = drawn.push(jitter);
            assert forall|draws: Seq<usize>| begins_with(draws, drawn) implies #[trigger] repair_outcome(
                *graph,
                node_colors@,
                color_count,
                draws,
            ) == repair_from(
                *graph,
                current_node_colors@,
                tabu_list@,
                color_count,
                (current_tick + 1) as nat,
                draws,
            ) by {
                assert(begins_with(draws, earlier)) by {
                    assert forall|i: int| 0 <= i < earlier.len() implies #[trigger] draws[i]
                        == earlier[i] by {
                        assert(drawn[i] == earlier[i]);
                    }
                }
                assert(draws[current_tick as int] == drawn[current_tick as int]);
                assert(drawn[current_tick as int] == jitter);
            }
            assert forall|v: int| 0 <= v < current_node_colors@.len() implies #[trigger] below(
                current_node_colors@[v],
                color_count as nat,
            ) by {
                assert(below(colors[v], color_count as nat));
            }
        }
        current_tick += 1;
    }
    proof {
        let draws = filled_up(drawn);
        assert(is_draw_sequence(draws));
        assert(begins_with(draws, drawn));
        assert(repair_outcome(*graph, node_colors@, color_count, draws) == repair_from(
            *graph,
            current_node_colors@,
            tabu_list@,
            color_count,
            current_tick as nat,
            draws,
        ));
        if total_conflicts(*graph, node_colors@) == 0 {
            assert(repair_outcome(*graph, node_colors@, color_count, draws) == Some(
                node_colors@,
            ));
        }
        if total_conflicts(*graph, node_colors@) > 0 && has_candidate(
            node_colors@,
            Seq::<TabuEntry>::empty(),
            color_count,
        ) && resulting_conflicts(
            *graph,
            node_colors@,
            best_move(*graph, node_colors@, Seq::<TabuEntry>::empty(), color_count),
        ) == 0 {
            lemma_repair_in_one_move(*graph, node_colors@, color_count, draws);
        }
    }
    // Return the node color combination when there are no more conflicts.
    if current_conflict_count == 0 {
        proof {
            lemma_no_conflicts_is_proper(*graph, current_node_colors@);
        }
        Some(current_node_colors)
    } else {
        // The max number of iterations has been reached: tabu search failed.
        None
    }
}

/// The draws of a refinement: for each of `count` rounds, the draws of its
/// repair.
pub open spec fn is_round_sequence(rounds: Seq<Seq<usize>>, count: nat) -> bool {
    &&& rounds.len() == count
    &&& forall|r: int| 0 <= r < rounds.len() ==> is_draw_sequence(#[trigger] rounds[r])
}

/// What the refinement makes of an assignment from the round `round` on, when
/// the repair of round `r` draws `rounds[r]`: as long as there are two colors
/// or more, the top color class is removed and the conflicts are repaired;
/// the first repair that fails ends the refinement with the assignment it
/// started from.
pub open spec fn refine_from(
    graph: Graph,
    colors: Seq<Option<usize>>,
    round: nat,
    rounds: Seq<Seq<usize>>,
) -> Seq<Option<usize>>
    decreases color_count(colors),
{
    if color_count(colors) < 2 {
        colors
    } else {
        match repair_outcome(
            graph,
            reduction_of(graph, colors),
            (color_count(colors) - 1) as usize,
            rounds[round as int],
        ) {
            Some(repaired) => if color_count(repaired) < color_count(colors) {
                refine_from(graph, repaired, round + 1, rounds)
            } else {
                colors
            },
            None => colors,
        }
    }
}

/// The refinement never adds a color. It keeps the assignment it starts from
/// where that has fewer than two colors and where the repair of its reduction
/// fails; where that repair succeeds with fewer colors, it ends with fewer
/// colors than it started from.
pub proof fn lemma_refinement_outcome(
    graph: Graph,
    colors: Seq<Option<usize>>,
    round: nat,
    rounds: Seq<Seq<usize>>,
)
    ensures
        color_count(refine_from(graph, colors, round, rounds)) <= color_count(colors),
        color_count(colors) < 2 ==> refine_from(graph, colors, round, rounds) == colors,
        color_count(colors) >= 2 ==> match repair_outcome(
            graph,
            reduction_of(graph, colors),
            (color_count(colors) - 1) as usize,
            rounds[round as int],
        ) {
            Some(repaired) => color_count(repaired) < color_count(colors) ==> color_count(
                refine_from(graph, colors, round, rounds),
            ) < color_count(colors),
            None => refine_from(graph, colors, round, rounds) == colors,
        },
    decreases color_count(colors),
{
    if color_count(colors) >= 2 {
        match repair_outcome(
            graph,
            reduction_of(graph, colors),
            (color_count(colors) - 1) as usize,
            rounds[round as int],
        ) {
            Some(repaired) => {
                if color_count(repaired) < color_count(colors) {
                    lemma_refinement_outcome(graph, repaired, round + 1, rounds);
                }
            },
            None => {},
        }
    }
}

/// `refined` is what the refinement makes of the greedy coloring for some
/// draws.
pub open spec fn is_refinement(graph: Graph, refined: Seq<Option<usize>>) -> bool {
    exists|rounds: Seq<Seq<usize>>|
        is_round_sequence(rounds, graph_order(graph)) && #[trigger] refine_from(
            graph,
            greedy_coloring(graph),
            0,
            rounds,
        ) == refined
}

/// The first `played.len()` rounds of `rounds` are those of `played`.
pub open spec fn begins_with_rounds(rounds: Seq<Seq<usize>>, played: Seq<Seq<usize>>) -> bool {
    &&& played.len() <= rounds.len()
    &&& forall|r: int| 0 <= r < played.len() ==> #[trigger] rounds[r] == played[r]
}

/// The rounds played so far, filled up to `count` rounds that draw `1` at
/// every tick.
pub open spec fn filled_up_rounds(played: Seq<Seq<usize>>, count: nat) -> Seq<Seq<usize>> {
    Seq::new(
        count,
        |r: int|
            if r < played.len() {
                played[r]
            } else {
                filled_up(Seq::<usize>::empty())
            },
    )
}

/// Colors a graph by tabu search. It starts from the greedy coloring and then,
/// for as long as it succeeds, removes the top color class and repairs the
/// conflicts by tabu search, which never brings the removed color back. The
/// result is the last coloring whose repair succeeded, or the greedy coloring
/// if none did.
///
/// The result is the greedy coloring or a coloring of the graph with fewer
/// colors. Which one it is depends on what `jitter_source` draws, and on that
/// alone.
pub fn solve_with_tabu_search<J: JitterSource>(
    graph: &Graph,
    jitter_source: &mut J,
) -> (best_node_colors: ColorAssignment)
    requires
        simple_graph(*graph),
    ensures
        is_coloring(*graph, best_node_colors@),
        color_count(best_node_colors@) <= color_count(greedy_coloring(*graph)),
        best_node_colors@ == greedy_coloring(*graph) || color_count(best_node_colors@)
            < color_count(greedy_coloring(*graph)),
        is_refinement(*graph, best_node_colors@),
{
    // Get initial best solution using greedy algorithm.
    let mut best_node_colors = solve_with_greedy(graph);
    let ghost mut played: Seq<Seq<usize>> = Seq::empty();
    // Reduce colors until no longer possible.
    loop
        invariant_except_break
            played.len() + color_count(best_node_colors@) <= color_count(greedy_coloring(*graph)),
            forall|r: int| 0 <= r < played.len() ==> is_draw_sequence(#[trigger] played[r]),
            forall|rounds: Seq<Seq<usize>>|
                rounds.len() == graph_order(*graph) && begins_with_rounds(rounds, played)
                    ==> #[trigger] refine_from(*graph, greedy_coloring(*graph), 0, rounds)
                    == refine_from(*graph, best_node_colors@, played.len(), rounds),
        invariant
            simple_graph(*graph),
            color_count(greedy_coloring(*graph)) <= graph_order(*graph),
            is_coloring(*graph, best_node_colors@),
            color_count(best_node_colors@) <= color_count(greedy_coloring(*graph)),
            best_node_colors@ == greedy_coloring(*graph) || color_count(best_node_colors@)
                < color_count(greedy_coloring(*graph)),
        ensures
            is_refinement(*graph, best_node_colors@),
        decreases color_count(best_node_colors@),
    {
        let palette = count_colors(&best_node_colors);
        if palette < 2 {
            // No color class can be removed.
            proof {
                let rounds = filled_up_rounds(played, graph_order(*graph));
                assert(is_draw_sequence(filled_up(Seq::<usize>::empty())));
                assert(is_round_sequence(rounds, graph_order(*graph)));
                assert(begins_with_rounds(rounds, played));
                assert(refine_from(*graph, greedy_coloring(*graph), 0, rounds)
                    == best_node_colors@);
            }
            break ;
        }
        // Reassign smaller color with minimum conflicts to nodes with max color.
        let reduced_node_colors = reduce_node_colors(graph, &best_node_colors);
        let reduced_palette = palette - 1;
        proof {
            lemma_color_count(reduced_node_colors@);
            assert forall|v: int| 0 <= v < reduced_node_colors@.len() implies #[trigger] below(
                reduced_node_colors@[v],
                reduced_palette as nat,
            ) by {
                assert(below(reduced_node_colors@[v], color_count(reduced_node_colors@)));
            }
        }
        // Fix conflicts with tabu search until none is left or the ticks are used up.
        let tabu_search_result = fix_conflicts_with_tabu_search(
            graph,
            &reduced_node_colors,
            reduced_palette,
            jitter_source,
        );
        let ghost draws = choose|draws: Seq<usize>|
            is_draw_sequence(draws) && #[trigger] repair_outcome(
                *graph,
                reduced_node_colors@,
                reduced_palette,
                draws,
            ) == repaired_colors(tabu_search_result);
        let ghost earlier = played;
        let ghost started = best_node_colors@;
        proof {
            played = played.push(draws);
            assert forall|rounds: Seq<Seq<usize>>|
                rounds.len() == graph_order(*graph) && begins_with_rounds(
                    rounds,
                    played,
                ) implies begins_with_rounds(rounds, earlier) && rounds[earlier.len() as int]
                == draws by {
                assert forall|r: int| 0 <= r < earlier.len() implies #[trigger] rounds[r]
                    == earlier[r] by {
                    assert(played[r] == earlier[r]);
                }
                assert(played[earlier.len() as int] == draws);
            }
        }
        match tabu_search_result {
            Some(resolved_reduced_node_colors) => {
                proof {
                    lemma_count_at_most(resolved_reduced_node_colors@, reduced_palette as nat);
                    assert forall|rounds: Seq<Seq<usize>>|
                        rounds.len() == graph_order(*graph) && begins_with_rounds(
                            rounds,
                            played,
                        ) implies #[trigger] refine_from(
                        *graph,
                        greedy_coloring(*graph),
                        0,
                        rounds,
                    ) == refine_from(
                        *graph,
                        resolved_reduced_node_colors@,
                        played.len(),
                        rounds,
                    ) by {
                        assert(begins_with_rounds(rounds, earlier));
                        assert(rounds[earlier.len() as int] == draws);
                    }
                }
                best_node_colors = resolved_reduced_node_colors;
            },
            // If tabu search failed, the best solution is the previous tabu search's result.
            None => {
                proof {
                    let rounds = filled_up_rounds(played, graph_order(*graph));
                    assert(is_draw_sequence(filled_up(Seq::<usize>::empty())));
                    assert(is_round_sequence(rounds, graph_order(*graph)));
                    assert(begins_with_rounds(rounds, played));
                    assert(begins_with_rounds(rounds, earlier));
                    assert(rounds[earlier.len() as int] == draws);
                    assert(refine_from(*graph, greedy_coloring(*graph), 0, rounds)
                        == best_node_colors@);
                }
                break ;
            },
        }
    }
    best_node_colors
}

} // verus!
