//! The greedy constructor: colors the nodes one at a time, each time taking
//! the most saturated uncolored node and giving it the least color that none
//! of its neighbors has.

use crate::coloring::{
    below, color_count, get_neighbor_unique_colors, is_coloring, lemma_color_count,
    lemma_color_count_extend, lemma_uncolored, lemma_uncolored_count,
    lemma_uncolored_count_extend, neighbor_colors, proper, saturation, total, uncolored,
    uncolored_count, wears, ColorAssignment,
};
use crate::graph::{
    adjacent, degree, every_node, find_node_with_maximum_degree, get_node_degrees, graph_order,
    lists_neighbors, neighbors, node_count, simple_graph, tally, Graph, MAX_NODES,
};
use std::collections::HashSet;
use vstd::prelude::*;

verus! {

broadcast use vstd::std_specs::hash::group_hash_axioms;

/// The degree index of a graph: entry `v` is the static degree of node `v`.
pub open spec fn degree_index(graph: Graph) -> Seq<usize> {
    Seq::new(graph_order(graph), |v: int| degree(graph, v) as usize)
}

/// Node `a` is at least as good a choice as node `b`: it is more saturated, or
/// as saturated and of greater degree, or tied on both and of no greater id.
pub open spec fn preferred(
    graph: Graph,
    degrees: Seq<usize>,
    colors: Seq<Option<usize>>,
    a: int,
    b: int,
) -> bool {
    let sat_a = saturation(graph, colors, a);
    let sat_b = saturation(graph, colors, b);
    sat_a > sat_b || (sat_a == sat_b && (degrees[a] > degrees[b] || (degrees[a] == degrees[b] && a
        <= b)))
}

/// `node` is the node to color next: uncolored, and preferred to every
/// uncolored node.
pub open spec fn is_greedy_choice(
    graph: Graph,
    degrees: Seq<usize>,
    colors: Seq<Option<usize>>,
    node: int,
) -> bool {
    &&& 0 <= node < colors.len()
    &&& colors[node] is None
    &&& forall|other: int|
        0 <= other < colors.len() && colors[other] is None ==> #[trigger] preferred(
            graph,
            degrees,
            colors,
            node,
            other,
        )
}

/// `color` is the least color that no colored neighbor of `node` has.
pub open spec fn is_first_fit(
    graph: Graph,
    colors: Seq<Option<usize>>,
    node: int,
    color: usize,
) -> bool {
    &&& !neighbor_colors(graph, colors, node).contains(color)
    &&& forall|smaller: usize|
        smaller < color ==> #[trigger] neighbor_colors(graph, colors, node).contains(smaller)
}

/// The node to color next, going by the given degrees.
pub open spec fn chosen_node(graph: Graph, degrees: Seq<usize>, colors: Seq<Option<usize>>) -> int {
    choose|node: int| is_greedy_choice(graph, degrees, colors, node)
}

/// The node that the greedy rule colors next.
pub open spec fn greedy_pick(graph: Graph, colors: Seq<Option<usize>>) -> int {
    chosen_node(graph, degree_index(graph), colors)
}

/// The least color free for `node`.
pub open spec fn first_fit(graph: Graph, colors: Seq<Option<usize>>, node: int) -> usize {
    choose|color: usize| is_first_fit(graph, colors, node, color)
}

/// One step of the greedy constructor: the chosen node gets its least free
/// color. A total assignment is left as it is.
pub open spec fn greedy_step(graph: Graph, colors: Seq<Option<usize>>) -> Seq<Option<usize>> {
    if total(colors) {
        colors
    } else {
        let node = greedy_pick(graph, colors);
        colors.update(node, Some(first_fit(graph, colors, node)))
    }
}

/// The assignment after `steps` steps of the greedy constructor, starting with
/// no node colored.
pub open spec fn greedy_after(graph: Graph, steps: nat) -> Seq<Option<usize>>
    decreases steps,
{
    if steps == 0 {
        uncolored(graph_order(graph))
    } else {
        greedy_step(graph, greedy_after(graph, (steps - 1) as nat))
    }
}

/// The coloring that the greedy constructor gives a graph: one step for each
/// node.
pub open spec fn greedy_coloring(graph: Graph) -> Seq<Option<usize>> {
    greedy_after(graph, graph_order(graph))
}

/// Two nodes that are both the greedy choice are the same node.
pub proof fn lemma_greedy_choice_unique(
    graph: Graph,
    degrees: Seq<usize>,
    colors: Seq<Option<usize>>,
    a: int,
    b: int,
)
    requires
        is_greedy_choice(graph, degrees, colors, a),
        is_greedy_choice(graph, degrees, colors, b),
    ensures
        a == b,
{
    assert(preferred(graph, degrees, colors, a, b));
    assert(preferred(graph, degrees, colors, b, a));
}

/// Two colors that are both the first fit for a node are the same color.
pub proof fn lemma_first_fit_unique(
    graph: Graph,
    colors: Seq<Option<usize>>,
    node: int,
    a: usize,
    b: usize,
)
    requires
        is_first_fit(graph, colors, node, a),
        is_first_fit(graph, colors, node, b),
    ensures
        a == b,
{
    if a < b {
        assert(neighbor_colors(graph, colors, node).contains(a));
    }
    if b < a {
        assert(neighbor_colors(graph, colors, node).contains(b));
    }
}

/// Among the uncolored nodes below `limit`, one is preferred to all.
pub proof fn lemma_greedy_choice_among(
    graph: Graph,
    degrees: Seq<usize>,
    colors: Seq<Option<usize>>,
    limit: int,
) -> (best: int)
    requires
        0 <= limit <= colors.len(),
        exists|v: int| 0 <= v < limit && (#[trigger] colors[v]) is None,
    ensures
        0 <= best < limit,
        colors[best] is None,
        forall|other: int|
            0 <= other < limit && colors[other] is None ==> #[trigger] preferred(
                graph,
                degrees,
                colors,
                best,
                other,
            ),
    decreases limit,
{
    let last = limit - 1;
    if exists|v: int| 0 <= v < last && (#[trigger] colors[v]) is None {
        let earlier = lemma_greedy_choice_among(graph, degrees, colors, last);
        if colors[last] is None && !preferred(graph, degrees, colors, earlier, last) {
            assert forall|other: int|
                0 <= other < limit && colors[other] is None implies #[trigger] preferred(
                graph,
                degrees,
                colors,
                last,
                other,
            ) by {
                if other < last {
                    assert(preferred(graph, degrees, colors, earlier, other));
                }
            }
            last
        } else {
            earlier
        }
    } else {
        let v = choose|v: int| 0 <= v < limit && (#[trigger] colors[v]) is None;
        assert(v == last);
        last
    }
}

/// An assignment that is not total has a greedy choice.
pub proof fn lemma_greedy_choice_exists(
    graph: Graph,
    degrees: Seq<usize>,
    colors: Seq<Option<usize>>,
)
    requires
        !total(colors),
    ensures
        is_greedy_choice(graph, degrees, colors, chosen_node(graph, degrees, colors)),
{
    let best = lemma_greedy_choice_among(graph, degrees, colors, colors.len() as int);
    assert(is_greedy_choice(graph, degrees, colors, best));
}

/// From `start` on, some color is free for `node`, when all colors below
/// `start` are taken by its neighbors.
pub proof fn lemma_first_fit_from(
    graph: Graph,
    colors: Seq<Option<usize>>,
    node: int,
    start: usize,
) -> (color: usize)
    requires
        color_count(colors) <= usize::MAX,
        forall|smaller: usize|
            smaller < start ==> #[trigger] neighbor_colors(graph, colors, node).contains(smaller),
    ensures
        is_first_fit(graph, colors, node, color),
        color <= color_count(colors),
    decreases color_count(colors) - start,
{
    lemma_neighbor_colors_below(graph, colors, node);
    if start > 0 {
        assert(neighbor_colors(graph, colors, node).contains((start - 1) as usize));
    }
    if neighbor_colors(graph, colors, node).contains(start) {
        lemma_first_fit_from(graph, colors, node, (start + 1) as usize)
    } else {
        start
    }
}

/// Every node has a first fit, and it is at most the color count, as long as
/// the color count fits a `usize`.
pub proof fn lemma_first_fit_exists(graph: Graph, colors: Seq<Option<usize>>, node: int)
    requires
        color_count(colors) <= usize::MAX,
    ensures
        is_first_fit(graph, colors, node, first_fit(graph, colors, node)),
        first_fit(graph, colors, node) <= color_count(colors),
{
    let color = lemma_first_fit_from(graph, colors, node, 0);
    lemma_first_fit_unique(graph, colors, node, color, first_fit(graph, colors, node));
}

/// After `steps` steps the greedy constructor has colored `steps` nodes,
/// properly and with at most `steps` colors.
pub proof fn lemma_greedy_after(graph: Graph, steps: nat)
    requires
        simple_graph(graph),
        steps <= graph_order(graph),
    ensures
        greedy_after(graph, steps).len() == graph_order(graph),
        proper(graph, greedy_after(graph, steps)),
        color_count(greedy_after(graph, steps)) <= steps,
        uncolored_count(greedy_after(graph, steps)) == graph_order(graph) - steps,
    decreases steps,
{
    if steps == 0 {
        lemma_uncolored(graph_order(graph));
    } else {
        let before = greedy_after(graph, (steps - 1) as nat);
        lemma_greedy_after(graph, (steps - 1) as nat);
        lemma_uncolored_count(before);
        lemma_greedy_choice_exists(graph, degree_index(graph), before);
        let node = greedy_pick(graph, before);
        lemma_first_fit_exists(graph, before, node);
        let color = first_fit(graph, before, node);
        lemma_first_fit_keeps_proper(graph, before, node, color);
        lemma_color_count_extend(before, node, color);
        lemma_uncolored_count_extend(before, node, color);
    }
}

/// The greedy coloring of a graph is a coloring of it, with at most as many
/// colors as the graph has nodes.
pub proof fn lemma_greedy_coloring(graph: Graph)
    requires
        simple_graph(graph),
    ensures
        is_coloring(graph, greedy_coloring(graph)),
        color_count(greedy_coloring(graph)) <= graph_order(graph),
{
    lemma_greedy_after(graph, graph_order(graph));
    lemma_uncolored_count(greedy_coloring(graph));
}

/// Two graphs with the same nodes and the same edges.
pub open spec fn same_graph(first: Graph, second: Graph) -> bool {
    &&& graph_order(first) == graph_order(second)
    &&& forall|a: int, b: int| adjacent(first, a, b) == adjacent(second, a, b)
}

/// Graphs with the same nodes and edges give the same tallies.
pub proof fn lemma_same_graph_tally(
    first: Graph,
    second: Graph,
    node: int,
    marks: Seq<bool>,
    limit: int,
)
    requires
        same_graph(first, second),
    ensures
        tally(first, node, marks, limit) == tally(second, node, marks, limit),
    decreases limit,
{
    if limit > 0 {
        lemma_same_graph_tally(first, second, node, marks, limit - 1);
    }
}

/// Graphs with the same nodes and edges give every assignment the same
/// greedy choice and every node the same first fit.
pub proof fn lemma_same_graph_step(first: Graph, second: Graph, colors: Seq<Option<usize>>)
    requires
        same_graph(first, second),
        color_count(colors) <= usize::MAX,
    ensures
        greedy_step(first, colors) == greedy_step(second, colors),
{
    assert(degree_index(first) =~= degree_index(second)) by {
        assert forall|v: int| 0 <= v < graph_order(first) implies degree(first, v) == degree(
            second,
            v,
        ) by {
            lemma_same_graph_tally(
                first,
                second,
                v,
                every_node(graph_order(first)),
                graph_order(first) as int,
            );
        }
    }
    let degrees = degree_index(first);
    assert forall|v: int| neighbor_colors(first, colors, v) == neighbor_colors(second, colors, v) by {
        assert forall|color: usize|
            neighbor_colors(first, colors, v).contains(color) == neighbor_colors(
                second,
                colors,
                v,
            ).contains(color) by {
            if neighbor_colors(first, colors, v).contains(color) {
                let other = choose|other: int| wears(first, colors, v, other, color);
                assert(wears(second, colors, v, other, color));
            }
            if neighbor_colors(second, colors, v).contains(color) {
                let other = choose|other: int| wears(second, colors, v, other, color);
                assert(wears(first, colors, v, other, color));
            }
        }
        assert(neighbor_colors(first, colors, v) =~= neighbor_colors(second, colors, v));
    }
    if !total(colors) {
        lemma_greedy_choice_exists(first, degrees, colors);
        lemma_greedy_choice_exists(second, degrees, colors);
        let node = chosen_node(first, degrees, colors);
        let twin = chosen_node(second, degrees, colors);
        assert(is_greedy_choice(first, degrees, colors, twin)) by {
            assert forall|other: int|
                0 <= other < colors.len() && colors[other] is None implies #[trigger] preferred(
                first,
                degrees,
                colors,
                twin,
                other,
            ) by {
                assert(preferred(second, degrees, colors, twin, other));
            }
        }
        lemma_greedy_choice_unique(first, degrees, colors, node, twin);
        lemma_first_fit_exists(first, colors, node);
        lemma_first_fit_exists(second, colors, node);
        lemma_first_fit_unique(
            first,
            colors,
            node,
            first_fit(first, colors, node),
            first_fit(second, colors, node),
        );
    }
}

/// The greedy coloring depends on the nodes and edges of the graph alone:
/// graphs with the same nodes and edges have the same greedy coloring, after
/// every number of steps too.
pub proof fn lemma_same_graph_greedy(first: Graph, second: Graph, steps: nat)
    requires
        simple_graph(first),
        same_graph(first, second),
        steps <= graph_order(first),
    ensures
        greedy_after(first, steps) == greedy_after(second, steps),
    decreases steps,
{
    if steps > 0 {
        lemma_same_graph_greedy(first, second, (steps - 1) as nat);
        lemma_greedy_after(first, (steps - 1) as nat);
        lemma_same_graph_step(first, second, greedy_after(first, (steps - 1) as nat));
    }
}

/// The greedy constructor colors two graphs alike whenever they have the same
/// nodes and the same edges: its result is determined by these alone.
pub proof fn lemma_greedy_deterministic(first: Graph, second: Graph)
    requires
        simple_graph(first),
        same_graph(first, second),
    ensures
        greedy_coloring(first) == greedy_coloring(second),
{
    lemma_same_graph_greedy(first, second, graph_order(first));
}

/// Node `a` is at least as good a choice as node `b`, going by the given
/// saturation degrees.
pub open spec fn preferred_by(saturations: Seq<nat>, degrees: Seq<usize>, a: int, b: int) -> bool {
    saturations[a] > saturations[b] || (saturations[a] == saturations[b] && (degrees[a]
        > degrees[b] || (degrees[a] == degrees[b] && a <= b)))
}

/// `node` is uncolored and, by the given saturation degrees, preferred to
/// every uncolored node.
pub open spec fn is_choice_by(
    saturations: Seq<nat>,
    degrees: Seq<usize>,
    colors: Seq<Option<usize>>,
    node: int,
) -> bool {
    &&& 0 <= node < colors.len()
    &&& colors[node] is None
    &&& forall|other: int|
        0 <= other < colors.len() && colors[other] is None ==> #[trigger] preferred_by(
            saturations,
            degrees,
            node,
            other,
        )
}

/// The sizes of the sets of a list.
pub open spec fn set_sizes(sets: Seq<HashSet<usize>>) -> Seq<nat> {
    Seq::new(sets.len(), |v: int| sets[v]@.len())
}

/// The list holds, for every node, the set of its neighbors' colors.
pub open spec fn holds_neighbor_colors(
    graph: Graph,
    colors: Seq<Option<usize>>,
    sets: Seq<HashSet<usize>>,
) -> bool {
    &&& sets.len() == colors.len()
    &&& forall|v: int|
        0 <= v < sets.len() ==> (#[trigger] sets[v])@ == neighbor_colors(graph, colors, v)
}

/// A choice by the sizes of the neighbors' color sets is the greedy choice.
pub proof fn lemma_choice_by_neighbor_colors(
    graph: Graph,
    degrees: Seq<usize>,
    colors: Seq<Option<usize>>,
    sets: Seq<HashSet<usize>>,
    node: int,
)
    requires
        holds_neighbor_colors(graph, colors, sets),
        is_choice_by(set_sizes(sets), degrees, colors, node),
    ensures
        is_greedy_choice(graph, degrees, colors, node),
{
    assert(sets[node]@ == neighbor_colors(graph, colors, node));
    assert forall|other: int|
        0 <= other < colors.len() && colors[other] is None implies #[trigger] preferred(
        graph,
        degrees,
        colors,
        node,
        other,
    ) by {
        assert(preferred_by(set_sizes(sets), degrees, node, other));
        assert(sets[other]@ == neighbor_colors(graph, colors, other));
    }
}

/// When a node that had no color gets one, that color joins the neighbor
/// colors of its neighbors, and no other node's neighbor colors change.
pub proof fn lemma_neighbor_colors_extend(
    graph: Graph,
    colors: Seq<Option<usize>>,
    node: int,
    color: usize,
    of: int,
)
    requires
        0 <= node < colors.len(),
        colors[node] is None,
    ensures
        neighbor_colors(graph, colors.update(node, Some(color)), of) == if adjacent(
            graph,
            of,
            node,
        ) {
            neighbor_colors(graph, colors, of).insert(color)
        } else {
            neighbor_colors(graph, colors, of)
        },
{
    let extended = colors.update(node, Some(color));
    let before = neighbor_colors(graph, colors, of);
    let after = neighbor_colors(graph, extended, of);
    let wanted = if adjacent(graph, of, node) {
        before.insert(color)
    } else {
        before
    };
    assert forall|c: usize| after.contains(c) == wanted.contains(c) by {
        if after.contains(c) {
            let other = choose|other: int| wears(graph, extended, of, other, c);
            if other != node {
                assert(wears(graph, colors, of, other, c));
            }
        }
        if before.contains(c) {
            let other = choose|other: int| wears(graph, colors, of, other, c);
            assert(wears(graph, extended, of, other, c));
        }
        if adjacent(graph, of, node) && c == color {
            assert(wears(graph, extended, of, node, c));
        }
    }
    assert(after =~= wanted);
}

/// The uncolored node to color next, given the set of neighbor colors of
/// every node: the one with the largest set, among those the one of greatest
/// static degree, among those the one of lowest id.
pub fn find_most_saturated_node(
    node_degrees: &Vec<usize>,
    node_colors: &ColorAssignment,
    neighbor_sets: &Vec<HashSet<usize>>,
) -> (node: usize)
    requires
        node_degrees@.len() == node_colors@.len(),
        neighbor_sets@.len() == node_colors@.len(),
        !total(node_colors@),
    ensures
        is_choice_by(set_sizes(neighbor_sets@), node_degrees@, node_colors@, node as int),
{
    let order = node_colors.len();
    let ghost saturations = set_sizes(neighbor_sets@);
    let mut best: usize = 0;
    let mut best_saturation: usize = 0;
    let mut found = false;
    let mut node: usize = 0;
    while node < order
        invariant
            order == node_colors@.len(),
            node_degrees@.len() == order,
            neighbor_sets@.len() == order,
            saturations == set_sizes(neighbor_sets@),
            node <= order,
            !found ==> forall|v: int| 0 <= v < node ==> (#[trigger] node_colors@[v]) is Some,
            found ==> {
                &&& best < node
                &&& node_colors@[best as int] is None
                &&& best_saturation == saturations[best as int]
                &&& forall|other: int|
                    0 <= other < node && node_colors@[other] is None ==> #[trigger] preferred_by(
                        saturations,
                        node_degrees@,
                        best as int,
                        other,
                    )
            },
        decreases order - node,
    {
        if node_colors.get(node).is_none() {
            let saturation = neighbor_sets[node].len();
            let better = !found || saturation > best_saturation || (saturation == best_saturation
                && node_degrees[node] > node_degrees[best]);
            if better {
                proof {
                    assert forall|other: int|
                        0 <= other < node + 1 && node_colors@[other] is None implies #[trigger] preferred_by(
                        saturations,
                        node_degrees@,
                        node as int,
                        other,
                    ) by {
                        if other < node {
                            assert(preferred_by(saturations, node_degrees@, best as int, other));
                        }
                    }
                }
                best = node;
                best_saturation = saturation;
                found = true;
            }
        }
        node += 1;
    }
    best
}

/// For every node, the set of distinct colors among its colored neighbors.
fn collect_neighbor_colors(
    graph: &Graph,
    node_colors: &ColorAssignment,
) -> (neighbor_sets: Vec<HashSet<usize>>)
    requires
        node_colors@.len() <= MAX_NODES,
    ensures
        holds_neighbor_colors(*graph, node_colors@, neighbor_sets@),
{
    let order = node_colors.len();
    let mut neighbor_sets: Vec<HashSet<usize>> = Vec::with_capacity(order);
    let mut node: usize = 0;
    while node < order
        invariant
            order == node_colors@.len(),
            order <= MAX_NODES,
            node <= order,
            neighbor_sets@.len() == node,
            forall|v: int|
                0 <= v < node ==> (#[trigger] neighbor_sets@[v])@ == neighbor_colors(
                    *graph,
                    node_colors@,
                    v,
                ),
        decreases order - node,
    {
        neighbor_sets.push(get_neighbor_unique_colors(graph, node, node_colors));
        node += 1;
    }
    neighbor_sets
}

/// The uncolored node to color next: the one of greatest saturation degree,
/// among those the one of greatest static degree, among those the one of
/// lowest id.
pub fn find_node_with_greedy_choice(
    graph: &Graph,
    node_degrees: &Vec<usize>,
    node_colors: &ColorAssignment,
) -> (node: usize)
    requires
        node_colors@.len() <= MAX_NODES,
        node_degrees@.len() == node_colors@.len(),
        !total(node_colors@),
    ensures
        is_greedy_choice(*graph, node_degrees@, node_colors@, node as int),
{
    let neighbor_sets = collect_neighbor_colors(graph, node_colors);
    let node = find_most_saturated_node(node_degrees, node_colors, &neighbor_sets);
    proof {
        lemma_choice_by_neighbor_colors(
            *graph,
            node_degrees@,
            node_colors@,
            neighbor_sets@,
            node as int,
        );
    }
    node
}

/// The least color id, up to `color_count`, that is not in `taken`; `None`
/// when all of them are.
pub fn smallest_color_outside(
    taken: &HashSet<usize>,
    color_count: usize,
) -> (smallest: Option<usize>)
    ensures
        match smallest {
            Some(color) => {
                &&& color <= color_count
                &&& !taken@.contains(color)
                &&& forall|smaller: usize| smaller < color ==> #[trigger] taken@.contains(smaller)
            },
            None => forall|color: usize| color <= color_count ==> #[trigger] taken@.contains(color),
        },
{
    let mut color: usize = 0;
    loop
        invariant
            color <= color_count,
            forall|smaller: usize| smaller < color ==> #[trigger] taken@.contains(smaller),
        decreases color_count - color,
    {
        if !taken.contains(&color) {
            return Some(color);
        }
        if color == color_count {
            return None;
        }
        color += 1;
    }
}

/// The least color id, up to `color_count`, that no colored neighbor of the
/// node has; `None` when the neighbors have all of them.
pub fn get_smallest_color_for_node(
    graph: &Graph,
    node_index: usize,
    node_colors: &ColorAssignment,
    color_count: usize,
) -> (smallest: Option<usize>)
    requires
        node_index <= MAX_NODES,
    ensures
        match smallest {
            Some(color) => color <= color_count && is_first_fit(
                *graph,
                node_colors@,
                node_index as int,
                color,
            ),
            None => forall|color: usize|
                color <= color_count ==> #[trigger] neighbor_colors(
                    *graph,
                    node_colors@,
                    node_index as int,
                ).contains(color),
        },
{
    let neighbor_colors = get_neighbor_unique_colors(graph, node_index, node_colors);
    smallest_color_outside(&neighbor_colors, color_count)
}

/// The `at` first entries of a neighbor list hold the node `of`.
pub open spec fn listed_among(list: Seq<usize>, at: int, of: int) -> bool {
    exists|j: int| 0 <= j < at && j < list.len() && #[trigger] list[j] == of
}

/// Brings the sets of neighbor colors up to date after `node_index`, which had
/// no color in `before`, has been given the color `color`: the color joins the
/// set of each of its neighbors.
fn note_neighbor_color(
    graph: &Graph,
    neighbor_sets: &mut Vec<HashSet<usize>>,
    node_index: usize,
    color: usize,
    Ghost(before): Ghost<Seq<Option<usize>>>,
)
    requires
        simple_graph(*graph),
        node_index < graph_order(*graph),
        before.len() == graph_order(*graph),
        before[node_index as int] is None,
        holds_neighbor_colors(*graph, before, old(neighbor_sets)@),
    ensures
        holds_neighbor_colors(
            *graph,
            before.update(node_index as int, Some(color)),
            final(neighbor_sets)@,
        ),
{
    let list = neighbors(graph, node_index);
    let ghost order = graph_order(*graph);
    let mut at: usize = 0;
    while at < list.len()
        invariant
            simple_graph(*graph),
            order == graph_order(*graph),
            node_index < order,
            lists_neighbors(*graph, node_index as int, list@),
            at <= list@.len(),
            neighbor_sets@.len() == order,
            before.len() == order,
            forall|v: int|
                0 <= v < order ==> (#[trigger] neighbor_sets@[v])@ == if listed_among(
                    list@,
                    at as int,
                    v,
                ) {
                    neighbor_colors(*graph, before, v).insert(color)
                } else {
                    neighbor_colors(*graph, before, v)
                },
        decreases list@.len() - at,
    {
        let neighbor = list[at];
        let ghost earlier = neighbor_sets@;
        proof {
            assert(adjacent(*graph, node_index as int, neighbor as int));
            assert(!listed_among(list@, at as int, neighbor as int)) by {
                if listed_among(list@, at as int, neighbor as int) {
                    let j = choose|j: int|
                        0 <= j < at && j < list@.len() && #[trigger] list@[j] == neighbor;
                    assert(list@[j] < list@[at as int]);
                }
            }
        }
        neighbor_sets[neighbor].insert(color);
        proof {
            assert forall|v: int| 0 <= v < order implies (#[trigger] neighbor_sets@[v])@
                == if listed_among(list@, at + 1, v) {
                neighbor_colors(*graph, before, v).insert(color)
            } else {
                neighbor_colors(*graph, before, v)
            } by {
                if v == neighbor {
                    assert(list@[at as int] == v);
                    assert(listed_among(list@, at + 1, v));
                } else {
                    assert(neighbor_sets@[v] == earlier[v]);
                    if listed_among(list@, at as int, v) {
                        let j = choose|j: int|
                            0 <= j < at && j < list@.len() && #[trigger] list@[j] == v;
                        assert(list@[j] == v);
                        assert(listed_among(list@, at + 1, v));
                    }
                    if listed_among(list@, at + 1, v) {
                        let j = choose|j: int|
                            0 <= j < at + 1 && j < list@.len() && #[trigger] list@[j] == v;
                        assert(j < at);
                        assert(listed_among(list@, at as int, v));
                    }
                }
            }
        }
        at += 1;
    }
    proof {
        let after = before.update(node_index as int, Some(color));
        assert forall|v: int| 0 <= v < neighbor_sets@.len() implies (#[trigger] neighbor_sets@[v])@
            == neighbor_colors(*graph, after, v) by {
            lemma_neighbor_colors_extend(*graph, before, node_index as int, color, v);
            if adjacent(*graph, v, node_index as int) {
                assert(adjacent(*graph, node_index as int, v));
                let j = choose|j: int| 0 <= j < list@.len() && #[trigger] list@[j] == v;
                assert(listed_among(list@, at as int, v));
            }
            if listed_among(list@, at as int, v) {
                let j = choose|j: int| 0 <= j < at && j < list@.len() && #[trigger] list@[j] == v;
                assert(adjacent(*graph, node_index as int, list@[j] as int));
            }
        }
    }
}

/// For each of `order` nodes, an empty set.
fn empty_neighbor_colors(order: usize) -> (neighbor_sets: Vec<HashSet<usize>>)
    ensures
        neighbor_sets@.len() == order,
        forall|v: int| 0 <= v < order ==> (#[trigger] neighbor_sets@[v])@ == Set::<usize>::empty(),
{
    let mut neighbor_sets: Vec<HashSet<usize>> = Vec::with_capacity(order);
    let mut node: usize = 0;
    while node < order
        invariant
            node <= order,
            neighbor_sets@.len() == node,
            forall|v: int|
                0 <= v < node ==> (#[trigger] neighbor_sets@[v])@ == Set::<usize>::empty(),
        decreases order - node,
    {
        neighbor_sets.push(HashSet::new());
        node += 1;
    }
    neighbor_sets
}

/// With no node colored, no node has a neighbor color.
pub proof fn lemma_no_neighbor_colors(graph: Graph)
    ensures
        forall|v: int| #[trigger]
            neighbor_colors(graph, uncolored(graph_order(graph)), v) == Set::<usize>::empty(),
{
    let colors = uncolored(graph_order(graph));
    assert forall|v: int| #[trigger] neighbor_colors(graph, colors, v) == Set::<usize>::empty() by {
        assert forall|color: usize| !neighbor_colors(graph, colors, v).contains(color) by {
            if neighbor_colors(graph, colors, v).contains(color) {
                let other = choose|other: int| wears(graph, colors, v, other, color);
                assert(colors[other] is None);
            }
        }
        assert(neighbor_colors(graph, colors, v) =~= Set::<usize>::empty());
    }
}

/// With no node colored yet, the first node of greatest degree is the greedy
/// choice, and its first fit is color `0`.
pub proof fn lemma_greedy_seed(graph: Graph, degrees: Seq<usize>, node: int)
    requires
        degrees.len() == graph_order(graph),
        0 <= node < degrees.len(),
        forall|v: int| 0 <= v < degrees.len() ==> degrees[v] <= degrees[node],
        forall|v: int| 0 <= v < node ==> degrees[v] < degrees[node],
    ensures
        is_greedy_choice(graph, degrees, uncolored(graph_order(graph)), node),
        is_first_fit(graph, uncolored(graph_order(graph)), node, 0),
{
    let colors = uncolored(graph_order(graph));
    lemma_no_neighbor_colors(graph);
    assert forall|other: int| 0 <= other < colors.len() && colors[other] is None implies #[trigger] preferred(
        graph,
        degrees,
        colors,
        node,
        other,
    ) by {
        assert(neighbor_colors(graph, colors, node) == Set::<usize>::empty());
        assert(neighbor_colors(graph, colors, other) == Set::<usize>::empty());
    }
}

/// Giving the chosen node its first fit keeps an assignment proper.
pub proof fn lemma_first_fit_keeps_proper(
    graph: Graph,
    colors: Seq<Option<usize>>,
    node: int,
    color: usize,
)
    requires
        proper(graph, colors),
        0 <= node < colors.len(),
        colors[node] is None,
        !neighbor_colors(graph, colors, node).contains(color),
        !adjacent(graph, node, node),
    ensures
        proper(graph, colors.update(node, Some(color))),
{
    let extended = colors.update(node, Some(color));
    assert forall|a: int, b: int|
        0 <= a < extended.len() && 0 <= b < extended.len() && #[trigger] adjacent(graph, a, b)
            && extended[a] is Some implies extended[a] != extended[b] by {
        if a == node && b != node {
            if extended[b] == Some(color) {
                assert(wears(graph, colors, node, b, color));
            }
        } else if b == node && a != node {
            if extended[a] == Some(color) {
                assert(adjacent(graph, node, a));
                assert(wears(graph, colors, node, a, color));
            }
        } else if a != node && b != node {
            assert(colors[a] != colors[b]);
        }
    }
}

/// The colors of a node's neighbors all lie below the color count.
pub proof fn lemma_neighbor_colors_below(graph: Graph, colors: Seq<Option<usize>>, node: int)
    ensures
        forall|color: usize| #[trigger]
            neighbor_colors(graph, colors, node).contains(color) ==> color < color_count(colors),
{
    lemma_color_count(colors);
    assert forall|color: usize| #[trigger]
        neighbor_colors(graph, colors, node).contains(color) implies color < color_count(colors) by {
        let other = choose|other: int| wears(graph, colors, node, other, color);
        assert(below(colors[other], color_count(colors)));
    }
}

/// Colors a graph greedily. Every step takes the uncolored node of greatest
/// saturation degree (ties: greatest static degree, then lowest id) and gives
/// it the least color that none of its neighbors has. The first step thus
/// colors the first node of greatest degree with color `0`. The set of
/// neighbor colors of every node is kept up to date from step to step, so
/// that no saturation degree is computed anew.
///
/// The result is a coloring of the graph with at most as many colors as
/// nodes, and it is the same for the same graph every time.
pub fn solve_with_greedy(graph: &Graph) -> (node_colors: ColorAssignment)
    requires
        simple_graph(*graph),
    ensures
        is_coloring(*graph, node_colors@),
        color_count(node_colors@) <= graph_order(*graph),
        node_colors@ == greedy_coloring(*graph),
{
    let order = node_count(graph);
    let node_degrees = get_node_degrees(graph);
    let mut node_colors = ColorAssignment::new(order);
    let mut neighbor_sets = empty_neighbor_colors(order);
    proof {
        lemma_uncolored(order as nat);
        assert(node_degrees@ =~= degree_index(*graph));
    }
    if order == 0 {
        return node_colors;
    }
    // Color the starting node.
    let starting_node_index = find_node_with_maximum_degree(&node_degrees);
    proof {
        lemma_greedy_seed(*graph, node_degrees@, starting_node_index as int);
        lemma_greedy_choice_unique(
            *graph,
            degree_index(*graph),
            node_colors@,
            starting_node_index as int,
            greedy_pick(*graph, node_colors@),
        );
        lemma_first_fit_unique(
            *graph,
            node_colors@,
            starting_node_index as int,
            0,
            first_fit(*graph, node_colors@, starting_node_index as int),
        );
        lemma_first_fit_keeps_proper(*graph, node_colors@, starting_node_index as int, 0);
        lemma_color_count_extend(node_colors@, starting_node_index as int, 0);
        lemma_uncolored_count_extend(node_colors@, starting_node_index as int, 0);
        lemma_uncolored_count(node_colors@);
        assert(greedy_after(*graph, 0) == node_colors@);
        lemma_no_neighbor_colors(*graph);
    }
    let ghost before = node_colors@;
    node_colors.insert(starting_node_index, 0);
    note_neighbor_color(graph, &mut neighbor_sets, starting_node_index, 0, Ghost(before));
    let mut palette: usize = 1;
    let mut colored: usize = 1;
    // Color all nodes.
    while colored < order
        invariant
            simple_graph(*graph),
            order == graph_order(*graph),
            node_degrees@ == degree_index(*graph),
            node_colors@.len() == order,
            1 <= colored <= order,
            node_colors@ == greedy_after(*graph, colored as nat),
            uncolored_count(node_colors@) == order - colored,
            proper(*graph, node_colors@),
            palette == color_count(node_colors@),
            palette <= colored,
            holds_neighbor_colors(*graph, node_colors@, neighbor_sets@),
        decreases order - colored,
    {
        proof {
            lemma_uncolored_count(node_colors@);
        }
        // Get next uncolored node to color.
        let current_node_index = find_most_saturated_node(
            &node_degrees,
            &node_colors,
            &neighbor_sets,
        );
        proof {
            lemma_choice_by_neighbor_colors(
                *graph,
                node_degrees@,
                node_colors@,
                neighbor_sets@,
                current_node_index as int,
            );
            lemma_neighbor_colors_below(*graph, node_colors@, current_node_index as int);
            assert(neighbor_sets@[current_node_index as int]@ == neighbor_colors(
                *graph,
                node_colors@,
                current_node_index as int,
            ));
        }
        // Assign smallest possible color to node.
        let smallest = smallest_color_outside(&neighbor_sets[current_node_index], palette);
        let color = match smallest {
            Some(color) => color,
            None => {
                // Does not happen: no neighbor has the first new color.
                assert(neighbor_colors(*graph, node_colors@, current_node_index as int).contains(
                    palette,
                ));
                palette
            },
        };
        proof {
            assert(is_first_fit(*graph, node_colors@, current_node_index as int, color));
            lemma_greedy_choice_unique(
                *graph,
                degree_index(*graph),
                node_colors@,
                current_node_index as int,
                greedy_pick(*graph, node_colors@),
            );
            lemma_first_fit_unique(
                *graph,
                node_colors@,
                current_node_index as int,
                color,
                first_fit(*graph, node_colors@, current_node_index as int),
            );
            lemma_first_fit_keeps_proper(*graph, node_colors@, current_node_index as int, color);
            lemma_color_count_extend(node_colors@, current_node_index as int, color);
            lemma_uncolored_count_extend(node_colors@, current_node_index as int, color);
        }
        let ghost before = node_colors@;
        node_colors.insert(current_node_index, color);
        note_neighbor_color(graph, &mut neighbor_sets, current_node_index, color, Ghost(before));
        // Increment color count if color assigned to node was greater than any current color.
        if color == palette {
            palette += 1;
        }
        colored += 1;
    }
    proof {
        lemma_uncolored_count(node_colors@);
    }
    node_colors
}

} // verus!
