//! The exact solver: a depth-first search over partial assignments, kept on an
//! explicit stack and cut wherever a branch cannot beat the best coloring
//! found so far.

use crate::coloring::{
    below, color_count, count_colors, get_neighbor_unique_colors, is_coloring,
    lemma_color_count, lemma_count_at_most, lemma_uncolored, lemma_uncolored_count,
    lemma_uncolored_count_extend, neighbor_colors, proper, reaches, total, uncolored,
    uncolored_count, wears, ColorAssignment,
};
use crate::graph::{
    adjacent, find_node_with_maximum_degree, get_node_degrees, graph_order, node_count,
    simple_graph, Graph,
};
use crate::greedy::{
    chosen_node, find_node_with_greedy_choice, greedy_coloring, is_greedy_choice,
    lemma_first_fit_keeps_proper, lemma_greedy_choice_unique, lemma_greedy_coloring,
    lemma_neighbor_colors_below, solve_with_greedy,
};
use vstd::prelude::*;

verus! {

broadcast use vstd::std_specs::hash::group_hash_axioms;

/// Every color that `partial` has assigned, `full` has assigned too.
pub open spec fn agrees(partial: Seq<Option<usize>>, full: Seq<Option<usize>>) -> bool {
    &&& partial.len() == full.len()
    &&& forall|v: int|
        0 <= v < partial.len() && (#[trigger] partial[v]) is Some ==> partial[v] == full[v]
}

/// `full` is a coloring of the graph with at most `bound` colors that keeps
/// what `partial` has assigned.
pub open spec fn completes(
    graph: Graph,
    partial: Seq<Option<usize>>,
    full: Seq<Option<usize>>,
    bound: nat,
) -> bool {
    is_coloring(graph, full) && color_count(full) <= bound && agrees(partial, full)
}

/// The graph has a coloring with at most `bound` colors.
pub open spec fn colorable(graph: Graph, bound: nat) -> bool {
    exists|full: Seq<Option<usize>>| is_coloring(graph, full) && color_count(full) <= bound
}

/// Some assignment on the stack can be completed to a coloring with at most
/// `bound` colors.
pub open spec fn reachable(graph: Graph, stack: Seq<ColorAssignment>, bound: nat) -> bool {
    exists|at: int, full: Seq<Option<usize>>|
        0 <= at < stack.len() && #[trigger] completes(graph, stack[at]@, full, bound)
}

/// What the search has not lost: whenever the graph has a coloring with fewer
/// than `best_count` colors, one with no more colors can still be reached
/// from the stack.
pub open spec fn search_complete(
    graph: Graph,
    stack: Seq<ColorAssignment>,
    best_count: nat,
) -> bool {
    forall|bound: nat|
        bound < best_count && #[trigger] colorable(graph, bound) ==> reachable(graph, stack, bound)
}

/// A coloring of the graph with the fewest colors possible: no coloring of
/// the graph has fewer.
pub open spec fn is_optimal_coloring(graph: Graph, colors: Seq<Option<usize>>) -> bool {
    &&& is_coloring(graph, colors)
    &&& forall|other: Seq<Option<usize>>| #[trigger]
        is_coloring(graph, other) ==> color_count(colors) <= color_count(other)
}

/// A coloring with the fewest colors possible has at most as many colors as
/// the greedy coloring, which has at most as many as the graph has nodes.
pub proof fn lemma_bound_ordering(graph: Graph, exact: Seq<Option<usize>>)
    requires
        simple_graph(graph),
        is_optimal_coloring(graph, exact),
    ensures
        color_count(exact) <= color_count(greedy_coloring(graph)) <= graph_order(graph),
{
    lemma_greedy_coloring(graph);
}

/// On a bipartite graph with at least one edge, a coloring with the fewest
/// colors possible has exactly two colors. The graph is bipartite when it has
/// a coloring with at most two colors, here `sides`; `a` and `b` are the ends
/// of one of its edges.
pub proof fn lemma_optimal_on_bipartite(
    graph: Graph,
    exact: Seq<Option<usize>>,
    sides: Seq<Option<usize>>,
    a: int,
    b: int,
)
    requires
        simple_graph(graph),
        is_optimal_coloring(graph, exact),
        is_coloring(graph, sides),
        color_count(sides) <= 2,
        adjacent(graph, a, b),
    ensures
        color_count(exact) == 2,
{
    lemma_color_count(exact);
    assert(below(exact[a], color_count(exact)));
    assert(below(exact[b], color_count(exact)));
    assert(exact[a] is Some && exact[b] is Some && exact[a] != exact[b]);
}

/// A color with `x` and `y` exchanged.
pub open spec fn swap_color(color: Option<usize>, x: usize, y: usize) -> Option<usize> {
    match color {
        Some(c) => if c == x {
            Some(y)
        } else if c == y {
            Some(x)
        } else {
            Some(c)
        },
        None => None,
    }
}

/// An assignment with the colors `x` and `y` exchanged on every node.
pub open spec fn recolored(colors: Seq<Option<usize>>, x: usize, y: usize) -> Seq<Option<usize>> {
    Seq::new(colors.len(), |v: int| swap_color(colors[v], x, y))
}

/// The child of `colors` that gives `node` a color: one up to the color count
/// of `colors` that no neighbor of `node` has.
pub open spec fn is_branch(
    graph: Graph,
    colors: Seq<Option<usize>>,
    node: int,
    child: Seq<Option<usize>>,
) -> bool {
    child[node] matches Some(color) && color <= color_count(colors) && !neighbor_colors(
        graph,
        colors,
        node,
    ).contains(color) && child == colors.update(node, Some(color))
}

/// The color of a node as a number, `-1` for none.
pub open spec fn color_at(colors: Seq<Option<usize>>, node: int) -> int {
    match colors[node] {
        Some(color) => color as int,
        None => -1,
    }
}

/// What one stack entry stands for in the measure of the search: a number
/// that exceeds `order` times that of an entry with one more node colored.
pub open spec fn weight(order: nat, open: nat) -> nat
    decreases open,
{
    if open == 0 {
        1
    } else {
        1 + order * weight(order, (open - 1) as nat)
    }
}

/// The measure of the search: the weights of the stack's entries, added up.
pub open spec fn stack_weight(order: nat, stack: Seq<ColorAssignment>) -> nat
    decreases stack.len(),
{
    if stack.len() == 0 {
        0
    } else {
        stack_weight(order, stack.drop_last()) + weight(order, uncolored_count(stack.last()@))
    }
}

/// An assignment has no more colors than one that keeps all it has assigned.
pub proof fn lemma_agrees_count(partial: Seq<Option<usize>>, full: Seq<Option<usize>>)
    requires
        agrees(partial, full),
    ensures
        color_count(partial) <= color_count(full),
{
    lemma_color_count(partial);
    lemma_color_count(full);
    let count = color_count(partial);
    if count > 0 {
        let v = choose|v: int| 0 <= v < partial.len() && #[trigger] reaches(partial[v], count);
        assert(partial[v] is Some);
        assert(below(full[v], color_count(full)));
    }
}

/// Exchanging two colors of a coloring gives a coloring again, with no more
/// colors.
pub proof fn lemma_recolored(graph: Graph, full: Seq<Option<usize>>, x: usize, y: usize)
    requires
        is_coloring(graph, full),
        x < color_count(full),
        y < color_count(full),
    ensures
        is_coloring(graph, recolored(full, x, y)),
        color_count(recolored(full, x, y)) <= color_count(full),
{
    let swapped = recolored(full, x, y);
    lemma_color_count(full);
    assert forall|v: int| 0 <= v < swapped.len() implies #[trigger] below(
        swapped[v],
        color_count(full),
    ) by {
        assert(below(full[v], color_count(full)));
    }
    lemma_count_at_most(swapped, color_count(full));
    assert forall|v: int| 0 <= v < swapped.len() implies (#[trigger] swapped[v]) is Some by {
        assert(full[v] is Some);
    }
    assert forall|a: int, b: int|
        0 <= a < swapped.len() && 0 <= b < swapped.len() && #[trigger] adjacent(graph, a, b)
            && swapped[a] is Some implies swapped[a] != swapped[b] by {
        assert(full[a] is Some);
        assert(full[b] is Some);
        assert(full[a] != full[b]);
    }
}

/// A coloring that completes a partial assignment can be turned into one that
/// completes one of its children: the one that gives `node` the color it has
/// in the coloring, or, where that color is a new one, the child that gives it
/// the first new color, the two colors exchanged.
pub proof fn lemma_branch(
    graph: Graph,
    partial: Seq<Option<usize>>,
    full: Seq<Option<usize>>,
    bound: nat,
    node: int,
) -> (found: (usize, Seq<Option<usize>>))
    requires
        0 <= node < partial.len(),
        partial[node] is None,
        color_count(partial) <= usize::MAX,
        completes(graph, partial, full, bound),
    ensures
        found.0 <= color_count(partial),
        !neighbor_colors(graph, partial, node).contains(found.0),
        completes(graph, partial.update(node, Some(found.0)), found.1, bound),
{
    lemma_color_count(partial);
    lemma_color_count(full);
    lemma_agrees_count(partial, full);
    lemma_neighbor_colors_below(graph, partial, node);
    assert(full[node] is Some);
    let x = full[node]->0;
    let fresh = color_count(partial) as usize;
    assert(below(full[node], color_count(full)));
    if x <= fresh {
        if neighbor_colors(graph, partial, node).contains(x) {
            let other = choose|other: int| wears(graph, partial, node, other, x);
            assert(partial[other] is Some);
            assert(full[other] == Some(x));
            assert(adjacent(graph, node, other));
        }
        (x, full)
    } else {
        let swapped = recolored(full, x, fresh);
        lemma_recolored(graph, full, x, fresh);
        let child = partial.update(node, Some(fresh));
        assert forall|v: int| 0 <= v < child.len() && (#[trigger] child[v]) is Some implies child[v]
            == swapped[v] by {
            if v != node {
                assert(below(partial[v], color_count(partial)));
                assert(partial[v] is Some);
                assert(partial[v] == full[v]);
            }
        }
        (fresh, swapped)
    }
}

/// Dropping the top of the stack loses nothing when it has as many colors as
/// the best coloring known.
pub proof fn lemma_search_discard(graph: Graph, stack: Seq<ColorAssignment>, best_count: nat)
    requires
        stack.len() > 0,
        search_complete(graph, stack, best_count),
        color_count(stack.last()@) >= best_count,
    ensures
        search_complete(graph, stack.drop_last(), best_count),
{
    let rest = stack.drop_last();
    assert forall|bound: nat| bound < best_count && #[trigger] colorable(graph, bound) implies reachable(
        graph,
        rest,
        bound,
    ) by {
        let (at, full) = choose|at: int, full: Seq<Option<usize>>|
            0 <= at < stack.len() && #[trigger] completes(graph, stack[at]@, full, bound);
        if at == stack.len() - 1 {
            lemma_agrees_count(stack[at]@, full);
        }
        assert(rest[at] == stack[at]);
        assert(completes(graph, rest[at]@, full, bound));
    }
}

/// When the top of the stack is total, it becomes the best coloring known, and
/// the rest of the stack still reaches every coloring with fewer colors.
pub proof fn lemma_search_record(graph: Graph, stack: Seq<ColorAssignment>, best_count: nat)
    requires
        stack.len() > 0,
        search_complete(graph, stack, best_count),
        total(stack.last()@),
        color_count(stack.last()@) < best_count,
    ensures
        search_complete(graph, stack.drop_last(), color_count(stack.last()@)),
{
    let rest = stack.drop_last();
    let top = stack.last()@;
    assert forall|bound: nat| bound < color_count(top) && #[trigger] colorable(graph, bound) implies reachable(
        graph,
        rest,
        bound,
    ) by {
        let (at, full) = choose|at: int, full: Seq<Option<usize>>|
            0 <= at < stack.len() && #[trigger] completes(graph, stack[at]@, full, bound);
        if at == stack.len() - 1 {
            lemma_agrees_count(top, full);
        }
        assert(rest[at] == stack[at]);
        assert(completes(graph, rest[at]@, full, bound));
    }
}

/// Replacing the top of the stack by its children loses nothing, when there is
/// a child for every color that the branching node may take.
pub proof fn lemma_search_branch(
    graph: Graph,
    stack: Seq<ColorAssignment>,
    children: Seq<ColorAssignment>,
    best_count: nat,
    node: int,
)
    requires
        stack.len() > 0,
        search_complete(graph, stack, best_count),
        0 <= node < stack.last()@.len(),
        stack.last()@[node] is None,
        color_count(stack.last()@) <= usize::MAX,
        forall|color: usize|
            color <= color_count(stack.last()@) && !(#[trigger] neighbor_colors(
                graph,
                stack.last()@,
                node,
            ).contains(color)) ==> exists|j: int|
                0 <= j < children.len() && (#[trigger] children[j])@ == stack.last()@.update(
                    node,
                    Some(color),
                ),
    ensures
        search_complete(graph, stack.drop_last() + children, best_count),
{
    let rest = stack.drop_last();
    let next = rest + children;
    let top = stack.last()@;
    assert forall|bound: nat| bound < best_count && #[trigger] colorable(graph, bound) implies reachable(
        graph,
        next,
        bound,
    ) by {
        let (at, full) = choose|at: int, full: Seq<Option<usize>>|
            0 <= at < stack.len() && #[trigger] completes(graph, stack[at]@, full, bound);
        if at < stack.len() - 1 {
            assert(next[at] == stack[at]);
            assert(completes(graph, next[at]@, full, bound));
        } else {
            let found = lemma_branch(graph, top, full, bound, node);
            assert(!neighbor_colors(graph, top, node).contains(found.0));
            let j = choose|j: int|
                0 <= j < children.len() && (#[trigger] children[j])@ == top.update(
                    node,
                    Some(found.0),
                );
            assert(next[rest.len() + j] == children[j]);
            assert(completes(graph, next[rest.len() + j]@, found.1, bound));
        }
    }
}

/// The search may start from any one node with color `0`: every coloring can
/// be turned into one like that, with no more colors.
pub proof fn lemma_search_start(
    graph: Graph,
    stack: Seq<ColorAssignment>,
    best_count: nat,
    node: int,
)
    requires
        0 <= node < graph_order(graph),
        stack.len() == 1,
        stack[0]@ == uncolored(graph_order(graph)).update(node, Some(0usize)),
    ensures
        search_complete(graph, stack, best_count),
{
    assert forall|bound: nat| bound < best_count && #[trigger] colorable(graph, bound) implies reachable(
        graph,
        stack,
        bound,
    ) by {
        let full = choose|full: Seq<Option<usize>>|
            is_coloring(graph, full) && color_count(full) <= bound;
        lemma_color_count(full);
        assert(full[node] is Some);
        let x = full[node]->0;
        assert(below(full[node], color_count(full)));
        lemma_recolored(graph, full, x, 0);
        let swapped = recolored(full, x, 0);
        assert(completes(graph, stack[0]@, swapped, bound));
    }
}

/// Once the stack is empty, no coloring has fewer colors than the best one
/// known.
pub proof fn lemma_search_end(graph: Graph, stack: Seq<ColorAssignment>, best_count: nat)
    requires
        stack.len() == 0,
        search_complete(graph, stack, best_count),
    ensures
        forall|other: Seq<Option<usize>>| #[trigger]
            is_coloring(graph, other) ==> best_count <= color_count(other),
{
    assert forall|other: Seq<Option<usize>>| #[trigger] is_coloring(graph, other) implies best_count
        <= color_count(other) by {
        if color_count(other) < best_count {
            assert(colorable(graph, color_count(other)));
            assert(reachable(graph, stack, color_count(other)));
        }
    }
}

/// The measure of two stacks put together is the sum of their measures.
pub proof fn lemma_stack_weight_concat(
    order: nat,
    below_part: Seq<ColorAssignment>,
    top_part: Seq<ColorAssignment>,
)
    ensures
        stack_weight(order, below_part + top_part) == stack_weight(order, below_part)
            + stack_weight(order, top_part),
    decreases top_part.len(),
{
    if top_part.len() == 0 {
        assert(below_part + top_part == below_part);
    } else {
        assert((below_part + top_part).drop_last() == below_part + top_part.drop_last());
        assert((below_part + top_part).last() == top_part.last());
        lemma_stack_weight_concat(order, below_part, top_part.drop_last());
    }
}

/// Children that each leave `open` nodes uncolored weigh as much as one of
/// them times their number.
pub proof fn lemma_children_weight(order: nat, children: Seq<ColorAssignment>, open: nat)
    requires
        forall|j: int| 0 <= j < children.len() ==> uncolored_count((#[trigger] children[j])@) == open,
    ensures
        stack_weight(order, children) == children.len() * weight(order, open),
    decreases children.len(),
{
    if children.len() > 0 {
        let front = children.drop_last();
        assert forall|j: int| 0 <= j < front.len() implies uncolored_count((#[trigger] front[j])@)
            == open by {
            assert(front[j] == children[j]);
        }
        lemma_children_weight(order, front, open);
        assert(uncolored_count(children[children.len() - 1]@) == open);
        assert(children.len() * weight(order, open) == front.len() * weight(order, open) + weight(
            order,
            open,
        )) by (nonlinear_arith)
            requires
                children.len() == front.len() + 1,
        ;
    }
}

/// The weight of an entry exceeds that of any number of entries, up to
/// `order`, with one more node colored.
pub proof fn lemma_weight_step(order: nat, open: nat, children: nat)
    requires
        open > 0,
        children <= order,
    ensures
        children * weight(order, (open - 1) as nat) < weight(order, open),
{
    let inner = weight(order, (open - 1) as nat);
    assert(children * inner <= order * inner) by (nonlinear_arith)
        requires
            children <= order,
    ;
}

/// The partial assignments that follow `node_colors` in the search: the node
/// to color next is chosen as the greedy constructor chooses it, and there is
/// one child for each color it may take, in increasing order of that color.
/// The colors it may take are those in use that none of its neighbors has,
/// and the first new one.
pub fn extend_node_colors(
    graph: &Graph,
    node_degrees: &Vec<usize>,
    node_colors: &ColorAssignment,
) -> (combinations: Vec<ColorAssignment>)
    requires
        simple_graph(*graph),
        node_colors@.len() == graph_order(*graph),
        node_degrees@.len() == node_colors@.len(),
        !total(node_colors@),
        color_count(node_colors@) < usize::MAX,
    ensures
        is_greedy_choice(
            *graph,
            node_degrees@,
            node_colors@,
            chosen_node(*graph, node_degrees@, node_colors@),
        ),
        combinations@.len() <= color_count(node_colors@) + 1,
        forall|j: int|
            0 <= j < combinations@.len() ==> is_branch(
                *graph,
                node_colors@,
                chosen_node(*graph, node_degrees@, node_colors@),
                (#[trigger] combinations@[j])@,
            ),
        forall|i: int, j: int|
            0 <= i < j < combinations@.len() ==> color_at(
                combinations@[i]@,
                chosen_node(*graph, node_degrees@, node_colors@),
            ) < color_at(combinations@[j]@, chosen_node(*graph, node_degrees@, node_colors@)),
        forall|color: usize|
            color <= color_count(node_colors@) && !(#[trigger] neighbor_colors(
                *graph,
                node_colors@,
                chosen_node(*graph, node_degrees@, node_colors@),
            ).contains(color)) ==> exists|j: int|
                0 <= j < combinations@.len() && (#[trigger] combinations@[j])@
                    == node_colors@.update(
                    chosen_node(*graph, node_degrees@, node_colors@),
                    Some(color),
                ),
{
    let mut combinations: Vec<ColorAssignment> = Vec::new();
    // Get next uncolored node to color.
    let uncolored_node_index = find_node_with_greedy_choice(graph, node_degrees, node_colors);
    proof {
        lemma_greedy_choice_unique(
            *graph,
            node_degrees@,
            node_colors@,
            uncolored_node_index as int,
            chosen_node(*graph, node_degrees@, node_colors@),
        );
    }
    // Generate new partial color combinations from next uncolored node.
    let taken = get_neighbor_unique_colors(graph, uncolored_node_index, node_colors);
    let palette = count_colors(node_colors);
    let ghost node = uncolored_node_index as int;
    let mut color: usize = 0;
    while color <= palette
        invariant
            palette == color_count(node_colors@),
            palette < usize::MAX,
            0 <= node < node_colors@.len(),
            node == uncolored_node_index,
            node_colors@[node] is None,
            taken@ == neighbor_colors(*graph, node_colors@, node),
            color <= palette + 1,
            combinations@.len() <= color,
            forall|j: int|
                0 <= j < combinations@.len() ==> is_branch(
                    *graph,
                    node_colors@,
                    node,
                    (#[trigger] combinations@[j])@,
                ) && color_at(combinations@[j]@, node) < color,
            forall|i: int, j: int|
                0 <= i < j < combinations@.len() ==> color_at(combinations@[i]@, node) < color_at(
                    combinations@[j]@,
                    node,
                ),
            forall|free: usize|
                free < color && !(#[trigger] neighbor_colors(*graph, node_colors@, node).contains(
                    free,
                )) ==> exists|j: int|
                    0 <= j < combinations@.len() && (#[trigger] combinations@[j])@
                        == node_colors@.update(node, Some(free)),
        decreases palette + 1 - color,
    {
        if !taken.contains(&color) {
            let mut new_node_colors = node_colors.clone();
            new_node_colors.insert(uncolored_node_index, color);
            let ghost before = combinations@;
            combinations.push(new_node_colors);
            proof {
                let last = before.len() as int;
                assert(combinations@[last]@ == node_colors@.update(node, Some(color)));
                assert forall|j: int| 0 <= j < combinations@.len() implies is_branch(
                    *graph,
                    node_colors@,
                    node,
                    (#[trigger] combinations@[j])@,
                ) && color_at(combinations@[j]@, node) < color + 1 by {
                    if j < last {
                        assert(combinations@[j] == before[j]);
                    }
                }
                assert forall|i: int, j: int| 0 <= i < j < combinations@.len() implies color_at(
                    combinations@[i]@,
                    node,
                ) < color_at(combinations@[j]@, node) by {
                    assert(combinations@[i] == before[i]);
                    if j < last {
                        assert(combinations@[j] == before[j]);
                    }
                }
                assert forall|free: usize|
                    free < color + 1 && !(#[trigger] neighbor_colors(
                        *graph,
                        node_colors@,
                        node,
                    ).contains(free)) implies exists|j: int|
                    0 <= j < combinations@.len() && (#[trigger] combinations@[j])@
                        == node_colors@.update(node, Some(free)) by {
                    if free < color {
                        let j = choose|j: int|
                            0 <= j < before.len() && (#[trigger] before[j])@
                                == node_colors@.update(node, Some(free));
                        assert(combinations@[j] == before[j]);
                    } else {
                        assert(combinations@[last]@ == node_colors@.update(node, Some(free)));
                    }
                }
            }
        }
        color += 1;
    }
    combinations
}

/// Colors a graph with the fewest colors possible.
///
/// The search starts from the greedy coloring as the best one known and from
/// the first node of greatest degree with color `0`. It takes partial
/// assignments from a stack: a total one with fewer colors than the best
/// becomes the best; another one with fewer colors than the best is replaced
/// by its children; any other is dropped. A new color enters only as the
/// first one not yet in use.
///
/// The result is a coloring of the graph, and no coloring of the graph has
/// fewer colors. It is the greedy coloring where that one is optimal.
pub fn solve_with_branch_and_bound(graph: &Graph) -> (best_node_colors: ColorAssignment)
    requires
        simple_graph(*graph),
    ensures
        is_optimal_coloring(*graph, best_node_colors@),
        best_node_colors@ == greedy_coloring(*graph) || color_count(best_node_colors@)
            < color_count(greedy_coloring(*graph)),
{
    let order = node_count(graph);
    let node_degrees = get_node_degrees(graph);
    // Get initial best solution and upper bound using greedy algorithm.
    let mut best_node_colors = solve_with_greedy(graph);
    let mut best_color_count = count_colors(&best_node_colors);
    if order == 0 {
        return best_node_colors;
    }
    // Stack of node color combinations to visit.
    let mut color_combinations_to_visit: Vec<ColorAssignment> = Vec::new();
    // Create new incomplete node color combination with starting node.
    let starting_node_index = find_node_with_maximum_degree(&node_degrees);
    let mut starting_node_color = ColorAssignment::new(order);
    proof {
        lemma_uncolored(order as nat);
        lemma_first_fit_keeps_proper(*graph, starting_node_color@, starting_node_index as int, 0);
    }
    starting_node_color.insert(starting_node_index, 0);
    color_combinations_to_visit.push(starting_node_color);
    proof {
        lemma_search_start(
            *graph,
            color_combinations_to_visit@,
            best_color_count as nat,
            starting_node_index as int,
        );
    }
    // Visit node color combinations using branch and bound.
    while color_combinations_to_visit.len() > 0
        invariant
            simple_graph(*graph),
            order == graph_order(*graph),
            order > 0,
            node_degrees@.len() == order,
            is_coloring(*graph, best_node_colors@),
            best_color_count == color_count(best_node_colors@),
            best_node_colors@ == greedy_coloring(*graph) || best_color_count < color_count(
                greedy_coloring(*graph),
            ),
            best_color_count <= order,
            forall|at: int|
                0 <= at < color_combinations_to_visit@.len() ==> (
                #[trigger] color_combinations_to_visit@[at])@.len() == order && proper(
                    *graph,
                    color_combinations_to_visit@[at]@,
                ),
            search_complete(*graph, color_combinations_to_visit@, best_color_count as nat),
        decreases stack_weight(order as nat, color_combinations_to_visit@),
    {
        let ghost before = color_combinations_to_visit@;
        let current_node_colors = color_combinations_to_visit.pop().unwrap();
        let is_coloring_complete = current_node_colors.is_total();
        let current_color_count = count_colors(&current_node_colors);
        proof {
            assert(before.last() == current_node_colors);
            assert(color_combinations_to_visit@ == before.drop_last());
            assert(current_node_colors@.len() == order && proper(*graph, current_node_colors@));
            assert forall|at: int| 0 <= at < color_combinations_to_visit@.len() implies (
            #[trigger] color_combinations_to_visit@[at])@.len() == order && proper(
                *graph,
                color_combinations_to_visit@[at]@,
            ) by {
                assert(color_combinations_to_visit@[at] == before[at]);
            }
        }
        if is_coloring_complete && current_color_count < best_color_count {
            proof {
                lemma_search_record(*graph, before, best_color_count as nat);
            }
            best_node_colors = current_node_colors;
            best_color_count = current_color_count;
        } else if current_color_count < best_color_count {
            let ghost node = chosen_node(*graph, node_degrees@, current_node_colors@);
            let mut new_color_combinations = extend_node_colors(
                graph,
                &node_degrees,
                &current_node_colors,
            );
            let ghost rest = color_combinations_to_visit@;
            let ghost children = new_color_combinations@;
            proof {
                let open = uncolored_count(current_node_colors@);
                lemma_uncolored_count(current_node_colors@);
                assert forall|j: int| 0 <= j < children.len() implies uncolored_count(
                    (#[trigger] children[j])@,
                ) == open - 1 && children[j]@.len() == order && proper(*graph, children[j]@) by {
                    let child = children[j]@;
                    assert(is_branch(*graph, current_node_colors@, node, child));
                    let color = child[node]->0;
                    lemma_uncolored_count_extend(current_node_colors@, node, color);
                    lemma_first_fit_keeps_proper(*graph, current_node_colors@, node, color);
                }
            }
            color_combinations_to_visit.append(&mut new_color_combinations);
            proof {
                let open = uncolored_count(current_node_colors@);
                assert(color_combinations_to_visit@ == rest + children);
                lemma_stack_weight_concat(order as nat, rest, children);
                if children.len() > 0 {
                    lemma_children_weight(order as nat, children, (open - 1) as nat);
                    lemma_weight_step(order as nat, open, children.len());
                }
                assert forall|at: int| 0 <= at < color_combinations_to_visit@.len() implies (
                #[trigger] color_combinations_to_visit@[at])@.len() == order && proper(
                    *graph,
                    color_combinations_to_visit@[at]@,
                ) by {
                    if at < rest.len() {
                        assert(color_combinations_to_visit@[at] == rest[at]);
                    } else {
                        assert(color_combinations_to_visit@[at] == children[at - rest.len()]);
                    }
                }
                lemma_search_branch(*graph, before, children, best_color_count as nat, node);
            }
        } else {
            proof {
                lemma_search_discard(*graph, before, best_color_count as nat);
            }
        }
    }
    proof {
        lemma_search_end(*graph, color_combinations_to_visit@, best_color_count as nat);
    }
    best_node_colors
}

} // verus!
