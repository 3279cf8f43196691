//! Color assignments: a color id, or none yet, for each node of a graph, with
//! the notions the solvers are stated in: properness, totality, the color count
//! and the saturation degree.

use crate::graph::{adjacent, graph_order, neighbors, simple_graph, Graph, MAX_NODES};
use std::collections::HashSet;
use vstd::prelude::*;

verus! {

broadcast use vstd::std_specs::hash::group_hash_axioms;

/// A mapping from the nodes `0..N` to color ids, partial while it is being
/// built. Its view is the sequence of the nodes' colors.
pub struct ColorAssignment {
    colors: Vec<Option<usize>>,
}

impl View for ColorAssignment {
    type V = Seq<Option<usize>>;

    closed spec fn view(&self) -> Seq<Option<usize>> {
        self.colors@
    }
}

/// The assignment of `count` nodes in which none has a color.
pub open spec fn uncolored(count: nat) -> Seq<Option<usize>> {
    Seq::new(count, |v: int| None::<usize>)
}

/// Every node has a color.
pub open spec fn total(colors: Seq<Option<usize>>) -> bool {
    forall|v: int| 0 <= v < colors.len() ==> (#[trigger] colors[v]) is Some
}

/// No two adjacent colored nodes share a color.
pub open spec fn proper(graph: Graph, colors: Seq<Option<usize>>) -> bool {
    forall|a: int, b: int|
        0 <= a < colors.len() && 0 <= b < colors.len() && #[trigger] adjacent(graph, a, b)
            && colors[a] is Some ==> colors[a] != colors[b]
}

/// A coloring of the graph: one color for each of its nodes, adjacent nodes
/// differing.
pub open spec fn is_coloring(graph: Graph, colors: Seq<Option<usize>>) -> bool {
    &&& colors.len() == graph_order(graph)
    &&& total(colors)
    &&& proper(graph, colors)
}

/// In a coloring of a simple graph every node has a color, and the two ends of
/// every edge have different colors.
pub proof fn lemma_coloring_separates(graph: Graph, colors: Seq<Option<usize>>, a: int, b: int)
    requires
        simple_graph(graph),
        is_coloring(graph, colors),
        adjacent(graph, a, b),
    ensures
        colors[a] is Some,
        colors[b] is Some,
        colors[a] != colors[b],
{
}

/// The color count: one more than the greatest color id in use, and `0` when
/// no node has a color.
pub open spec fn color_count(colors: Seq<Option<usize>>) -> nat
    decreases colors.len(),
{
    if colors.len() == 0 {
        0
    } else {
        let rest = color_count(colors.drop_last());
        match colors.last() {
            Some(c) => if c + 1 > rest {
                (c + 1) as nat
            } else {
                rest
            },
            None => rest,
        }
    }
}

/// `bound` is the color count of `colors`: above every color in use, and
/// reached by one of them unless it is `0`.
pub open spec fn is_color_count(colors: Seq<Option<usize>>, bound: nat) -> bool {
    &&& forall|v: int| 0 <= v < colors.len() ==> #[trigger] below(colors[v], bound)
    &&& bound > 0 ==> exists|v: int| 0 <= v < colors.len() && #[trigger] reaches(colors[v], bound)
}

/// A node whose color is the last one below `bound`.
pub open spec fn reaches(color: Option<usize>, bound: nat) -> bool {
    match color {
        Some(c) => c + 1 == bound,
        None => false,
    }
}

/// A node without a color, or with one below `bound`.
pub open spec fn below(color: Option<usize>, bound: nat) -> bool {
    match color {
        Some(c) => c < bound,
        None => true,
    }
}

/// The color count is above every color in use and, unless it is `0`, one
/// more than some color in use.
pub proof fn lemma_color_count(colors: Seq<Option<usize>>)
    ensures
        is_color_count(colors, color_count(colors)),
    decreases colors.len(),
{
    if colors.len() > 0 {
        let front = colors.drop_last();
        lemma_color_count(front);
        let rest = color_count(front);
        let bound = color_count(colors);
        assert forall|v: int| 0 <= v < colors.len() implies #[trigger] below(colors[v], bound) by {
            if v < front.len() {
                assert(below(front[v], rest));
            }
        }
        if bound > 0 {
            if bound == rest {
                let v = choose|v: int| 0 <= v < front.len() && #[trigger] reaches(front[v], rest);
                assert(reaches(colors[v], bound));
            } else {
                assert(reaches(colors[colors.len() - 1], bound));
            }
        }
    }
}

/// Only one number is the color count of an assignment.
pub proof fn lemma_color_count_unique(colors: Seq<Option<usize>>, bound: nat)
    requires
        is_color_count(colors, bound),
    ensures
        bound == color_count(colors),
{
    lemma_color_count(colors);
    let count = color_count(colors);
    if bound > 0 {
        let v = choose|v: int| 0 <= v < colors.len() && #[trigger] reaches(colors[v], bound);
        assert(below(colors[v], count));
    }
    if count > 0 {
        let v = choose|v: int| 0 <= v < colors.len() && #[trigger] reaches(colors[v], count);
        assert(below(colors[v], bound));
    }
}

/// An assignment whose colors all lie below a bound has a color count of at
/// most that bound.
pub proof fn lemma_count_at_most(colors: Seq<Option<usize>>, bound: nat)
    requires
        forall|v: int| 0 <= v < colors.len() ==> #[trigger] below(colors[v], bound),
    ensures
        color_count(colors) <= bound,
{
    lemma_color_count(colors);
    let count = color_count(colors);
    if count > 0 {
        let v = choose|v: int| 0 <= v < colors.len() && #[trigger] reaches(colors[v], count);
        assert(below(colors[v], bound));
    }
}

/// Giving a color to a node that had none raises the color count to one more
/// than that color, unless it was there already.
pub proof fn lemma_color_count_extend(colors: Seq<Option<usize>>, node: int, color: usize)
    requires
        0 <= node < colors.len(),
        colors[node] is None,
    ensures
        color_count(colors.update(node, Some(color))) == if color + 1 > color_count(colors) {
            (color + 1) as nat
        } else {
            color_count(colors)
        },
{
    lemma_color_count(colors);
    let count = color_count(colors);
    let extended = colors.update(node, Some(color));
    let bound = if color + 1 > count {
        (color + 1) as nat
    } else {
        count
    };
    assert forall|v: int| 0 <= v < extended.len() implies #[trigger] below(extended[v], bound) by {
        if v != node {
            assert(below(colors[v], count));
        }
    }
    if color + 1 > count {
        assert(reaches(extended[node], bound));
    } else if count > 0 {
        let v = choose|v: int| 0 <= v < colors.len() && #[trigger] reaches(colors[v], count);
        assert(reaches(extended[v], bound));
    }
    lemma_color_count_unique(extended, bound);
}

impl ColorAssignment {
    /// No color is so large that the color count would not fit a `usize`.
    #[verifier::type_invariant]
    spec fn colors_fit(self) -> bool {
        forall|v: int| 0 <= v < self.colors@.len() ==> #[trigger] below(self.colors@[v], usize::MAX as nat)
    }

    /// The assignment of `node_total` nodes in which none has a color.
    pub fn new(node_total: usize) -> (assignment: Self)
        ensures
            assignment@ == uncolored(node_total as nat),
    {
        let mut colors: Vec<Option<usize>> = Vec::with_capacity(node_total);
        let mut node: usize = 0;
        while node < node_total
            invariant
                node <= node_total,
                colors@ == uncolored(node as nat),
            decreases node_total - node,
        {
            colors.push(None);
            node += 1;
            assert(colors@ == uncolored(node as nat));
        }
        ColorAssignment { colors }
    }

    /// The number of nodes, colored or not.
    pub fn len(&self) -> (count: usize)
        ensures
            count == self@.len(),
    {
        self.colors.len()
    }

    /// The color of a node; `None` for a node without a color, and for an id
    /// that is no node.
    pub fn get(&self, node: usize) -> (color: Option<usize>)
        ensures
            color == if node < self@.len() {
                self@[node as int]
            } else {
                None
            },
            below(color, usize::MAX as nat),
    {
        proof {
            use_type_invariant(self);
        }
        if node < self.colors.len() {
            let color = self.colors[node];
            assert(below(self.colors@[node as int], usize::MAX as nat));
            color
        } else {
            None
        }
    }

    /// Gives `node` the color `color`, whether or not it had one.
    pub fn insert(&mut self, node: usize, color: usize)
        requires
            node < old(self)@.len(),
            color < usize::MAX,
        ensures
            final(self)@ == old(self)@.update(node as int, Some(color)),
    {
        proof {
            use_type_invariant(&*self);
        }
        let mut colors: Vec<Option<usize>> = Vec::new();
        std::mem::swap(&mut self.colors, &mut colors);
        colors.set(node, Some(color));
        proof {
            assert forall|v: int| 0 <= v < colors@.len() implies #[trigger] below(
                colors@[v],
                usize::MAX as nat,
            ) by {
                if v != node {
                    assert(below(old(self).colors@[v], usize::MAX as nat));
                }
            }
        }
        self.colors = colors;
    }

    /// Whether every node has a color.
    pub fn is_total(&self) -> (complete: bool)
        ensures
            complete == total(self@),
    {
        let mut node: usize = 0;
        while node < self.colors.len()
            invariant
                node <= self.colors@.len(),
                forall|v: int| 0 <= v < node ==> (#[trigger] self.colors@[v]) is Some,
            decreases self.colors@.len() - node,
        {
            if self.colors[node].is_none() {
                return false;
            }
            node += 1;
        }
        true
    }
}

impl Clone for ColorAssignment {
    fn clone(&self) -> (copy: Self)
        ensures
            copy@ == self@,
    {
        proof {
            use_type_invariant(self);
        }
        let mut colors: Vec<Option<usize>> = Vec::with_capacity(self.colors.len());
        let mut node: usize = 0;
        while node < self.colors.len()
            invariant
                node <= self.colors@.len(),
                colors@ == self.colors@.take(node as int),
            decreases self.colors@.len() - node,
        {
            colors.push(self.colors[node]);
            node += 1;
            assert(colors@ == self.colors@.take(node as int));
        }
        assert(colors@ == self.colors@);
        ColorAssignment { colors }
    }
}

/// The number of nodes that have no color yet.
pub open spec fn uncolored_count(colors: Seq<Option<usize>>) -> nat
    decreases colors.len(),
{
    if colors.len() == 0 {
        0
    } else {
        uncolored_count(colors.drop_last()) + if colors.last() is None {
            1nat
        } else {
            0nat
        }
    }
}

/// No more nodes are uncolored than there are nodes, and none is exactly when
/// the assignment is total.
pub proof fn lemma_uncolored_count(colors: Seq<Option<usize>>)
    ensures
        uncolored_count(colors) <= colors.len(),
        uncolored_count(colors) == 0 <==> total(colors),
    decreases colors.len(),
{
    if colors.len() > 0 {
        let front = colors.drop_last();
        lemma_uncolored_count(front);
        if total(colors) {
            assert forall|v: int| 0 <= v < front.len() implies (#[trigger] front[v]) is Some by {
                assert(colors[v] is Some);
            }
            assert(colors[colors.len() - 1] is Some);
        }
        if uncolored_count(colors) == 0 {
            assert forall|v: int| 0 <= v < colors.len() implies (#[trigger] colors[v]) is Some by {
                if v < front.len() {
                    assert(front[v] is Some);
                }
            }
        }
    }
}

/// Coloring a node that had no color leaves one uncolored node fewer.
pub proof fn lemma_uncolored_count_extend(colors: Seq<Option<usize>>, node: int, color: usize)
    requires
        0 <= node < colors.len(),
        colors[node] is None,
    ensures
        uncolored_count(colors.update(node, Some(color))) + 1 == uncolored_count(colors),
    decreases colors.len(),
{
    let extended = colors.update(node, Some(color));
    if node == colors.len() - 1 {
        assert(extended.drop_last() == colors.drop_last());
    } else {
        assert(extended.drop_last() == colors.drop_last().update(node, Some(color)));
        lemma_uncolored_count_extend(colors.drop_last(), node, color);
    }
}

/// An assignment without any color has every node uncolored and the color
/// count `0`.
pub proof fn lemma_uncolored(count: nat)
    ensures
        uncolored_count(uncolored(count)) == count,
        color_count(uncolored(count)) == 0,
    decreases count,
{
    if count > 0 {
        assert(uncolored(count).drop_last() == uncolored((count - 1) as nat));
        lemma_uncolored((count - 1) as nat);
    }
}

/// Node `other` is a neighbor of `node` and has the color `color`.
pub open spec fn wears(
    graph: Graph,
    colors: Seq<Option<usize>>,
    node: int,
    other: int,
    color: usize,
) -> bool {
    0 <= other < colors.len() && adjacent(graph, node, other) && colors[other] == Some(color)
}

/// The distinct colors among the colored neighbors of a node.
pub open spec fn neighbor_colors(
    graph: Graph,
    colors: Seq<Option<usize>>,
    node: int,
) -> Set<usize> {
    Set::new(|color: usize| exists|other: int| wears(graph, colors, node, other, color))
}

/// The saturation degree of a node: how many distinct colors its colored
/// neighbors have.
pub open spec fn saturation(graph: Graph, colors: Seq<Option<usize>>, node: int) -> nat {
    neighbor_colors(graph, colors, node).len()
}

/// The `at`-th entry of a neighbor list is a node with the color `color`.
pub open spec fn listed_color(
    colors: Seq<Option<usize>>,
    list: Seq<usize>,
    at: int,
    color: usize,
) -> bool {
    0 <= at < list.len() && list[at] < colors.len() && colors[list[at] as int] == Some(color)
}

/// The set of distinct colors among the colored neighbors of a node. Its size
/// is the node's saturation degree.
pub fn get_neighbor_unique_colors(
    graph: &Graph,
    node_index: usize,
    node_colors: &ColorAssignment,
) -> (unique: HashSet<usize>)
    requires
        node_index <= MAX_NODES,
    ensures
        unique@ == neighbor_colors(*graph, node_colors@, node_index as int),
        unique@.finite(),
        unique@.len() == saturation(*graph, node_colors@, node_index as int),
{
    let list = neighbors(graph, node_index);
    let mut unique: HashSet<usize> = HashSet::new();
    let mut at: usize = 0;
    while at < list.len()
        invariant
            at <= list@.len(),
            unique@.finite(),
            forall|color: usize|
                unique@.contains(color) <==> exists|j: int|
                    j < at && #[trigger] listed_color(node_colors@, list@, j, color),
        decreases list@.len() - at,
    {
        let ghost before = unique@;
        match node_colors.get(list[at]) {
            Some(found) => {
                unique.insert(found);
                proof {
                    assert(listed_color(node_colors@, list@, at as int, found));
                    assert forall|color: usize|
                        unique@.contains(color) <==> exists|j: int|
                            j < at + 1 && #[trigger] listed_color(node_colors@, list@, j, color) by {
                        if before.contains(color) {
                            let j = choose|j: int|
                                j < at && #[trigger] listed_color(node_colors@, list@, j, color);
                            assert(listed_color(node_colors@, list@, j, color));
                        }
                    }
                }
            },
            None => {},
        }
        at += 1;
    }
    proof {
        let wanted = neighbor_colors(*graph, node_colors@, node_index as int);
        assert forall|color: usize| unique@.contains(color) <==> wanted.contains(color) by {
            if unique@.contains(color) {
                let j = choose|j: int|
                    j < at && #[trigger] listed_color(node_colors@, list@, j, color);
                assert(adjacent(*graph, node_index as int, list@[j] as int));
                assert(wears(*graph, node_colors@, node_index as int, list@[j] as int, color));
            }
            if wanted.contains(color) {
                let other = choose|other: int|
                    wears(*graph, node_colors@, node_index as int, other, color);
                assert(adjacent(*graph, node_index as int, other));
                let j = choose|j: int| 0 <= j < list@.len() && #[trigger] list@[j] == other;
                assert(listed_color(node_colors@, list@, j, color));
            }
        }
        assert(unique@ =~= wanted);
    }
    unique
}

/// The color count of an assignment: one more than its greatest color id, `0`
/// when nothing is colored.
pub fn count_colors(node_colors: &ColorAssignment) -> (count: usize)
    ensures
        count == color_count(node_colors@),
{
    let total_nodes = node_colors.len();
    let mut count: usize = 0;
    let mut node: usize = 0;
    while node < total_nodes
        invariant
            total_nodes == node_colors@.len(),
            node <= total_nodes,
            count == color_count(node_colors@.take(node as int)),
        decreases total_nodes - node,
    {
        let color = node_colors.get(node);
        proof {
            assert(node_colors@.take(node + 1).drop_last() == node_colors@.take(node as int));
        }
        match color {
            Some(c) => {
                if c + 1 > count {
                    count = c + 1;
                }
            },
            None => {},
        }
        node += 1;
    }
    assert(node_colors@.take(node as int) == node_colors@);
    count
}

} // verus!
