use graph_coloring::coloring::{count_colors, ColorAssignment};
use graph_coloring::graph::{build_graph, get_node_degrees, Graph};
use graph_coloring::greedy::{
    find_most_saturated_node, find_node_with_greedy_choice, get_smallest_color_for_node,
    smallest_color_outside, solve_with_greedy,
};
use std::collections::HashSet;

fn greedy_graph(node_total: usize, edges: &[(usize, usize)]) -> Graph {
    build_graph(node_total, &edges.to_vec()).expect("valid graph")
}

fn greedy_assignment(colors: &[Option<usize>]) -> ColorAssignment {
    let mut node_colors = ColorAssignment::new(colors.len());
    for (node, color) in colors.iter().enumerate() {
        if let Some(color) = color {
            node_colors.insert(node, *color);
        }
    }
    node_colors
}

fn greedy_colors(node_colors: &ColorAssignment) -> Vec<Option<usize>> {
    (0..node_colors.len()).map(|node| node_colors.get(node)).collect()
}

fn greedy_is_coloring(edges: &[(usize, usize)], node_colors: &ColorAssignment) -> bool {
    node_colors.is_total()
        && edges.iter().all(|(a, b)| node_colors.get(*a) != node_colors.get(*b))
}

const HARD_EDGES: [(usize, usize); 11] = [
    (0, 2),
    (0, 3),
    (0, 5),
    (1, 2),
    (1, 4),
    (1, 6),
    (2, 3),
    (2, 5),
    (3, 4),
    (4, 6),
    (5, 6),
];

#[test]
fn greedy_on_no_nodes_is_empty() {
    let node_colors = solve_with_greedy(&greedy_graph(0, &[]));
    assert_eq!(node_colors.len(), 0);
    assert_eq!(count_colors(&node_colors), 0);
}

#[test]
fn greedy_on_single_node_uses_one_color() {
    let node_colors = solve_with_greedy(&greedy_graph(1, &[]));
    assert_eq!(greedy_colors(&node_colors), vec![Some(0)]);
    assert_eq!(count_colors(&node_colors), 1);
}

#[test]
fn greedy_on_edgeless_graph_uses_one_color() {
    let node_colors = solve_with_greedy(&greedy_graph(4, &[]));
    assert_eq!(greedy_colors(&node_colors), vec![Some(0); 4]);
}

#[test]
fn greedy_on_single_edge_uses_two_colors() {
    let node_colors = solve_with_greedy(&greedy_graph(2, &[(0, 1)]));
    assert_eq!(count_colors(&node_colors), 2);
    assert_ne!(node_colors.get(0), node_colors.get(1));
    assert_eq!(greedy_colors(&node_colors), vec![Some(0), Some(1)]);
}

#[test]
fn greedy_on_triangle_uses_three_colors() {
    let node_colors = solve_with_greedy(&greedy_graph(3, &[(0, 1), (1, 2), (2, 0)]));
    assert_eq!(count_colors(&node_colors), 3);
    assert_eq!(greedy_colors(&node_colors), vec![Some(0), Some(1), Some(2)]);
}

#[test]
fn greedy_on_star_uses_two_colors() {
    let edges = [(0, 1), (0, 2), (0, 3)];
    let node_colors = solve_with_greedy(&greedy_graph(4, &edges));
    assert_eq!(count_colors(&node_colors), 2);
    assert_eq!(greedy_colors(&node_colors), vec![Some(0), Some(1), Some(1), Some(1)]);
}

#[test]
fn greedy_on_star_with_center_last() {
    let edges = [(3, 0), (3, 1), (3, 2)];
    let node_colors = solve_with_greedy(&greedy_graph(4, &edges));
    assert_eq!(greedy_colors(&node_colors), vec![Some(1), Some(1), Some(1), Some(0)]);
}

#[test]
fn greedy_on_path_starts_at_greatest_degree() {
    let node_colors = solve_with_greedy(&greedy_graph(3, &[(0, 1), (1, 2)]));
    assert_eq!(greedy_colors(&node_colors), vec![Some(1), Some(0), Some(1)]);
}

#[test]
fn greedy_on_hard_graph_gives_known_coloring() {
    let node_colors = solve_with_greedy(&greedy_graph(7, &HARD_EDGES));
    assert_eq!(
        greedy_colors(&node_colors),
        vec![Some(1), Some(1), Some(0), Some(2), Some(0), Some(2), Some(3)]
    );
    assert_eq!(count_colors(&node_colors), 4);
}

#[test]
fn greedy_result_is_proper_and_total() {
    let node_colors = solve_with_greedy(&greedy_graph(7, &HARD_EDGES));
    assert_eq!(node_colors.len(), 7);
    assert!(greedy_is_coloring(&HARD_EDGES, &node_colors));
}

#[test]
fn greedy_uses_at_most_as_many_colors_as_nodes() {
    let complete: Vec<(usize, usize)> =
        (0..5).flat_map(|a| (a + 1..5).map(move |b| (a, b))).collect();
    let node_colors = solve_with_greedy(&greedy_graph(5, &complete));
    assert_eq!(count_colors(&node_colors), 5);
    assert!(greedy_is_coloring(&complete, &node_colors));
    let sparse = solve_with_greedy(&greedy_graph(7, &HARD_EDGES));
    assert!(count_colors(&sparse) <= 7);
}

#[test]
fn greedy_is_deterministic() {
    let first = solve_with_greedy(&greedy_graph(7, &HARD_EDGES));
    let second = solve_with_greedy(&greedy_graph(7, &HARD_EDGES));
    assert_eq!(greedy_colors(&first), greedy_colors(&second));
    let reordered: Vec<(usize, usize)> = HARD_EDGES.iter().rev().map(|(a, b)| (*b, *a)).collect();
    let third = solve_with_greedy(&greedy_graph(7, &reordered));
    assert_eq!(greedy_colors(&first), greedy_colors(&third));
}

#[test]
fn greedy_choice_prefers_saturation() {
    let graph = greedy_graph(4, &[(0, 1), (0, 2), (0, 3), (1, 2)]);
    let degrees = get_node_degrees(&graph);
    let node_colors = greedy_assignment(&[Some(0), Some(1), None, None]);
    // Node 2 sees colors 0 and 1, node 3 only color 0.
    assert_eq!(find_node_with_greedy_choice(&graph, &degrees, &node_colors), 2);
}

#[test]
fn greedy_choice_breaks_saturation_ties_by_degree() {
    let graph = greedy_graph(5, &[(0, 1), (0, 2), (2, 3), (2, 4)]);
    let degrees = get_node_degrees(&graph);
    let node_colors = greedy_assignment(&[Some(0), None, None, None, None]);
    // Nodes 1 and 2 both see color 0; node 2 has degree 3, node 1 degree 1.
    assert_eq!(find_node_with_greedy_choice(&graph, &degrees, &node_colors), 2);
}

#[test]
fn greedy_choice_breaks_remaining_ties_by_lowest_id() {
    let graph = greedy_graph(4, &[(0, 1), (0, 2), (0, 3)]);
    let degrees = get_node_degrees(&graph);
    let node_colors = greedy_assignment(&[Some(0), None, None, None]);
    assert_eq!(find_node_with_greedy_choice(&graph, &degrees, &node_colors), 1);
    let later = greedy_assignment(&[Some(0), Some(1), None, None]);
    assert_eq!(find_node_with_greedy_choice(&graph, &degrees, &later), 2);
}

#[test]
fn greedy_choice_with_nothing_colored_is_greatest_degree() {
    let graph = greedy_graph(4, &[(1, 2), (2, 3)]);
    let degrees = get_node_degrees(&graph);
    let node_colors = ColorAssignment::new(4);
    assert_eq!(find_node_with_greedy_choice(&graph, &degrees, &node_colors), 2);
}

#[test]
fn smallest_color_skips_neighbor_colors() {
    let graph = greedy_graph(4, &[(0, 1), (0, 2), (0, 3)]);
    let node_colors = greedy_assignment(&[None, Some(0), Some(1), Some(3)]);
    assert_eq!(get_smallest_color_for_node(&graph, 0, &node_colors, 4), Some(2));
    assert_eq!(get_smallest_color_for_node(&graph, 1, &node_colors, 4), Some(0));
}

#[test]
fn smallest_color_may_be_the_first_new_one() {
    let graph = greedy_graph(3, &[(0, 1), (0, 2)]);
    let node_colors = greedy_assignment(&[None, Some(0), Some(1)]);
    assert_eq!(get_smallest_color_for_node(&graph, 0, &node_colors, 2), Some(2));
}

#[test]
fn smallest_color_is_none_when_all_up_to_the_count_are_taken() {
    let graph = greedy_graph(3, &[(0, 1), (0, 2)]);
    let node_colors = greedy_assignment(&[None, Some(0), Some(1)]);
    assert_eq!(get_smallest_color_for_node(&graph, 0, &node_colors, 1), None);
    assert_eq!(get_smallest_color_for_node(&graph, 0, &node_colors, 0), None);
}

#[test]
fn most_saturated_node_goes_by_set_sizes() {
    let degrees = vec![1, 1, 1, 1];
    let node_colors = ColorAssignment::new(4);
    let sets = vec![
        HashSet::from([0]),
        HashSet::from([0, 1]),
        HashSet::from([2, 5]),
        HashSet::new(),
    ];
    assert_eq!(find_most_saturated_node(&degrees, &node_colors, &sets), 1);
}

#[test]
fn most_saturated_node_breaks_ties_by_degree_then_id() {
    let node_colors = ColorAssignment::new(4);
    let sets = vec![HashSet::from([3]); 4];
    assert_eq!(find_most_saturated_node(&vec![1, 4, 2, 4], &node_colors, &sets), 1);
    assert_eq!(find_most_saturated_node(&vec![2, 2, 2, 2], &node_colors, &sets), 0);
}

#[test]
fn most_saturated_node_skips_colored_nodes() {
    let node_colors = greedy_assignment(&[None, Some(0), None]);
    let sets = vec![HashSet::new(), HashSet::from([1, 2, 3]), HashSet::from([0])];
    assert_eq!(find_most_saturated_node(&vec![1, 9, 1], &node_colors, &sets), 2);
}

#[test]
fn smallest_color_outside_a_set() {
    assert_eq!(smallest_color_outside(&HashSet::new(), 0), Some(0));
    assert_eq!(smallest_color_outside(&HashSet::from([0, 1, 3]), 5), Some(2));
    assert_eq!(smallest_color_outside(&HashSet::from([1, 2]), 5), Some(0));
    assert_eq!(smallest_color_outside(&HashSet::from([0, 1, 2]), 3), Some(3));
    assert_eq!(smallest_color_outside(&HashSet::from([0, 1, 2]), 2), None);
    assert_eq!(smallest_color_outside(&HashSet::from([0]), 0), None);
}

#[test]
fn greedy_on_larger_graph_matches_step_by_step_choice() {
    // Every step of the solver must agree with the choice and the first fit
    // computed from scratch.
    let edges = [
        (0, 1), (0, 4), (0, 5), (1, 2), (1, 6), (2, 3), (2, 7), (3, 4), (3, 8), (4, 9),
        (5, 7), (5, 8), (6, 8), (6, 9), (7, 9), (10, 0), (10, 6), (11, 10), (11, 3),
    ];
    let graph = greedy_graph(12, &edges);
    let degrees = get_node_degrees(&graph);
    let mut node_colors = ColorAssignment::new(12);
    let mut palette = 0;
    for _ in 0..12 {
        let node = find_node_with_greedy_choice(&graph, &degrees, &node_colors);
        let color = get_smallest_color_for_node(&graph, node, &node_colors, palette)
            .expect("a color up to the count is free");
        node_colors.insert(node, color);
        if color == palette {
            palette += 1;
        }
    }
    let solved = solve_with_greedy(&graph);
    assert_eq!(greedy_colors(&solved), greedy_colors(&node_colors));
    assert!(greedy_is_coloring(&edges, &solved));
    assert_eq!(count_colors(&solved), palette);
}
