use graph_coloring::branch_and_bound::{extend_node_colors, solve_with_branch_and_bound};
use graph_coloring::coloring::{count_colors, ColorAssignment};
use graph_coloring::graph::{build_graph, get_node_degrees, Graph};
use graph_coloring::greedy::solve_with_greedy;

fn exact_graph(node_total: usize, edges: &[(usize, usize)]) -> Graph {
    build_graph(node_total, &edges.to_vec()).expect("valid graph")
}

fn exact_is_coloring(edges: &[(usize, usize)], node_colors: &ColorAssignment) -> bool {
    node_colors.is_total()
        && edges.iter().all(|(a, b)| node_colors.get(*a) != node_colors.get(*b))
}

fn exact_count(node_total: usize, edges: &[(usize, usize)]) -> usize {
    let node_colors = solve_with_branch_and_bound(&exact_graph(node_total, edges));
    assert_eq!(node_colors.len(), node_total);
    assert!(exact_is_coloring(edges, &node_colors));
    count_colors(&node_colors)
}

const HARD_GRAPH: [(usize, usize); 11] = [
    (0, 2),
    (0, 3),
    (0, 5),
    (1, 2),
    (1, 4),
    (1, 6),
    (2, 3),
    (2, 5),
    (3, 4),
    (4, 6),
    (5, 6),
];

const PETERSEN: [(usize, usize); 15] = [
    (0, 1),
    (1, 2),
    (2, 3),
    (3, 4),
    (4, 0),
    (0, 5),
    (1, 6),
    (2, 7),
    (3, 8),
    (4, 9),
    (5, 7),
    (7, 9),
    (9, 6),
    (6, 8),
    (8, 5),
];

#[test]
fn branch_and_bound_on_no_nodes_is_empty() {
    let node_colors = solve_with_branch_and_bound(&exact_graph(0, &[]));
    assert_eq!(node_colors.len(), 0);
    assert_eq!(count_colors(&node_colors), 0);
}

#[test]
fn branch_and_bound_on_single_node() {
    assert_eq!(exact_count(1, &[]), 1);
}

#[test]
fn branch_and_bound_on_edgeless_graph() {
    assert_eq!(exact_count(5, &[]), 1);
}

#[test]
fn branch_and_bound_on_single_edge() {
    let node_colors = solve_with_branch_and_bound(&exact_graph(2, &[(0, 1)]));
    assert_eq!(count_colors(&node_colors), 2);
    assert_ne!(node_colors.get(0), node_colors.get(1));
}

#[test]
fn branch_and_bound_on_triangle() {
    assert_eq!(exact_count(3, &[(0, 1), (1, 2), (2, 0)]), 3);
}

#[test]
fn branch_and_bound_on_star() {
    assert_eq!(exact_count(4, &[(0, 1), (0, 2), (0, 3)]), 2);
}

#[test]
fn branch_and_bound_on_five_cycle() {
    assert_eq!(exact_count(5, &[(0, 1), (1, 2), (2, 3), (3, 4), (4, 0)]), 3);
}

#[test]
fn branch_and_bound_on_complete_graph_of_four() {
    assert_eq!(exact_count(4, &[(0, 1), (0, 2), (0, 3), (1, 2), (1, 3), (2, 3)]), 4);
}

#[test]
fn branch_and_bound_on_bipartite_graphs() {
    assert_eq!(exact_count(6, &[(0, 1), (1, 2), (2, 3), (3, 4), (4, 5), (5, 0)]), 2);
    let complete_bipartite: Vec<(usize, usize)> =
        (0..3).flat_map(|a| (3..6).map(move |b| (a, b))).collect();
    assert_eq!(exact_count(6, &complete_bipartite), 2);
    assert_eq!(exact_count(5, &[(0, 4), (4, 1), (1, 3), (3, 2)]), 2);
}

#[test]
fn branch_and_bound_on_petersen_graph() {
    assert_eq!(exact_count(10, &PETERSEN), 3);
}

#[test]
fn branch_and_bound_on_wheel_of_six() {
    // A hub joined to a five-cycle needs four colors.
    let wheel = [(0, 1), (1, 2), (2, 3), (3, 4), (4, 0), (5, 0), (5, 1), (5, 2), (5, 3), (5, 4)];
    assert_eq!(exact_count(6, &wheel), 4);
}

#[test]
fn branch_and_bound_beats_greedy_where_greedy_is_not_optimal() {
    let graph = exact_graph(7, &HARD_GRAPH);
    assert_eq!(count_colors(&solve_with_greedy(&graph)), 4);
    assert_eq!(exact_count(7, &HARD_GRAPH), 3);
}

#[test]
fn branch_and_bound_never_uses_more_colors_than_greedy() {
    let graphs: Vec<(usize, Vec<(usize, usize)>)> = vec![
        (7, HARD_GRAPH.to_vec()),
        (10, PETERSEN.to_vec()),
        (4, vec![(0, 1), (0, 2), (0, 3)]),
        (6, vec![(0, 1), (2, 3), (4, 5)]),
    ];
    for (node_total, edges) in graphs {
        let graph = exact_graph(node_total, &edges);
        let exact = count_colors(&solve_with_branch_and_bound(&graph));
        let greedy = count_colors(&solve_with_greedy(&graph));
        assert!(exact <= greedy);
        assert!(greedy <= node_total);
    }
}

#[test]
fn branch_and_bound_keeps_greedy_when_it_is_optimal() {
    let graph = exact_graph(3, &[(0, 1), (1, 2)]);
    let exact = solve_with_branch_and_bound(&graph);
    let greedy = solve_with_greedy(&graph);
    for node in 0..3 {
        assert_eq!(exact.get(node), greedy.get(node));
    }
}

#[test]
fn branch_and_bound_is_deterministic() {
    let first = solve_with_branch_and_bound(&exact_graph(10, &PETERSEN));
    let second = solve_with_branch_and_bound(&exact_graph(10, &PETERSEN));
    for node in 0..10 {
        assert_eq!(first.get(node), second.get(node));
    }
}

fn exact_assignment(colors: &[Option<usize>]) -> ColorAssignment {
    let mut node_colors = ColorAssignment::new(colors.len());
    for (node, color) in colors.iter().enumerate() {
        if let Some(color) = color {
            node_colors.insert(node, *color);
        }
    }
    node_colors
}

fn exact_children(
    node_total: usize,
    edges: &[(usize, usize)],
    colors: &[Option<usize>],
) -> Vec<Vec<Option<usize>>> {
    let graph = exact_graph(node_total, edges);
    let degrees = get_node_degrees(&graph);
    extend_node_colors(&graph, &degrees, &exact_assignment(colors))
        .iter()
        .map(|child| (0..child.len()).map(|node| child.get(node)).collect())
        .collect()
}

#[test]
fn extend_gives_one_child_for_each_free_color_in_increasing_order() {
    // Node 2 is chosen; its neighbor has color 0, colors 0 and 1 are in use.
    let children = exact_children(4, &[(0, 1), (0, 2), (0, 3)], &[Some(0), Some(1), None, None]);
    assert_eq!(
        children,
        vec![
            vec![Some(0), Some(1), Some(1), None],
            vec![Some(0), Some(1), Some(2), None],
        ]
    );
}

#[test]
fn extend_opens_only_the_first_new_color() {
    let children = exact_children(3, &[(0, 1), (1, 2)], &[None, Some(0), None]);
    assert_eq!(children, vec![vec![Some(1), Some(0), None]]);
}

#[test]
fn extend_offers_colors_in_use_to_a_node_without_colored_neighbors() {
    let children = exact_children(3, &[], &[Some(0), None, None]);
    assert_eq!(
        children,
        vec![vec![Some(0), Some(0), None], vec![Some(0), Some(1), None]]
    );
}

#[test]
fn extend_chooses_the_most_saturated_node() {
    // Node 3 sees colors 0 and 1, nodes 2 and 4 see one color each.
    let edges = [(0, 2), (0, 3), (1, 3), (1, 4)];
    let children = exact_children(5, &edges, &[Some(0), Some(1), None, None, None]);
    assert_eq!(children, vec![vec![Some(0), Some(1), None, Some(2), None]]);
}

#[test]
fn extend_takes_an_assignment_with_a_large_color_id() {
    let children = exact_children(2, &[(0, 1)], &[Some(70000), None]);
    // Every color up to the first new one but that of the neighbor.
    assert_eq!(children.len(), 70001);
    assert_eq!(children[0], vec![Some(70000), Some(0)]);
    assert_eq!(children[69999], vec![Some(70000), Some(69999)]);
    assert_eq!(children[70000], vec![Some(70000), Some(70001)]);
}
