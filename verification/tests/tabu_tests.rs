use graph_coloring::coloring::{count_colors, ColorAssignment};
use graph_coloring::graph::{build_graph, Graph};
use graph_coloring::greedy::solve_with_greedy;
use graph_coloring::tabu::{
    count_conflicts_for_node_color, count_total_conflicts, expire_tabu_entries,
    find_best_neighbor, fix_conflicts_with_tabu_search, generate_neighboring_node_colors,
    is_move_tabu, reduce_node_colors, solve_with_tabu_search, tabu_expiration_tick, tabu_tick,
    JitterSource, SeededJitter, TabuEntry, ALPHA, G, MAX_TABU_ITERATION_COUNT,
};

/// A jitter source that always gives the same delay, cut to the range asked for.
struct FixedJitter {
    delay: usize,
    draws: usize,
}

impl JitterSource for FixedJitter {
    fn next_jitter(&mut self, upper: usize) -> usize {
        self.draws += 1;
        self.delay.clamp(1, upper)
    }
}

fn fixed(delay: usize) -> FixedJitter {
    FixedJitter { delay, draws: 0 }
}

fn tabu_graph(node_total: usize, edges: &[(usize, usize)]) -> Graph {
    build_graph(node_total, &edges.to_vec()).expect("valid graph")
}

fn tabu_assignment(colors: &[usize]) -> ColorAssignment {
    let mut node_colors = ColorAssignment::new(colors.len());
    for (node, color) in colors.iter().enumerate() {
        node_colors.insert(node, *color);
    }
    node_colors
}

fn tabu_colors(node_colors: &ColorAssignment) -> Vec<usize> {
    (0..node_colors.len()).map(|node| node_colors.get(node).expect("colored node")).collect()
}

fn tabu_is_coloring(edges: &[(usize, usize)], node_colors: &ColorAssignment) -> bool {
    node_colors.is_total()
        && edges.iter().all(|(a, b)| node_colors.get(*a) != node_colors.get(*b))
}

fn entry(node: usize, color: usize, expires: u64) -> TabuEntry {
    TabuEntry { node, color, expires }
}

fn entries(tabu_list: &[TabuEntry]) -> Vec<(usize, usize, u64)> {
    tabu_list.iter().map(|e| (e.node, e.color, e.expires)).collect()
}

const TRIANGLE: [(usize, usize); 3] = [(0, 1), (1, 2), (2, 0)];

const STAR: [(usize, usize); 3] = [(0, 1), (0, 2), (0, 3)];

const FIVE_CYCLE: [(usize, usize); 5] = [(0, 1), (1, 2), (2, 3), (3, 4), (4, 0)];

const HARD: [(usize, usize); 11] = [
    (0, 2),
    (0, 3),
    (0, 5),
    (1, 2),
    (1, 4),
    (1, 6),
    (2, 3),
    (2, 5),
    (3, 4),
    (4, 6),
    (5, 6),
];

#[test]
fn tabu_constants() {
    assert_eq!(MAX_TABU_ITERATION_COUNT, 128);
    assert_eq!(ALPHA, 2);
    assert_eq!(G, 10);
}

#[test]
fn conflicts_for_node_color_count_neighbors_of_that_color() {
    let graph = tabu_graph(4, &STAR);
    let node_colors = tabu_assignment(&[0, 1, 1, 2]);
    assert_eq!(count_conflicts_for_node_color(&graph, 0, 1, &node_colors), 2);
    assert_eq!(count_conflicts_for_node_color(&graph, 0, 2, &node_colors), 1);
    assert_eq!(count_conflicts_for_node_color(&graph, 0, 0, &node_colors), 0);
    assert_eq!(count_conflicts_for_node_color(&graph, 0, 7, &node_colors), 0);
    // A leaf has the center as its only neighbor.
    assert_eq!(count_conflicts_for_node_color(&graph, 1, 0, &node_colors), 1);
    assert_eq!(count_conflicts_for_node_color(&graph, 1, 1, &node_colors), 0);
}

#[test]
fn conflicts_for_node_color_ignore_the_node_itself() {
    let graph = tabu_graph(3, &TRIANGLE);
    let node_colors = tabu_assignment(&[0, 0, 0]);
    assert_eq!(count_conflicts_for_node_color(&graph, 1, 0, &node_colors), 2);
}

#[test]
fn total_conflicts_count_each_edge_once() {
    let triangle = tabu_graph(3, &TRIANGLE);
    assert_eq!(count_total_conflicts(&triangle, &tabu_assignment(&[0, 0, 0])), 3);
    assert_eq!(count_total_conflicts(&triangle, &tabu_assignment(&[0, 1, 0])), 1);
    assert_eq!(count_total_conflicts(&triangle, &tabu_assignment(&[0, 1, 2])), 0);
    let path = tabu_graph(3, &[(0, 1), (1, 2)]);
    assert_eq!(count_total_conflicts(&path, &tabu_assignment(&[0, 0, 0])), 2);
    assert_eq!(count_total_conflicts(&path, &tabu_assignment(&[1, 0, 1])), 0);
}

#[test]
fn total_conflicts_of_empty_graph_are_zero() {
    let empty = tabu_graph(0, &[]);
    assert_eq!(count_total_conflicts(&empty, &ColorAssignment::new(0)), 0);
}

#[test]
fn reduce_moves_top_color_to_least_conflicting_color() {
    let graph = tabu_graph(5, &[(0, 1), (0, 2), (0, 3), (0, 4), (1, 2)]);
    // Node 0 has one neighbor of color 0, two of color 1 and one of color 2.
    let reduced = reduce_node_colors(&graph, &tabu_assignment(&[3, 0, 1, 1, 2]));
    assert_eq!(tabu_colors(&reduced), vec![0, 0, 1, 1, 2]);
}

#[test]
fn reduce_breaks_ties_by_lowest_color() {
    let graph = tabu_graph(5, &[(0, 1), (0, 2), (0, 3), (0, 4), (1, 2)]);
    // Colors 0 and 1 both give node 0 one conflict, color 2 gives two.
    let reduced = reduce_node_colors(&graph, &tabu_assignment(&[3, 0, 1, 2, 2]));
    assert_eq!(tabu_colors(&reduced), vec![0, 0, 1, 2, 2]);
}

#[test]
fn reduce_moves_every_node_of_the_top_color() {
    let graph = tabu_graph(4, &STAR);
    let reduced = reduce_node_colors(&graph, &tabu_assignment(&[0, 1, 1, 1]));
    assert_eq!(tabu_colors(&reduced), vec![0, 0, 0, 0]);
    assert_eq!(count_colors(&reduced), 1);
}

#[test]
fn reduce_of_greedy_coloring_on_five_cycle() {
    let graph = tabu_graph(5, &FIVE_CYCLE);
    let greedy = solve_with_greedy(&graph);
    assert_eq!(tabu_colors(&greedy), vec![0, 1, 0, 1, 2]);
    let reduced = reduce_node_colors(&graph, &greedy);
    assert_eq!(tabu_colors(&reduced), vec![0, 1, 0, 1, 0]);
    assert_eq!(count_total_conflicts(&graph, &reduced), 1);
}

#[test]
fn reduce_of_greedy_coloring_on_hard_graph() {
    let graph = tabu_graph(7, &HARD);
    let reduced = reduce_node_colors(&graph, &solve_with_greedy(&graph));
    assert_eq!(tabu_colors(&reduced), vec![1, 1, 0, 2, 0, 2, 0]);
    assert_eq!(count_colors(&reduced), 3);
    assert_eq!(count_total_conflicts(&graph, &reduced), 1);
}

#[test]
fn move_is_tabu_when_listed() {
    let tabu_list = vec![entry(0, 1, 5), entry(2, 0, 9)];
    assert!(is_move_tabu(&tabu_list, 0, 1));
    assert!(is_move_tabu(&tabu_list, 2, 0));
    assert!(!is_move_tabu(&tabu_list, 1, 0));
    assert!(!is_move_tabu(&tabu_list, 0, 0));
    assert!(!is_move_tabu(&tabu_list, 2, 1));
    assert!(!is_move_tabu(&Vec::new(), 0, 0));
}

#[test]
fn neighboring_node_colors_pair_nodes_with_other_colors() {
    let node_colors = tabu_assignment(&[0, 0, 0]);
    assert_eq!(
        generate_neighboring_node_colors(&node_colors, &Vec::new(), 2),
        vec![(0, 1), (1, 1), (2, 1)]
    );
    let mixed = tabu_assignment(&[1, 0]);
    assert_eq!(
        generate_neighboring_node_colors(&mixed, &Vec::new(), 3),
        vec![(0, 0), (0, 2), (1, 1), (1, 2)]
    );
}

#[test]
fn neighboring_node_colors_leave_out_tabu_moves() {
    let node_colors = tabu_assignment(&[0, 1, 1, 1]);
    let tabu_list = vec![entry(0, 1, 3), entry(2, 0, 4)];
    assert_eq!(
        generate_neighboring_node_colors(&node_colors, &tabu_list, 2),
        vec![(1, 0), (3, 0)]
    );
}

#[test]
fn neighboring_node_colors_of_one_color_palette_are_none() {
    let node_colors = tabu_assignment(&[0, 0, 0]);
    assert!(generate_neighboring_node_colors(&node_colors, &Vec::new(), 1).is_empty());
    assert!(generate_neighboring_node_colors(&node_colors, &Vec::new(), 0).is_empty());
}

#[test]
fn neighboring_node_colors_skip_uncolored_nodes() {
    let mut node_colors = ColorAssignment::new(3);
    node_colors.insert(1, 0);
    assert_eq!(generate_neighboring_node_colors(&node_colors, &Vec::new(), 2), vec![(1, 1)]);
}

#[test]
fn neighboring_node_colors_on_hard_graph() {
    let node_colors = tabu_assignment(&[1, 1, 0, 2, 0, 2, 0]);
    let candidates = generate_neighboring_node_colors(&node_colors, &Vec::new(), 3);
    assert_eq!(candidates.len(), 14);
    assert_eq!(candidates[..6], [(0, 0), (0, 2), (1, 0), (1, 2), (2, 1), (2, 2)]);
}

#[test]
fn best_neighbor_is_first_of_the_least_conflicting() {
    let graph = tabu_graph(3, &[(0, 1), (1, 2)]);
    let node_colors = tabu_assignment(&[0, 0, 0]);
    let candidates = vec![(0, 1), (1, 1), (2, 1)];
    // Moving an end leaves one conflict, moving the middle none.
    assert_eq!(find_best_neighbor(&graph, &node_colors, &candidates, 2), Some((1, 0)));
    let ends = vec![(0, 1), (2, 1)];
    assert_eq!(find_best_neighbor(&graph, &node_colors, &ends, 2), Some((0, 1)));
}

#[test]
fn best_neighbor_may_leave_more_conflicts() {
    let graph = tabu_graph(3, &TRIANGLE);
    let node_colors = tabu_assignment(&[0, 1, 2]);
    let candidates = vec![(0, 1), (0, 2)];
    assert_eq!(find_best_neighbor(&graph, &node_colors, &candidates, 0), Some((0, 1)));
}

#[test]
fn best_neighbor_on_hard_graph() {
    let graph = tabu_graph(7, &HARD);
    let node_colors = tabu_assignment(&[1, 1, 0, 2, 0, 2, 0]);
    let candidates = generate_neighboring_node_colors(&node_colors, &Vec::new(), 3);
    assert_eq!(find_best_neighbor(&graph, &node_colors, &candidates, 1), Some((3, 1)));
    assert_eq!(candidates[3], (1, 2));
}

#[test]
fn best_neighbor_of_no_candidates_is_none() {
    let graph = tabu_graph(3, &TRIANGLE);
    let node_colors = tabu_assignment(&[0, 0, 0]);
    assert_eq!(find_best_neighbor(&graph, &node_colors, &Vec::new(), 3), None);
}

#[test]
fn expiration_tick_adds_conflicts_twice_and_jitter() {
    assert_eq!(tabu_expiration_tick(3, 4, 5), 16);
    assert_eq!(tabu_expiration_tick(0, 0, 1), 1);
    assert_eq!(tabu_expiration_tick(127, 0, 10), 137);
    assert_eq!(tabu_expiration_tick(10, 100, 1), 211);
}

#[test]
fn expire_removes_entries_of_the_tick_only() {
    let tabu_list = vec![entry(0, 1, 5), entry(1, 0, 7), entry(2, 1, 5), entry(3, 0, 6)];
    assert_eq!(entries(&expire_tabu_entries(&tabu_list, 5)), vec![(1, 0, 7), (3, 0, 6)]);
    assert_eq!(
        entries(&expire_tabu_entries(&tabu_list, 4)),
        vec![(0, 1, 5), (1, 0, 7), (2, 1, 5), (3, 0, 6)]
    );
    assert!(expire_tabu_entries(&Vec::new(), 1).is_empty());
}

#[test]
fn fix_conflicts_returns_conflict_free_input_at_once() {
    let graph = tabu_graph(3, &[(0, 1), (1, 2)]);
    let mut jitter = fixed(3);
    let fixed_colors =
        fix_conflicts_with_tabu_search(&graph, &tabu_assignment(&[1, 0, 1]), 2, &mut jitter);
    assert_eq!(tabu_colors(&fixed_colors.expect("no conflicts")), vec![1, 0, 1]);
    assert_eq!(jitter.draws, 0);
}

#[test]
fn fix_conflicts_repairs_path() {
    let graph = tabu_graph(3, &[(0, 1), (1, 2)]);
    let mut jitter = fixed(3);
    let fixed_colors =
        fix_conflicts_with_tabu_search(&graph, &tabu_assignment(&[0, 0, 0]), 2, &mut jitter);
    assert_eq!(tabu_colors(&fixed_colors.expect("repairable")), vec![0, 1, 0]);
    assert_eq!(jitter.draws, 1);
}

#[test]
fn fix_conflicts_repairs_hard_graph_in_two_moves() {
    let graph = tabu_graph(7, &HARD);
    let mut jitter = fixed(1);
    let fixed_colors = fix_conflicts_with_tabu_search(
        &graph,
        &tabu_assignment(&[1, 1, 0, 2, 0, 2, 0]),
        3,
        &mut jitter,
    );
    assert_eq!(tabu_colors(&fixed_colors.expect("repairable")), vec![1, 2, 0, 2, 1, 2, 0]);
    assert_eq!(jitter.draws, 2);
}

#[test]
fn fix_conflicts_gives_up_on_triangle_with_two_colors() {
    let graph = tabu_graph(3, &TRIANGLE);
    for delay in [1, 5, 10] {
        let mut jitter = fixed(delay);
        let fixed_colors =
            fix_conflicts_with_tabu_search(&graph, &tabu_assignment(&[0, 1, 0]), 2, &mut jitter);
        assert!(fixed_colors.is_none());
        // It gives up only when every tick has been used.
        assert_eq!(jitter.draws, 128);
    }
}

#[test]
fn fix_conflicts_gives_up_with_a_single_color() {
    let graph = tabu_graph(2, &[(0, 1)]);
    let mut jitter = fixed(1);
    let fixed_colors =
        fix_conflicts_with_tabu_search(&graph, &tabu_assignment(&[0, 0]), 1, &mut jitter);
    assert!(fixed_colors.is_none());
    assert_eq!(jitter.draws, 128);
}

#[test]
fn fix_conflicts_never_brings_back_the_removed_color() {
    let graph = tabu_graph(5, &FIVE_CYCLE);
    let mut jitter = SeededJitter::new(11);
    let fixed_colors =
        fix_conflicts_with_tabu_search(&graph, &tabu_assignment(&[0, 1, 0, 1, 0]), 2, &mut jitter);
    // A five-cycle has no coloring with two colors.
    assert!(fixed_colors.is_none());
}

#[test]
fn seeded_jitter_stays_in_range() {
    let mut jitter = SeededJitter::new(42);
    for _ in 0..200 {
        let drawn = jitter.next_jitter(G);
        assert!(1 <= drawn && drawn <= G);
    }
    for _ in 0..20 {
        assert_eq!(jitter.next_jitter(1), 1);
    }
}

#[test]
fn seeded_jitter_draws_different_numbers() {
    let mut jitter = SeededJitter::new(42);
    let drawn: Vec<usize> = (0..200).map(|_| jitter.next_jitter(G)).collect();
    assert!(drawn.iter().any(|d| *d != G));
    assert!(drawn.iter().any(|d| *d != drawn[0]));
}

#[test]
fn seeded_jitter_repeats_for_the_same_seed() {
    let mut first = SeededJitter::new(7);
    let mut second = SeededJitter::new(7);
    for _ in 0..50 {
        assert_eq!(first.next_jitter(G), second.next_jitter(G));
    }
}

#[test]
fn tabu_search_on_no_nodes_is_empty() {
    let node_colors = solve_with_tabu_search(&tabu_graph(0, &[]), &mut SeededJitter::new(1));
    assert_eq!(node_colors.len(), 0);
    assert_eq!(count_colors(&node_colors), 0);
}

#[test]
fn tabu_search_on_single_node() {
    let node_colors = solve_with_tabu_search(&tabu_graph(1, &[]), &mut SeededJitter::new(1));
    assert_eq!(tabu_colors(&node_colors), vec![0]);
}

#[test]
fn tabu_search_on_single_edge() {
    let node_colors = solve_with_tabu_search(&tabu_graph(2, &[(0, 1)]), &mut SeededJitter::new(1));
    assert_eq!(count_colors(&node_colors), 2);
    assert_ne!(node_colors.get(0), node_colors.get(1));
}

#[test]
fn tabu_search_on_triangle_keeps_three_colors() {
    let node_colors = solve_with_tabu_search(&tabu_graph(3, &TRIANGLE), &mut SeededJitter::new(3));
    assert_eq!(tabu_colors(&node_colors), vec![0, 1, 2]);
}

#[test]
fn tabu_search_on_star_keeps_two_colors() {
    let node_colors = solve_with_tabu_search(&tabu_graph(4, &STAR), &mut SeededJitter::new(3));
    assert_eq!(count_colors(&node_colors), 2);
    assert_eq!(tabu_colors(&node_colors), vec![0, 1, 1, 1]);
}

#[test]
fn tabu_search_improves_on_greedy_where_it_can() {
    let graph = tabu_graph(7, &HARD);
    assert_eq!(count_colors(&solve_with_greedy(&graph)), 4);
    for seed in 0..5 {
        let node_colors = solve_with_tabu_search(&graph, &mut SeededJitter::new(seed));
        assert_eq!(tabu_colors(&node_colors), vec![1, 2, 0, 2, 1, 2, 0]);
        assert_eq!(count_colors(&node_colors), 3);
        assert!(tabu_is_coloring(&HARD, &node_colors));
    }
}

#[test]
fn tabu_search_never_uses_more_colors_than_greedy() {
    let graphs: Vec<(usize, Vec<(usize, usize)>)> = vec![
        (7, HARD.to_vec()),
        (5, FIVE_CYCLE.to_vec()),
        (4, STAR.to_vec()),
        (3, TRIANGLE.to_vec()),
        (6, vec![(0, 1), (1, 2), (2, 3), (3, 4), (4, 5), (5, 0), (0, 3)]),
    ];
    for (node_total, edges) in graphs {
        let graph = tabu_graph(node_total, &edges);
        let greedy = count_colors(&solve_with_greedy(&graph));
        for seed in [0, 1, 99] {
            let node_colors = solve_with_tabu_search(&graph, &mut SeededJitter::new(seed));
            assert_eq!(node_colors.len(), node_total);
            assert!(tabu_is_coloring(&edges, &node_colors));
            assert!(count_colors(&node_colors) <= greedy);
        }
    }
}

#[test]
fn tabu_search_is_reproducible_with_a_seed() {
    let graph = tabu_graph(7, &HARD);
    let first = solve_with_tabu_search(&graph, &mut SeededJitter::new(5));
    let second = solve_with_tabu_search(&graph, &mut SeededJitter::new(5));
    assert_eq!(tabu_colors(&first), tabu_colors(&second));
}

#[test]
fn fix_conflicts_succeeds_where_the_first_move_repairs_whatever_is_drawn() {
    let graph = tabu_graph(3, &[(0, 1), (1, 2)]);
    for delay in [1, 4, 10] {
        let mut jitter = fixed(delay);
        let fixed_colors =
            fix_conflicts_with_tabu_search(&graph, &tabu_assignment(&[0, 0, 1]), 2, &mut jitter);
        assert_eq!(tabu_colors(&fixed_colors.expect("one move repairs")), vec![1, 0, 1]);
        assert_eq!(jitter.draws, 1);
    }
    for seed in 0..10 {
        let mut jitter = SeededJitter::new(seed);
        let fixed_colors =
            fix_conflicts_with_tabu_search(&graph, &tabu_assignment(&[0, 0, 1]), 2, &mut jitter);
        assert_eq!(tabu_colors(&fixed_colors.expect("one move repairs")), vec![1, 0, 1]);
    }
}

#[test]
fn fix_conflicts_draws_once_for_each_tick() {
    let graph = tabu_graph(5, &FIVE_CYCLE);
    let mut jitter = fixed(2);
    let fixed_colors =
        fix_conflicts_with_tabu_search(&graph, &tabu_assignment(&[0, 1, 0, 1, 0]), 2, &mut jitter);
    assert!(fixed_colors.is_none());
    assert_eq!(jitter.draws, 128);
}

#[test]
fn tick_makes_the_best_move_and_lists_it() {
    let graph = tabu_graph(3, &[(0, 1), (1, 2)]);
    let mut node_colors = tabu_assignment(&[0, 0, 0]);
    let mut tabu_list = Vec::new();
    let left = tabu_tick(&graph, &mut node_colors, &mut tabu_list, 2, 0, 2, 3);
    assert_eq!(left, 0);
    assert_eq!(tabu_colors(&node_colors), vec![0, 1, 0]);
    assert_eq!(entries(&tabu_list), vec![(1, 1, 3)]);
}

#[test]
fn tick_sets_expiry_by_tick_conflicts_and_jitter() {
    let graph = tabu_graph(3, &TRIANGLE);
    let mut node_colors = tabu_assignment(&[0, 0, 0]);
    let mut tabu_list = Vec::new();
    // The first candidate, node 0 to color 1, leaves one conflict.
    let left = tabu_tick(&graph, &mut node_colors, &mut tabu_list, 2, 7, 3, 5);
    assert_eq!(left, 1);
    assert_eq!(tabu_colors(&node_colors), vec![1, 0, 0]);
    assert_eq!(entries(&tabu_list), vec![(0, 1, 7 + 2 * 1 + 5)]);
}

#[test]
fn tick_drops_entries_that_expire_at_the_next_tick() {
    let graph = tabu_graph(3, &[(0, 1), (1, 2)]);
    let mut node_colors = tabu_assignment(&[0, 0, 0]);
    let mut tabu_list = vec![entry(2, 1, 5), entry(0, 1, 9)];
    // The move of node 1 leaves no conflict and expires at tick 4 + 0 + 1.
    let left = tabu_tick(&graph, &mut node_colors, &mut tabu_list, 2, 4, 2, 1);
    assert_eq!(left, 0);
    assert_eq!(tabu_colors(&node_colors), vec![0, 1, 0]);
    assert_eq!(entries(&tabu_list), vec![(0, 1, 9)]);
}

#[test]
fn tick_never_makes_a_tabu_move() {
    let graph = tabu_graph(3, &[(0, 1), (1, 2)]);
    let mut node_colors = tabu_assignment(&[0, 0, 0]);
    let mut tabu_list = vec![entry(1, 1, 50)];
    let left = tabu_tick(&graph, &mut node_colors, &mut tabu_list, 2, 0, 2, 2);
    assert_eq!(left, 1);
    assert_eq!(tabu_colors(&node_colors), vec![1, 0, 0]);
    assert_eq!(entries(&tabu_list), vec![(1, 1, 50), (0, 1, 4)]);
}

#[test]
fn tick_without_candidate_makes_no_move() {
    let graph = tabu_graph(2, &[(0, 1)]);
    let mut node_colors = tabu_assignment(&[0, 0]);
    let mut tabu_list = vec![entry(0, 0, 1), entry(1, 0, 2)];
    let left = tabu_tick(&graph, &mut node_colors, &mut tabu_list, 1, 0, 1, 6);
    assert_eq!(left, 1);
    assert_eq!(tabu_colors(&node_colors), vec![0, 0]);
    assert_eq!(entries(&tabu_list), vec![(1, 0, 2)]);
}

#[test]
fn reduce_leaves_a_one_color_assignment_as_it_is() {
    let graph = tabu_graph(3, &[(0, 1)]);
    let reduced = reduce_node_colors(&graph, &tabu_assignment(&[0, 0, 0]));
    assert_eq!(tabu_colors(&reduced), vec![0, 0, 0]);
    let empty = reduce_node_colors(&tabu_graph(0, &[]), &ColorAssignment::new(0));
    assert_eq!(empty.len(), 0);
}

#[test]
fn reduce_does_not_change_its_argument() {
    let graph = tabu_graph(4, &STAR);
    let node_colors = tabu_assignment(&[0, 1, 1, 1]);
    let reduced = reduce_node_colors(&graph, &node_colors);
    assert_eq!(tabu_colors(&node_colors), vec![0, 1, 1, 1]);
    assert_eq!(tabu_colors(&reduced), vec![0, 0, 0, 0]);
}
