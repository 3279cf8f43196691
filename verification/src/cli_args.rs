//! What a caller selects: the algorithm to run, by its name on the command
//! line, and the options that go with it.

use crate::branch_and_bound::{is_optimal_coloring, solve_with_branch_and_bound};
use crate::coloring::{color_count, is_coloring, ColorAssignment};
use crate::graph::{simple_graph, Graph};
use crate::greedy::{greedy_coloring, solve_with_greedy};
use crate::tabu::{is_refinement, solve_with_tabu_search, JitterSource};
use vstd::prelude::*;
use vstd::string::*;

verus! {

/// The coloring algorithms.
#[derive(Clone, Copy, Debug, PartialEq, Eq, Structural)]
pub enum Algorithm {
    Greedy,
    BranchAndBound,
    Tabu,
}

/// The algorithm that a name stands for: `glouton`, `branch_bound` and `tabou`
/// are the names, anything else is none.
pub open spec fn algorithm_named(name: Seq<char>) -> Option<Algorithm> {
    if name == "glouton"@ {
        Some(Algorithm::Greedy)
    } else if name == "branch_bound"@ {
        Some(Algorithm::BranchAndBound)
    } else if name == "tabou"@ {
        Some(Algorithm::Tabu)
    } else {
        None
    }
}

impl std::str::FromStr for Algorithm {
    type Err = String;

    /// Reads the name of an algorithm. A name that stands for none gives the
    /// message `Could not parse algorithm: ` followed by the name.
    fn from_str(algorithm: &str) -> (parsed: Result<Self, String>)
        ensures
            match algorithm_named(algorithm@) {
                Some(found) => parsed == Ok::<Algorithm, String>(found),
                None => parsed matches Err(message) && message@ == "Could not parse algorithm: "@
                    + algorithm@,
            },
    {
        let name = algorithm.to_owned();
        if name == "glouton".to_owned() {
            Ok(Algorithm::Greedy)
        } else if name == "branch_bound".to_owned() {
            Ok(Algorithm::BranchAndBound)
        } else if name == "tabou".to_owned() {
            Ok(Algorithm::Tabu)
        } else {
            Err("Could not parse algorithm: ".to_owned().concat(algorithm))
        }
    }
}

/// The options of a run.
pub struct Cli {
    /// The coloring algorithm to use.
    pub algorithm: Algorithm,
    /// Path to the file that holds the graph.
    pub filename: String,
    /// Prints the solution.
    pub show_result: bool,
    /// Prints the execution time.
    pub show_exec_time: bool,
}

/// Colors a graph with the algorithm selected. Whichever it is, the result is
/// a coloring of the graph with at most as many colors as the greedy coloring.
/// The greedy algorithm gives the greedy coloring itself, branch and bound a
/// coloring with the fewest colors possible, and tabu search what its repairs
/// make of the greedy coloring.
pub fn solve<J: JitterSource>(
    algorithm: Algorithm,
    graph: &Graph,
    jitter_source: &mut J,
) -> (node_colors: ColorAssignment)
    requires
        simple_graph(*graph),
    ensures
        is_coloring(*graph, node_colors@),
        color_count(node_colors@) <= color_count(greedy_coloring(*graph)),
        algorithm == Algorithm::Greedy ==> node_colors@ == greedy_coloring(*graph),
        algorithm == Algorithm::BranchAndBound ==> is_optimal_coloring(*graph, node_colors@),
        algorithm == Algorithm::Tabu ==> is_refinement(*graph, node_colors@),
{
    match algorithm {
        Algorithm::Greedy => solve_with_greedy(graph),
        Algorithm::BranchAndBound => solve_with_branch_and_bound(graph),
        Algorithm::Tabu => solve_with_tabu_search(graph, jitter_source),
    }
}

} // verus!
