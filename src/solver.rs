//! A heuristic and a cost policy bound to a goal: scores nodes and checks solvability.

use vstd::prelude::*;
use crate::checker::{is_solvable, solvable};
use crate::grid::{
    Flag, MAX_SIZE, is_arrangement, is_inverse, is_valid_arrangement, same_text, same_tiles, size_ok,
    swap_indexes,
};
use crate::heuristic::{
    Heuristic, costs_match, heuristic_value, lemma_heuristic_bounds, lemma_zero_iff_goal,
    linear_conflict, manhattan, misplaced_tiles, out_of_axes, partial_conflict, partial_manhattan,
    partial_misplaced, partial_out_of_axes, H_MAX,
};
use crate::node::{Node, MAX_DEPTH};

verus! {

/// The heuristic a name selects: "misplaced", "axes", "conflict", and Manhattan distance
/// for any other name.
pub open spec fn heuristic_named(name: Seq<char>) -> Heuristic {
    if name == "misplaced"@ {
        Heuristic::Misplaced
    } else if name == "axes"@ {
        Heuristic::OutOfAxes
    } else if name == "conflict"@ {
        Heuristic::LinearConflict
    } else {
        Heuristic::Manhattan
    }
}

impl Heuristic {
    /// The heuristic that `name` selects.
    pub fn from_name(name: &str) -> (r: Heuristic)
        ensures
            r == heuristic_named(name@),
    {
        if same_text(name, "misplaced") {
            Heuristic::Misplaced
        } else if same_text(name, "axes") {
            Heuristic::OutOfAxes
        } else if same_text(name, "conflict") {
            Heuristic::LinearConflict
        } else {
            Heuristic::Manhattan
        }
    }
}

/// The goal, its inverse lookup, the heuristic and the cost policy of a search.
pub struct Solver {
    /// Name of the heuristic, as given.
    pub name: String,
    /// The goal arrangement.
    pub goal: Vec<usize>,
    /// For each tile id, its cell in the goal.
    pub end: Vec<usize>,
    pub size: usize,
    pub heuristic: Heuristic,
    /// `greedy`: f = h; `uniform`: f = g; neither: f = g + h.
    pub flag: Flag,
}

impl Solver {
    /// The goal is a valid arrangement and `end` is its inverse.
    pub open spec fn well_formed(&self) -> bool {
        &&& size_ok(self.size as int)
        &&& is_arrangement(self.goal@, self.size as int)
        &&& is_inverse(self.end@, self.goal@)
    }

    /// `h` of a node under this solver's policy.
    pub open spec fn estimate(&self, s: Seq<usize>) -> int {
        if self.flag.uniform {
            if s == self.goal@ {
                0
            } else {
                1
            }
        } else {
            heuristic_value(self.heuristic, s, self.end@, self.size as int)
        }
    }

    /// `f` and `t` follow the policy: A* f = g + h and t = h; greedy f = h and t = g;
    /// uniform f = g.
    pub open spec fn priority_ok(&self, node: Node) -> bool {
        if self.flag.uniform {
            node.f == node.g
        } else if self.flag.greedy {
            node.f == node.h && node.t == node.g
        } else {
            node.f == node.g + node.h && node.t == node.h
        }
    }

    /// The node's estimate, cost vector and priority are those of this solver.
    pub open spec fn scored(&self, node: Node) -> bool {
        &&& node.well_formed(self.size as int)
        &&& node.h == self.estimate(node.map@)
        &&& !self.flag.uniform ==> costs_match(
            self.heuristic,
            node.cost@,
            node.map@,
            self.end@,
            self.size as int,
        )
        &&& self.priority_ok(node)
        &&& node.g <= MAX_DEPTH
    }

    /// A solver for `goal` on a grid of side `size`, with the heuristic that `name`
    /// selects and the policy of `flag`.
    pub fn new(goal: Vec<usize>, size: usize, name: &str, flag: Flag) -> (r: Solver)
        requires
            size_ok(size as int),
            is_arrangement(goal@, size as int),
        ensures
            r.well_formed(),
            r.goal@ == goal@,
            r.size == size,
            r.heuristic == heuristic_named(name@),
            r.name@ == name@,
            r.flag == flag,
    {
        let end = swap_indexes(goal.clone());
        Solver {
            name: name.to_owned(),
            goal,
            end,
            size,
            heuristic: Heuristic::from_name(name),
            flag,
        }
    }

    /// `Ok` when `start` is an arrangement of the grid that can reach the goal; the error
    /// "invalid puzzle" for a start of wrong length, with a repeated or missing tile, and
    /// "unsolvable puzzle" for one of the wrong parity.
    pub fn is_solvable(&self, start: &Vec<usize>) -> (r: Result<(), String>)
        requires
            self.well_formed(),
        ensures
            r is Ok <==> is_arrangement(start@, self.size as int) && solvable(
                start@,
                self.goal@,
                self.size as int,
            ),
            !is_arrangement(start@, self.size as int) ==> (r matches Err(e) && e@
                == "invalid puzzle"@),
            is_arrangement(start@, self.size as int) ==> (r matches Err(e) ==> e@
                == "unsolvable puzzle"@),
    {
        if !is_valid_arrangement(start, self.size) {
            return Err("invalid puzzle".to_owned());
        }
        proof {
            assert(self.size * self.size <= MAX_SIZE * MAX_SIZE) by (nonlinear_arith)
                requires
                    1 <= self.size <= MAX_SIZE,
            ;
            assert(self.size * self.size >= 1) by (nonlinear_arith)
                requires
                    1 <= self.size,
            ;
            crate::grid::lemma_arrangement_onto(start@, self.size * self.size);
            crate::grid::lemma_arrangement_onto(self.goal@, self.size * self.size);
            assert(crate::grid::occurs(start@, 0));
            assert(crate::grid::occurs(self.goal@, 0));
            let i = choose|i: int| 0 <= i < start@.len() && start@[i] == 0;
            assert(start@.contains(0usize));
            let j = choose|j: int| 0 <= j < self.goal@.len() && self.goal@[j] == 0;
            assert(self.goal@.contains(0usize));
        }
        if is_solvable(start, &self.goal, self.size) {
            Ok(())
        } else {
            Err("unsolvable puzzle".to_owned())
        }
    }

    /// Applies the policy to a node whose `h` is set.
    fn set_priority(&self, node: Node) -> (r: Node)
        requires
            node.g <= MAX_DEPTH,
            node.h <= H_MAX,
        ensures
            r.map@ == node.map@ && r.cost@ == node.cost@ && r.pos == node.pos,
            r.movement == node.movement && r.g == node.g && r.h == node.h,
            !self.flag.uniform ==> self.priority_ok(r),
    {
        let mut node = node;
        if self.flag.greedy {
            node.f = node.h;
            node.t = node.g;
        } else {
            node.f = node.h + node.g;
            node.t = node.h;
        }
        node
    }

    /// Scores a new node from scratch.
    pub fn get_cost(&self, node: Node) -> (r: Node)
        requires
            self.well_formed(),
            node.well_formed(self.size as int),
            node.g <= MAX_DEPTH,
        ensures
            self.scored(r),
            r.map@ == node.map@ && r.pos == node.pos && r.movement == node.movement,
            r.g == node.g,
            self.flag.uniform ==> r.t == node.t && r.cost@ == node.cost@,
    {
        let ghost n = self.size as int;
        if self.flag.uniform {
            let mut node = node;
            node.f = node.g;
            node.h = if same_tiles(&node.map, &self.goal) {
                0
            } else {
                1
            };
            return node;
        }
        proof {
            lemma_heuristic_bounds(self.heuristic, node.map@, self.end@, n);
        }
        let scored = match self.heuristic {
            Heuristic::Manhattan => manhattan(node, &self.end, self.size),
            Heuristic::Misplaced => misplaced_tiles(node, &self.end, self.size),
            Heuristic::OutOfAxes => out_of_axes(node, &self.end, self.size),
            Heuristic::LinearConflict => linear_conflict(node, &self.end, self.size),
        };
        self.set_priority(scored)
    }

    /// Scores a node one move away from a node this solver scored, updating its parent's
    /// estimate rather than recomputing it.
    pub fn update_cost(&self, node: Node) -> (r: Node)
        requires
            self.well_formed(),
            node.is_child(self.size as int),
            node.g <= MAX_DEPTH,
            !self.flag.uniform ==> node.h == heuristic_value(
                self.heuristic,
                node.parent_map(self.size as int),
                self.end@,
                self.size as int,
            ),
            !self.flag.uniform ==> costs_match(
                self.heuristic,
                node.cost@,
                node.parent_map(self.size as int),
                self.end@,
                self.size as int,
            ),
        ensures
            self.scored(r),
            r.map@ == node.map@ && r.pos == node.pos && r.movement == node.movement,
            r.g == node.g,
            self.flag.uniform ==> r.t == node.t && r.cost@ == node.cost@,
    {
        let ghost n = self.size as int;
        if self.flag.uniform {
            let mut node = node;
            node.f = node.g;
            node.h = if same_tiles(&node.map, &self.goal) {
                0
            } else {
                1
            };
            return node;
        }
        proof {
            lemma_heuristic_bounds(self.heuristic, node.map@, self.end@, n);
        }
        let scored = match self.heuristic {
            Heuristic::Manhattan => partial_manhattan(node, &self.end, self.size),
            Heuristic::Misplaced => partial_misplaced(node, &self.end, self.size),
            Heuristic::OutOfAxes => partial_out_of_axes(node, &self.end, self.size),
            Heuristic::LinearConflict => partial_conflict(node, &self.end, self.size),
        };
        self.set_priority(scored)
    }

    /// A node scored by this solver has estimate 0 exactly when it is the goal.
    pub proof fn lemma_goal_test(&self, node: Node)
        requires
            self.well_formed(),
            self.scored(node),
        ensures
            node.h == 0 <==> node.map@ == self.goal@,
    {
        if !self.flag.uniform {
            lemma_zero_iff_goal(
                self.heuristic,
                node.map@,
                self.goal@,
                self.end@,
                self.size as int,
            );
        }
    }
}

} // verus!
