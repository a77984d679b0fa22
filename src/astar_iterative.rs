//! Iterative A*: each iteration explores, below an f threshold, from the nodes the last
//! one left over that threshold, with a fresh closed set; the next threshold is the least
//! f left over. Each node carries the moves that led to it from the start.

use vstd::prelude::*;
use vstd::multiset::Multiset;
use crate::astar::{
    SearchError, Solution, State, lemma_back_step, lemma_child_slides, lemma_undo_step, one_move,
    path_ok, slides,
};
use crate::astar_iterative_deepening::{chain_ok, unwind};
use crate::closed::ClosedSet;
use crate::generator::walk;
use crate::grid::{Move, Position, is_arrangement};
use crate::node::Node;
use crate::open::{Entry, OpenSet};
use crate::solver::Solver;

verus! {

/// Iterations after which the search gives up.
pub const MAX_ITER: usize = 1000;

/// Expansions, over all iterations, after which the search gives up.
pub const MAX_EXPANSIONS: usize = 10_000_000;

/// A node with the moves from the start that produced it and the iteration that made it.
pub struct Pending {
    pub node: Node,
    pub moves: Vec<Move>,
    pub depth: usize,
}

/// Each move of `ms`, from `a` with its blank at `p`, is a legal slide.
pub open spec fn walk_ok(a: Seq<usize>, p: Position, ms: Seq<Move>, n: int) -> bool
    decreases ms.len(),
{
    if ms.len() == 0 {
        true
    } else {
        let (b, q) = walk(a, p, ms.drop_last(), n);
        &&& walk_ok(a, p, ms.drop_last(), n)
        &&& slides(b, q, ms.last(), walk(a, p, ms, n).0, n)
    }
}

/// The node is scored, and its moves lead from the start to it.
pub open spec fn pending_ok(item: Pending, solver: &Solver, start: Seq<usize>, origin: Position) -> bool {
    let n = solver.size as int;
    &&& solver.scored(item.node)
    &&& walk(start, origin, item.moves@, n) == (item.node.map@, item.node.pos)
    &&& walk_ok(start, origin, item.moves@, n)
    &&& item.node.g == item.moves@.len()
}

/// Every slot of the arena holds a valid pending node.
pub open spec fn arena_ok(arena: Seq<Pending>, solver: &Solver, start: Seq<usize>, origin: Position) -> bool {
    forall|i: int| 0 <= i < arena.len() ==> pending_ok(#[trigger] arena[i], solver, start, origin)
}

/// Explores from the node in `slot`: nodes over `limit` are set aside for the next
/// iteration (those made in an earlier one are dropped), the others are expanded in order
/// of `(f, t)`, their children that are not closed being scored and queued. Stops at a
/// goal, returned with the nodes set aside, or when `MAX_EXPANSIONS` is reached.
pub fn expand_node(
    arena: &mut Vec<Pending>,
    slot: usize,
    iter: usize,
    limit: usize,
    closed_set: &mut ClosedSet,
    solver: &Solver,
    expansions: &mut usize,
    Ghost(start): Ghost<Seq<usize>>,
    Ghost(origin): Ghost<Position>,
) -> (r: (Vec<Entry>, Option<usize>))
    requires
        solver.well_formed(),
        arena_ok(old(arena)@, solver, start, origin),
        slot < old(arena)@.len(),
        old(closed_set).well_formed(),
        old(closed_set)@.len() <= *old(expansions),
        *old(expansions) <= MAX_EXPANSIONS,
        forall|i: int| 0 <= i < old(arena)@.len() ==> (#[trigger] old(arena)@[i]).node.g <= *old(expansions),
    ensures
        arena_ok(final(arena)@, solver, start, origin),
        final(arena)@.len() >= old(arena)@.len(),
        forall|i: int| 0 <= i < old(arena)@.len() ==> #[trigger] final(arena)@[i] == old(arena)@[i],
        forall|i: int| 0 <= i < final(arena)@.len() ==> (#[trigger] final(arena)@[i]).node.g <= *final(expansions),
        final(closed_set).well_formed(),
        final(closed_set)@.len() <= *final(expansions),
        *final(expansions) - *old(expansions) == final(closed_set)@.len() - old(closed_set)@.len(),
        *old(expansions) <= *final(expansions) <= MAX_EXPANSIONS,
        forall|k: int| 0 <= k < r.0@.len() ==> (#[trigger] r.0@[k]).2 < final(arena)@.len(),
        r.1 matches Some(g) ==> g < final(arena)@.len() && final(arena)@[g as int].node.h == 0,
        forall|k: int|
            0 <= k < r.0@.len() ==> final(arena)@[(#[trigger] r.0@[k]).2 as int].node.f > limit
                || final(arena)@[r.0@[k].2 as int].node.h == 0,
        forall|key: Seq<usize>|
            old(closed_set)@.contains_key(key) ==> #[trigger] final(closed_set)@.contains_key(key),
        old(arena)@[slot as int].node.f <= limit ==> r.1 is Some || final(closed_set)@.contains_key(
            old(arena)@[slot as int].node.map@,
        ) || *final(expansions) == MAX_EXPANSIONS,
{
    let ghost m0 = arena@[slot as int].node.map@;
    let ghost f0 = arena@[slot as int].node.f;
    let ghost entry0 = (arena@[slot as int].node.f, arena@[slot as int].node.t, slot);
    let ghost mut first = true;
    let mut open = OpenSet::new(0);
    let mut node_list: Vec<Entry> = Vec::new();
    let _ = open.insert((arena[slot].node.f, arena[slot].node.t, slot));
    proof {
        assert(open.items() =~= Multiset::empty().insert(entry0));
    }
    loop
        invariant
            slot < old(arena)@.len(),
            m0 == old(arena)@[slot as int].node.map@,
            f0 == old(arena)@[slot as int].node.f,
            entry0 == (f0, old(arena)@[slot as int].node.t, slot),
            first ==> open.items() == Multiset::<Entry>::empty().insert(entry0),
            !first ==> f0 > limit || closed_set@.contains_key(m0),
            forall|key: Seq<usize>|
                old(closed_set)@.contains_key(key) ==> #[trigger] closed_set@.contains_key(key),
            forall|k: int|
                0 <= k < node_list@.len() ==> arena@[(#[trigger] node_list@[k]).2 as int].node.f
                    > limit || arena@[node_list@[k].2 as int].node.h == 0,
            solver.well_formed(),
            arena_ok(arena@, solver, start, origin),
            old(arena)@.len() <= arena@.len(),
            forall|i: int| 0 <= i < old(arena)@.len() ==> #[trigger] arena@[i] == old(arena)@[i],
            forall|i: int| 0 <= i < arena@.len() ==> (#[trigger] arena@[i]).node.g <= *expansions,
            closed_set.well_formed(),
            closed_set@.len() <= *expansions,
            *expansions - *old(expansions) == closed_set@.len() - old(closed_set)@.len(),
            *old(expansions) <= *expansions <= MAX_EXPANSIONS,
            forall|e: Entry| #[trigger] open.items().contains(e) ==> e.2 < arena@.len(),
            forall|k: int| 0 <= k < node_list@.len() ==> (#[trigger] node_list@[k]).2 < arena@.len(),
        decreases MAX_EXPANSIONS - *expansions, open.items().len(),
    {
        let ghost items_before = open.items();
        let entry = match open.pop_best() {
            None => {
                return (node_list, None);
            },
            Some(e) => e,
        };
        proof {
            assert(items_before.contains(entry));
            assert forall|e: Entry| #[trigger] open.items().contains(e) implies e.2 < arena@.len() by {
                assert(items_before.contains(e));
            }
        }
        let cur = entry.2;
        proof {
            if first {
                assert(items_before.contains(entry));
                assert(entry == entry0);
            }
        }
        let ghost was_first = first;
        proof {
            first = false;
        }
        if arena[cur].node.f > limit {
            if arena[cur].depth < iter {
                continue ;
            }
            node_list.push(entry);
            continue ;
        }
        if arena[cur].node.h == 0 {
            node_list.push((0, arena[cur].node.t, cur));
            return (node_list, Some(cur));
        }
        if closed_set.contains_key(&arena[cur].node.map) {
            continue ;
        }
        if *expansions >= MAX_EXPANSIONS {
            return (node_list, None);
        }
        let ghost parent = arena@[cur as int];
        proof {
            assert(pending_ok(parent, solver, start, origin));
        }
        let mut children = arena[cur].node.generate_moves(solver.size);
        let ghost n = solver.size as int;
        while children.len() > 0
            invariant
                solver.well_formed(),
                n == solver.size,
                arena_ok(arena@, solver, start, origin),
                old(arena)@.len() <= arena@.len(),
                cur < arena@.len(),
                arena@[cur as int] == parent,
                pending_ok(parent, solver, start, origin),
                parent.node.g < *expansions + 1,
                forall|i: int| 0 <= i < old(arena)@.len() ==> #[trigger] arena@[i] == old(arena)@[i],
                forall|i: int| 0 <= i < arena@.len() ==> (#[trigger] arena@[i]).node.g <= *expansions + 1,
                closed_set.well_formed(),
                *expansions - *old(expansions) == closed_set@.len() - old(closed_set)@.len(),
                !closed_set@.contains_key(parent.node.map@),
                closed_set@.len() <= *expansions,
                *old(expansions) <= *expansions < MAX_EXPANSIONS,
                forall|e: Entry| #[trigger] open.items().contains(e) ==> e.2 < arena@.len(),
                forall|k: int| 0 <= k < node_list@.len() ==> (#[trigger] node_list@[k]).2 < arena@.len(),
                forall|k: int|
                    0 <= k < node_list@.len() ==> arena@[(#[trigger] node_list@[k]).2 as int].node.f
                        > limit || arena@[node_list@[k].2 as int].node.h == 0,
                forall|k: int|
                    0 <= k < children@.len() ==> {
                        let c = #[trigger] children@[k];
                        &&& c.movement != Move::No
                        &&& c.is_child(n)
                        &&& c.parent_map(n) == parent.node.map@
                        &&& c.pos == parent.node.pos.update_spec(c.movement)
                        &&& c.pos.moved_spec(c.movement) == parent.node.pos
                        &&& c.cost@ == parent.node.cost@
                        &&& c.g == parent.node.g + 1
                        &&& c.h == parent.node.h
                    },
            decreases children@.len(),
        {
            let ghost before = children@;
            let child = children.remove(0);
            proof {
                assert forall|k: int| 0 <= k < children@.len() implies #[trigger] children@[k]
                    == before[k + 1] by {}
            }
            if closed_set.contains_key(&child.map) {
                continue ;
            }
            let child = solver.update_cost(child);
            let mut moves = arena[cur].moves.clone();
            moves.push(child.movement);
            proof {
                lemma_child_slides(child, n);
                let ms = moves@;
                assert(ms.drop_last() =~= parent.moves@);
                assert(walk(start, origin, ms, n) == (child.map@, child.pos));
            }
            let item = Pending { node: child, moves, depth: iter };
            let s = arena.len();
            if limit < item.node.f {
                node_list.push((item.node.f, item.node.t, s));
            } else {
                let ghost items0 = open.items();
                let _ = open.insert((item.node.f, item.node.t, s));
                proof {
                    assert forall|e: Entry| #[trigger] open.items().contains(e) implies e.2 < s + 1 by {
                        assert(items0.insert((item.node.f, item.node.t, s)).contains(e));
                        if e != (item.node.f, item.node.t, s) {
                            assert(items0.contains(e));
                        }
                    }
                }
            }
            arena.push(item);
        }
        closed_set.insert(arena[cur].node.map.clone(), arena[cur].node.movement);
        *expansions = *expansions + 1;
    }
}

/// The states that the moves of a pending node pass through, from the node back to the
/// first move.
pub fn trail_back(item: &Pending, size: usize, Ghost(start): Ghost<Seq<usize>>, Ghost(origin): Ghost<
    Position,
>) -> (rev: Vec<State>)
    requires
        crate::grid::size_ok(size as int),
        walk(start, origin, item.moves@, size as int) == (item.node.map@, item.node.pos),
        walk_ok(start, origin, item.moves@, size as int),
        origin.inside(size as int),
        item.node.pos.inside(size as int),
        item.node.map@.len() == size * size,
    ensures
        chain_ok(start, rev@, item.node.map@, size as int),
{
    let ghost n = size as int;
    let mut moves = item.moves.clone();
    let mut map = item.node.map.clone();
    let mut pos = item.node.pos;
    let mut rev: Vec<State> = Vec::new();
    while moves.len() > 0
        invariant
            crate::grid::size_ok(n),
            n == size,
            walk(start, origin, moves@, n) == (map@, pos),
            walk_ok(start, origin, moves@, n),
            pos.inside(n),
            map@.len() == n * n,
            chain_ok(map@, rev@, item.node.map@, n) || rev@.len() == 0,
            rev@.len() == 0 ==> map@ == item.node.map@,
        decreases moves@.len(),
    {
        let ghost ms = moves@;
        let m = moves.pop().unwrap();
        let ghost (b, q) = walk(start, origin, ms.drop_last(), n);
        proof {
            assert(moves@ == ms.drop_last());
            assert(slides(b, q, m, map@, n));
            lemma_undo_step(q, m, n);
            crate::node::lemma_step_cells(q, m, n);
            assert(pos == q.update_spec(m));
            lemma_back_step(pos, m, n);
            assert(map@.len() == b.len());
            assert(n * n <= 10000) by (nonlinear_arith)
                requires
                    1 <= n <= 100,
            ;
        }
        let opp = m.opposite();
        let prev = opp.do_move(map.clone(), &pos, size);
        let prev_pos = pos.update(&opp);
        proof {
            assert(prev@ =~= b);
        }
        let ghost old_rev = rev@;
        rev.push(State { map, movement: m });
        proof {
            assert(one_move(b, m, rev@.last().map@, n));
            if old_rev.len() > 0 {
                assert(rev@[0] == old_rev[0]);
                assert forall|k: int| 0 <= k < rev@.len() - 1 implies one_move(
                    rev@[k + 1].map@,
                    #[trigger] rev@[k].movement,
                    rev@[k].map@,
                    n,
                ) by {
                    if k < old_rev.len() - 1 {
                        assert(rev@[k] == old_rev[k] && rev@[k + 1] == old_rev[k + 1]);
                    } else {
                        assert(rev@[k] == old_rev.last());
                    }
                }
            }
        }
        map = prev;
        pos = prev_pos;
    }
    proof {
        assert(moves@.len() == 0);
    }
    rev
}

/// Iterative A* from `start`: runs iterations from the nodes the last one set aside, with
/// the least f among them as the new threshold, until a goal is reached.
pub fn solve(start: Vec<usize>, solver: &Solver) -> (r: Result<Solution, SearchError>)
    requires
        solver.well_formed(),
        is_arrangement(start@, solver.size as int),
    ensures
        r matches Ok(sol) ==> {
            &&& path_ok(sol.path@, start@, solver.goal@, solver.size as int)
            &&& sol.moves == sol.path@.len() - 1
        },
        start@ == solver.goal@ ==> (r matches Ok(sol) && sol.moves == 0),
        r matches Err(SearchError::LimitReached(k)) ==> k == MAX_ITER,
        !(r matches Err(SearchError::Exhausted)),
{
    let size = solver.size;
    let ghost n = size as int;
    let ghost st = start@;
    proof {
        crate::grid::lemma_arrangement_onto(st, n * n);
        assert(n * n >= 1) by (nonlinear_arith)
            requires
                n >= 1,
        ;
        assert(crate::grid::occurs(st, 0));
        let i = choose|i: int| 0 <= i < st.len() && st[i] == 0;
        assert(st.contains(0usize));
    }
    let start_map = start.clone();
    let mut first = Node::new(start);
    first.find_position(size);
    proof {
        crate::heuristic::lemma_cell(first.pos.index_spec(n), n);
        assert(first.pos.y < n) by (nonlinear_arith)
            requires
                first.pos.y * n + first.pos.x < n * n,
                0 <= first.pos.x,
                n >= 1,
        ;
    }
    let first = solver.get_cost(first);
    proof {
        solver.lemma_goal_test(first);
    }
    if first.h == 0 {
        let mut path: Vec<State> = Vec::new();
        path.push(State { map: start_map, movement: Move::No });
        return Ok(Solution { path, moves: 0, selected: 0, pending: 0, total: 0 });
    }
    let ghost origin = first.pos;
    let mut limit = first.f;
    let mut open = OpenSet::new(0);
    let _ = open.insert((first.f, first.t, 0));
    let mut arena: Vec<Pending> = Vec::new();
    arena.push(Pending { node: first, moves: Vec::new(), depth: 0 });
    let mut expansions: usize = 0;
    let mut iter: usize = 1;
    proof {
        assert(pending_ok(arena@[0], solver, st, origin));
        assert forall|e: Entry| #[trigger] open.items().contains(e) implies e.2 < arena@.len() by {}
    }
    while iter <= MAX_ITER
        invariant
            st != solver.goal@,
            1 <= iter <= MAX_ITER + 1,
            solver.well_formed(),
            n == solver.size,
            size == solver.size,
            st == start@,
            start_map@ == st,
            origin.inside(n),
            arena_ok(arena@, solver, st, origin),
            forall|i: int| 0 <= i < arena@.len() ==> (#[trigger] arena@[i]).node.g <= expansions,
            expansions <= MAX_EXPANSIONS,
            forall|e: Entry| #[trigger] open.items().contains(e) ==> e.2 < arena@.len(),
        decreases MAX_ITER + 1 - iter,
    {
        let mut list = OpenSet::new(0);
        let mut closed_set = ClosedSet::new();
        let mut found: Option<usize> = None;
        loop
            invariant
                solver.well_formed(),
                n == solver.size,
                arena_ok(arena@, solver, st, origin),
                forall|i: int| 0 <= i < arena@.len() ==> (#[trigger] arena@[i]).node.g <= expansions,
                expansions <= MAX_EXPANSIONS,
                closed_set.well_formed(),
                closed_set@.len() <= expansions,
                forall|e: Entry| #[trigger] open.items().contains(e) ==> e.2 < arena@.len(),
                forall|e: Entry| #[trigger] list.items().contains(e) ==> e.2 < arena@.len(),
                found matches Some(g) ==> g < arena@.len() && arena@[g as int].node.h == 0,
            decreases open.items().len(),
        {
            let ghost items_before = open.items();
            let entry = match open.pop_best() {
                None => break,
                Some(e) => e,
            };
            proof {
                assert(items_before.contains(entry));
                assert forall|e: Entry| #[trigger] open.items().contains(e) implies e.2
                    < arena@.len() by {
                    assert(items_before.contains(e));
                }
            }
            let ghost len_before = arena@.len();
            let (sub, goal) = expand_node(
                &mut arena,
                entry.2,
                iter,
                limit,
                &mut closed_set,
                solver,
                &mut expansions,
                Ghost(st),
                Ghost(origin),
            );
            let mut k: usize = 0;
            while k < sub.len()
                invariant
                    k <= sub@.len(),
                    forall|q: int| 0 <= q < sub@.len() ==> (#[trigger] sub@[q]).2 < arena@.len(),
                    forall|e: Entry| #[trigger] list.items().contains(e) ==> e.2 < arena@.len(),
                decreases sub@.len() - k,
            {
                let ghost items0 = list.items();
                let _ = list.insert(sub[k]);
                proof {
                    assert forall|e: Entry| #[trigger] list.items().contains(e) implies e.2
                        < arena@.len() by {
                        assert(items0.insert(sub@[k as int]).contains(e));
                        if e != sub@[k as int] {
                            assert(items0.contains(e));
                        }
                    }
                }
                k = k + 1;
            }
            if goal.is_some() {
                found = goal;
                break ;
            }
        }
        match found {
            Some(g) => {
                proof {
                    assert(pending_ok(arena@[g as int], solver, st, origin));
                    solver.lemma_goal_test(arena@[g as int].node);
                    crate::heuristic::lemma_index_inside(origin.x as int, origin.y as int, n);
                }
                let rev = trail_back(&arena[g], size, Ghost(st), Ghost(origin));
                let path = unwind(start_map, rev, Ghost(solver.goal@), Ghost(n));
                let moves = path.len() - 1;
                let selected = closed_set.len();
                let pending = list.len();
                return Ok(
                    Solution { path, moves, selected, pending, total: selected.saturating_add(pending) },
                );
            },
            None => {},
        }
        let ghost items_full = list.items();
        let lowest = match list.pop_best() {
            None => {
                return Err(SearchError::DeadEnd);
            },
            Some(e) => e,
        };
        limit = lowest.0;
        let ghost items_l = list.items();
        proof {
            assert(items_full.contains(lowest));
            assert forall|e: Entry| #[trigger] items_l.contains(e) implies e.2 < arena@.len() by {
                assert(items_full.contains(e));
            }
        }
        let _ = list.insert(lowest);
        proof {
            assert forall|e: Entry| #[trigger] list.items().contains(e) implies e.2 < arena@.len() by {
                assert(items_l.insert(lowest).contains(e));
                if e != lowest {
                    assert(items_l.contains(e));
                }
            }
        }
        open = list;
        iter = iter + 1;
    }
    Err(SearchError::LimitReached(iter - 1))
}

} // verus!