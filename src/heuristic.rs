//! Admissible estimates of the moves left: Manhattan distance, misplaced tiles,
//! out-of-axes tiles and linear conflict, each computed in full for a new node and
//! updated after a single move of the blank.

use vstd::prelude::*;
use crate::grid::{
    Move, Position, index_of, is_arrangement, is_inverse, lemma_arrangement_onto, occurs, size_ok,
    swap_spec, tiles_in_range,
};
use crate::astar::{State, one_move, path_ok, slides};
use crate::node::Node;
use crate::sums::{
    lemma_sum_add, lemma_sum_at_least_term, lemma_sum_bounds, lemma_sum_ext, lemma_sum_le,
    lemma_sum_sub, lemma_sum_two, lemma_sum_zero, sum_upto,
};

verus! {

/// The estimates that a solver can use.
#[derive(Debug, Clone, Copy, PartialEq, Eq, Structural)]
pub enum Heuristic {
    Manhattan,
    Misplaced,
    OutOfAxes,
    LinearConflict,
}

/// `|a - b|`.
pub open spec fn abs_diff(a: int, b: int) -> int {
    if a >= b {
        a - b
    } else {
        b - a
    }
}

/// Rows plus columns between cells `a` and `b` of an `n`-wide grid.
pub open spec fn dist(a: int, b: int, n: int) -> int {
    abs_diff(a / n, b / n) + abs_diff(a % n, b % n)
}

/// Cost of tile `e` standing at cell `i` that depends on that tile alone.
pub open spec fn local_cost(kind: Heuristic, e: usize, i: int, end: Seq<usize>, n: int) -> int {
    let g = end[e as int] as int;
    match kind {
        Heuristic::Misplaced => if i != g {
            1
        } else {
            0
        },
        Heuristic::OutOfAxes => (if i / n != g / n {
            1int
        } else {
            0
        }) + (if i % n != g % n {
            1int
        } else {
            0
        }),
        _ => dist(i, g, n),
    }
}

/// Tiles `a` at cell `i` and `b` at cell `j` share a line that is the goal line of both,
/// and their order on it must be reversed.
pub open spec fn pair_conflict(end: Seq<usize>, n: int, a: usize, i: int, b: usize, j: int) -> bool {
    let ga = end[a as int] as int;
    let gb = end[b as int] as int;
    &&& a != 0
    &&& b != 0
    &&& {
        ||| (i / n == j / n && ga / n == i / n && gb / n == i / n && ((i % n < j % n && ga % n
            > gb % n) || (i % n > j % n && ga % n < gb % n)))
        ||| (i % n == j % n && ga % n == i % n && gb % n == i % n && ((i / n < j / n && ga / n
            > gb / n) || (i / n > j / n && ga / n < gb / n)))
    }
}

/// 1 when the tiles at cells `i` and `j` of `s` are in linear conflict.
pub open spec fn conflict_ind(s: Seq<usize>, end: Seq<usize>, n: int, i: int, j: int) -> int {
    if pair_conflict(end, n, s[i], i, s[j], j) {
        1
    } else {
        0
    }
}

/// The conflicts of the tile at cell `i`, cell by cell.
pub open spec fn conflicts_fn(s: Seq<usize>, end: Seq<usize>, n: int, i: int) -> spec_fn(int) -> int {
    |j: int| conflict_ind(s, end, n, i, j)
}

/// Number of tiles in linear conflict with the tile at cell `i`.
pub open spec fn conflict_count(s: Seq<usize>, end: Seq<usize>, n: int, i: int) -> int {
    sum_upto(conflicts_fn(s, end, n, i), s.len() as int)
}

/// Cost of the tile at cell `i` of `s` (0 for the blank).
pub open spec fn tile_cost(kind: Heuristic, s: Seq<usize>, end: Seq<usize>, n: int, i: int) -> int {
    if s[i] == 0 {
        0
    } else if kind == Heuristic::LinearConflict {
        local_cost(kind, s[i], i, end, n) + conflict_count(s, end, n, i)
    } else {
        local_cost(kind, s[i], i, end, n)
    }
}

/// The tile costs of `s`, cell by cell.
pub open spec fn costs_fn(kind: Heuristic, s: Seq<usize>, end: Seq<usize>, n: int) -> spec_fn(
    int,
) -> int {
    |i: int| tile_cost(kind, s, end, n, i)
}

/// The estimate for arrangement `s`, `end` giving each tile's goal cell: the sum of the
/// tile costs. For linear conflict each conflicting pair adds 1 to the cost of both tiles,
/// 2 in all.
pub open spec fn heuristic_value(kind: Heuristic, s: Seq<usize>, end: Seq<usize>, n: int) -> int {
    sum_upto(costs_fn(kind, s, end, n), s.len() as int)
}

/// Entry `s[i]` of the cost vector is the cost of the tile at cell `i`; the blank's entry
/// is 0.
pub open spec fn costs_match(
    kind: Heuristic,
    cost: Seq<usize>,
    s: Seq<usize>,
    end: Seq<usize>,
    n: int,
) -> bool {
    &&& cost.len() == s.len()
    &&& cost.len() > 0 ==> cost[0] == 0
    &&& forall|i: int|
        0 <= i < s.len() && s[i] != 0 ==> cost[s[i] as int] == #[trigger] tile_cost(
            kind,
            s,
            end,
            n,
            i,
        )
}

/// What the heuristics read is valid: an arrangement of an `n` by `n` grid, and a goal
/// cell for every tile id.
pub open spec fn inputs_ok(s: Seq<usize>, end: Seq<usize>, n: int) -> bool {
    &&& size_ok(n)
    &&& is_arrangement(s, n)
    &&& tiles_in_range(end, n * n)
}

/// Largest cost of one tile.
pub open spec fn tile_cap(n: int) -> int {
    2 * n + n * n
}

/// Largest estimate of any heuristic on any grid the engine accepts.
pub const H_MAX: usize = 102_000_000;

/// Row and column of a cell are within the grid.
pub proof fn lemma_cell(a: int, n: int)
    requires
        1 <= n,
        0 <= a < n * n,
    ensures
        0 <= a / n < n,
        0 <= a % n < n,
        a == (a / n) * n + a % n,
{
    assert(0 <= a % n < n) by (nonlinear_arith)
        requires
            1 <= n,
            0 <= a,
    ;
    assert(a == (a / n) * n + a % n) by (nonlinear_arith)
        requires
            1 <= n,
    ;
    assert(0 <= a / n < n) by (nonlinear_arith)
        requires
            1 <= n,
            0 <= a < n * n,
            a == (a / n) * n + a % n,
            0 <= a % n < n,
    ;
}

/// The cell at column `x` and row `y` of the grid has an index below `n * n`.
pub proof fn lemma_index_inside(x: int, y: int, n: int)
    requires
        0 <= x < n,
        0 <= y < n,
    ensures
        0 <= index_of(x, y, n) < n * n,
        index_of(x, y, n) / n == y,
        index_of(x, y, n) % n == x,
{
    assert(0 <= y * n + x < n * n) by (nonlinear_arith)
        requires
            0 <= x < n,
            0 <= y < n,
    ;
    vstd::arithmetic::div_mod::lemma_fundamental_div_mod_converse(y * n + x, n, y, x);
}

/// Each tile cost lies in `0 ..= tile_cap(n)`.
pub proof fn lemma_tile_cost_bounds(kind: Heuristic, s: Seq<usize>, end: Seq<usize>, n: int, i: int)
    requires
        inputs_ok(s, end, n),
        0 <= i < s.len(),
    ensures
        0 <= tile_cost(kind, s, end, n, i) <= tile_cap(n),
        0 <= local_cost(kind, s[i], i, end, n) <= 2 * n,
        0 <= conflict_count(s, end, n, i) <= n * n,
{
    lemma_cell(i, n);
    lemma_cell(end[s[i] as int] as int, n);
    lemma_sum_bounds(conflicts_fn(s, end, n, i), s.len() as int, 1);
    assert(s.len() * 1 == n * n);
}

/// The estimate lies in `0 ..= H_MAX`.
pub proof fn lemma_heuristic_bounds(kind: Heuristic, s: Seq<usize>, end: Seq<usize>, n: int)
    requires
        inputs_ok(s, end, n),
    ensures
        0 <= heuristic_value(kind, s, end, n) <= n * n * tile_cap(n),
        n * n * tile_cap(n) <= H_MAX,
{
    assert forall|i: int| 0 <= i < s.len() implies 0 <= #[trigger] costs_fn(kind, s, end, n)(i)
        <= tile_cap(n) by {
        lemma_tile_cost_bounds(kind, s, end, n, i);
    }
    lemma_sum_bounds(costs_fn(kind, s, end, n), s.len() as int, tile_cap(n));
    assert(n * n * tile_cap(n) <= H_MAX) by (nonlinear_arith)
        requires
            1 <= n <= 100,
    ;
}

/// Rows plus columns between cells `a` and `b` of a grid `n` cells wide.
pub fn distance(a: usize, b: usize, n: usize) -> (r: usize)
    requires
        size_ok(n as int),
        a < n * n,
        b < n * n,
    ensures
        r == dist(a as int, b as int, n as int),
        r <= 2 * n,
{
    proof {
        lemma_cell(a as int, n as int);
        lemma_cell(b as int, n as int);
    }
    let (ra, rb) = (a / n, b / n);
    let (ca, cb) = (a % n, b % n);
    let dy = if ra >= rb { ra - rb } else { rb - ra };
    let dx = if ca >= cb { ca - cb } else { cb - ca };
    dy + dx
}

/// Cost of tile `e` standing at cell `i` that depends on that tile alone.
fn local_cost_exec(kind: Heuristic, e: usize, i: usize, end: &Vec<usize>, n: usize) -> (r: usize)
    requires
        size_ok(n as int),
        tiles_in_range(end@, n * n),
        e < n * n,
        i < n * n,
    ensures
        r == local_cost(kind, e, i as int, end@, n as int),
        r <= 2 * n,
{
    let g = end[e];
    match kind {
        Heuristic::Misplaced => if i != g {
            1
        } else {
            0
        },
        Heuristic::OutOfAxes => (if i / n != g / n {
            1
        } else {
            0
        }) + (if i % n != g % n {
            1
        } else {
            0
        }),
        _ => distance(i, g, n),
    }
}

/// Whether tiles `a` at cell `i` and `b` at cell `j` are in linear conflict.
fn pair_conflict_exec(end: &Vec<usize>, n: usize, a: usize, i: usize, b: usize, j: usize) -> (r:
    bool)
    requires
        size_ok(n as int),
        tiles_in_range(end@, n * n),
        a < n * n,
        b < n * n,
    ensures
        r == pair_conflict(end@, n as int, a, i as int, b, j as int),
{
    if a == 0 || b == 0 {
        return false;
    }
    let ga = end[a];
    let gb = end[b];
    let row = i / n == j / n && ga / n == i / n && gb / n == i / n && ((i % n < j % n && ga % n
        > gb % n) || (i % n > j % n && ga % n < gb % n));
    let col = i % n == j % n && ga % n == i % n && gb % n == i % n && ((i / n < j / n && ga / n
        > gb / n) || (i / n > j / n && ga / n < gb / n));
    row || col
}

/// Number of tiles in linear conflict with the tile at cell `i`.
fn conflict_count_exec(map: &Vec<usize>, end: &Vec<usize>, n: usize, i: usize) -> (r: usize)
    requires
        inputs_ok(map@, end@, n as int),
        i < map@.len(),
    ensures
        r == conflict_count(map@, end@, n as int, i as int),
        r <= n * n,
{
    let t = map.len();
    let mut count: usize = 0;
    let mut j: usize = 0;
    while j < t
        invariant
            inputs_ok(map@, end@, n as int),
            t == map@.len(),
            i < t,
            j <= t,
            count == sum_upto(conflicts_fn(map@, end@, n as int, i as int), j as int),
            count <= j,
        decreases t - j,
    {
        if pair_conflict_exec(end, n, map[i], i, map[j], j) {
            count = count + 1;
        }
        j = j + 1;
    }
    count
}

/// Cost of the tile at cell `i` of `map`.
fn tile_cost_exec(kind: Heuristic, map: &Vec<usize>, end: &Vec<usize>, n: usize, i: usize) -> (r:
    usize)
    requires
        inputs_ok(map@, end@, n as int),
        i < map@.len(),
    ensures
        r == tile_cost(kind, map@, end@, n as int, i as int),
{
    proof {
        lemma_tile_cost_bounds(kind, map@, end@, n as int, i as int);
        assert(n * n <= 10000) by (nonlinear_arith)
            requires
                n <= 100,
        ;
    }
    let e = map[i];
    if e == 0 {
        0
    } else if kind == Heuristic::LinearConflict {
        local_cost_exec(kind, e, i, end, n) + conflict_count_exec(map, end, n, i)
    } else {
        local_cost_exec(kind, e, i, end, n)
    }
}

/// `r` is `node` with new costs: same tiles, blank, move and depth.
pub open spec fn same_state(r: Node, node: Node) -> bool {
    &&& r.map@ == node.map@
    &&& r.pos == node.pos
    &&& r.movement == node.movement
    &&& r.g == node.g
    &&& r.f == node.f
    &&& r.t == node.t
}

/// Computes every tile cost of `node` and their sum from scratch.
fn full_cost(kind: Heuristic, node: Node, end: &Vec<usize>, size: usize) -> (r: Node)
    requires
        inputs_ok(node.map@, end@, size as int),
        node.cost@.len() == node.map@.len(),
    ensures
        same_state(r, node),
        r.h == heuristic_value(kind, node.map@, end@, size as int),
        costs_match(kind, r.cost@, r.map@, end@, size as int),
{
    let ghost old_node = node;
    let mut node = node;
    let ghost s = node.map@;
    let ghost n = size as int;
    let ghost f = costs_fn(kind, s, end@, n);
    let t = node.map.len();
    let mut h: usize = 0;
    let mut index: usize = 0;
    proof {
        lemma_heuristic_bounds(kind, s, end@, n);
    }
    while index < t
        invariant
            inputs_ok(s, end@, n),
            n == size,
            s == node.map@,
            t == s.len(),
            node.cost@.len() == t,
            index <= t,
            f == costs_fn(kind, s, end@, n),
            h == sum_upto(f, index as int),
            n * n * tile_cap(n) <= H_MAX,
            forall|i: int|
                0 <= i < index && s[i] != 0 ==> node.cost@[s[i] as int] == #[trigger] tile_cost(
                    kind,
                    s,
                    end@,
                    n,
                    i,
                ),
            same_state(node, old_node),
        decreases t - index,
    {
        let elem = node.map[index];
        let c = tile_cost_exec(kind, &node.map, end, size, index);
        proof {
            assert forall|i: int| 0 <= i < index implies 0 <= #[trigger] f(i) <= tile_cap(n) by {
                lemma_tile_cost_bounds(kind, s, end@, n, i);
                assert(f(i) == tile_cost(kind, s, end@, n, i));
            }
            assert(f(index as int) == tile_cost(kind, s, end@, n, index as int));
            lemma_sum_bounds(f, index as int, tile_cap(n));
            lemma_tile_cost_bounds(kind, s, end@, n, index as int);
            assert(index * tile_cap(n) + tile_cap(n) <= n * n * tile_cap(n)) by (nonlinear_arith)
                requires
                    index < n * n,
                    tile_cap(n) >= 0,
            ;
        }
        if elem != 0 {
            node.cost.set(elem, c);
        }
        h = h + c;
        index = index + 1;
    }
    if t > 0 {
        node.cost.set(0, 0);
    }
    node.h = h;
    node
}

/// For the estimates whose tile costs depend on the tile and its cell alone: when the
/// blank at cell `b` of `c` came from cell `m`, the estimate of `c` is that of the
/// arrangement before the move, less the moved tile's old cost, plus its new one.
pub proof fn lemma_local_step(kind: Heuristic, c: Seq<usize>, end: Seq<usize>, n: int, b: int, m: int)
    requires
        kind != Heuristic::LinearConflict,
        inputs_ok(c, end, n),
        0 <= b < c.len(),
        0 <= m < c.len(),
        b != m,
        c[b] == 0,
    ensures
        heuristic_value(kind, c, end, n) == heuristic_value(kind, swap_spec(c, b, m), end, n)
            - tile_cost(kind, swap_spec(c, b, m), end, n, b) + tile_cost(kind, c, end, n, m),
{
    let p = swap_spec(c, b, m);
    let fc = costs_fn(kind, c, end, n);
    let fp = costs_fn(kind, p, end, n);
    assert forall|i: int| 0 <= i < c.len() && i != m && i != b implies #[trigger] fc(i) == fp(i) by {
        assert(p[i] == c[i]);
    }
    lemma_sum_two(fc, fp, c.len() as int, m, b);
    assert(fp(m) == 0);
    assert(fc(b) == 0);
    assert(p.len() == c.len());
}

/// Facts about the cells that a child node's last move touched.
proof fn lemma_child_cells(node: Node, n: int)
    requires
        node.is_child(n),
    ensures
        0 <= node.pos.index_spec(n) < n * n,
        0 <= node.moved_index(n) < n * n,
        node.pos.index_spec(n) != node.moved_index(n),
        node.map@[node.moved_index(n)] != 0,
        node.map@[node.pos.index_spec(n)] == 0,
        node.pos.x < n && node.pos.y < n,
        node.pos.moved_spec(node.movement).inside(n),
        is_arrangement(node.parent_map(n), n),
        n * n <= 10000,
{
    assert(n * n <= 10000) by (nonlinear_arith)
        requires
            1 <= n <= 100,
    ;
    let q = node.pos.moved_spec(node.movement);
    lemma_index_inside(node.pos.x as int, node.pos.y as int, n);
    lemma_index_inside(q.x as int, q.y as int, n);
    let b = node.pos.index_spec(n);
    let m = node.moved_index(n);
    assert(q != node.pos);
    assert(b != m);
    let p = node.parent_map(n);
    assert forall|i: int, j: int| 0 <= i < p.len() && 0 <= j < p.len() && i != j implies p[i]
        != p[j] by {
        let s = node.map@;
        let si = if i == b { m } else if i == m { b } else { i };
        let sj = if j == b { m } else if j == m { b } else { j };
        assert(p[i] == s[si]);
        assert(p[j] == s[sj]);
    }
}

/// Moves the cost of the tile that the last move slid from its old cell to its new one.
fn partial_local(kind: Heuristic, node: Node, end: &Vec<usize>, size: usize) -> (r: Node)
    requires
        kind != Heuristic::LinearConflict,
        node.is_child(size as int),
        tiles_in_range(end@, size * size),
        node.h == heuristic_value(kind, node.parent_map(size as int), end@, size as int),
        costs_match(kind, node.cost@, node.parent_map(size as int), end@, size as int),
    ensures
        same_state(r, node),
        r.h == heuristic_value(kind, node.map@, end@, size as int),
        costs_match(kind, r.cost@, r.map@, end@, size as int),
{
    let ghost old_node = node;
    let ghost n = size as int;
    let ghost p = node.parent_map(n);
    let ghost c = node.map@;
    proof {
        lemma_child_cells(node, n);
        lemma_heuristic_bounds(kind, c, end@, n);
        lemma_local_step(kind, c, end@, n, node.pos.index_spec(n), node.moved_index(n));
    }
    let mut node = node;
    let index = node.pos.moved_element(&node.movement).as_index(size);
    let blank = node.pos.as_index(size);
    let elem = node.map[index];
    let prev_cost = local_cost_exec(kind, elem, blank, end, size);
    let cost = local_cost_exec(kind, elem, index, end, size);
    proof {
        assert(p[blank as int] == elem);
        assert(tile_cost(kind, p, end@, n, blank as int) == prev_cost);
        assert(tile_cost(kind, c, end@, n, index as int) == cost);
    }
    node.h = node.h + cost - prev_cost;
    node.cost.set(elem, cost);
    proof {
        assert forall|i: int| 0 <= i < c.len() && c[i] != 0 implies node.cost@[c[i] as int]
            == #[trigger] tile_cost(kind, c, end@, n, i) by {
            if i != index {
                assert(i != blank);
                assert(p[i] == c[i]);
                assert(c[i] != elem);
                assert(tile_cost(kind, p, end@, n, i) == tile_cost(kind, c, end@, n, i));
            }
        }
    }
    node
}

/// Sets `h` to the Manhattan distance of the node and fills its cost vector.
pub fn manhattan(node: Node, end: &Vec<usize>, size: usize) -> (r: Node)
    requires
        inputs_ok(node.map@, end@, size as int),
        node.cost@.len() == node.map@.len(),
    ensures
        same_state(r, node),
        r.h == heuristic_value(Heuristic::Manhattan, node.map@, end@, size as int),
        costs_match(Heuristic::Manhattan, r.cost@, r.map@, end@, size as int),
{
    full_cost(Heuristic::Manhattan, node, end, size)
}

/// Updates the Manhattan distance of a child node from its parent's.
pub fn partial_manhattan(node: Node, end: &Vec<usize>, size: usize) -> (r: Node)
    requires
        node.is_child(size as int),
        tiles_in_range(end@, size * size),
        node.h == heuristic_value(
            Heuristic::Manhattan,
            node.parent_map(size as int),
            end@,
            size as int,
        ),
        costs_match(
            Heuristic::Manhattan,
            node.cost@,
            node.parent_map(size as int),
            end@,
            size as int,
        ),
    ensures
        same_state(r, node),
        r.h == heuristic_value(Heuristic::Manhattan, node.map@, end@, size as int),
        costs_match(Heuristic::Manhattan, r.cost@, r.map@, end@, size as int),
{
    partial_local(Heuristic::Manhattan, node, end, size)
}

/// Sets `h` to the number of tiles out of place and fills the cost vector.
pub fn misplaced_tiles(node: Node, end: &Vec<usize>, size: usize) -> (r: Node)
    requires
        inputs_ok(node.map@, end@, size as int),
        node.cost@.len() == node.map@.len(),
    ensures
        same_state(r, node),
        r.h == heuristic_value(Heuristic::Misplaced, node.map@, end@, size as int),
        costs_match(Heuristic::Misplaced, r.cost@, r.map@, end@, size as int),
{
    full_cost(Heuristic::Misplaced, node, end, size)
}

/// Updates the misplaced-tile count of a child node from its parent's.
pub fn partial_misplaced(node: Node, end: &Vec<usize>, size: usize) -> (r: Node)
    requires
        node.is_child(size as int),
        tiles_in_range(end@, size * size),
        node.h == heuristic_value(
            Heuristic::Misplaced,
            node.parent_map(size as int),
            end@,
            size as int,
        ),
        costs_match(
            Heuristic::Misplaced,
            node.cost@,
            node.parent_map(size as int),
            end@,
            size as int,
        ),
    ensures
        same_state(r, node),
        r.h == heuristic_value(Heuristic::Misplaced, node.map@, end@, size as int),
        costs_match(Heuristic::Misplaced, r.cost@, r.map@, end@, size as int),
{
    partial_local(Heuristic::Misplaced, node, end, size)
}

/// Sets `h` to the count of tiles off their goal row plus those off their goal column.
pub fn out_of_axes(node: Node, end: &Vec<usize>, size: usize) -> (r: Node)
    requires
        inputs_ok(node.map@, end@, size as int),
        node.cost@.len() == node.map@.len(),
    ensures
        same_state(r, node),
        r.h == heuristic_value(Heuristic::OutOfAxes, node.map@, end@, size as int),
        costs_match(Heuristic::OutOfAxes, r.cost@, r.map@, end@, size as int),
{
    full_cost(Heuristic::OutOfAxes, node, end, size)
}

/// Updates the out-of-axes count of a child node from its parent's.
pub fn partial_out_of_axes(node: Node, end: &Vec<usize>, size: usize) -> (r: Node)
    requires
        node.is_child(size as int),
        tiles_in_range(end@, size * size),
        node.h == heuristic_value(
            Heuristic::OutOfAxes,
            node.parent_map(size as int),
            end@,
            size as int,
        ),
        costs_match(
            Heuristic::OutOfAxes,
            node.cost@,
            node.parent_map(size as int),
            end@,
            size as int,
        ),
    ensures
        same_state(r, node),
        r.h == heuristic_value(Heuristic::OutOfAxes, node.map@, end@, size as int),
        costs_match(Heuristic::OutOfAxes, r.cost@, r.map@, end@, size as int),
{
    partial_local(Heuristic::OutOfAxes, node, end, size)
}

/// Sets `h` to the Manhattan distance plus two for each pair of tiles in linear conflict.
pub fn linear_conflict(node: Node, end: &Vec<usize>, size: usize) -> (r: Node)
    requires
        inputs_ok(node.map@, end@, size as int),
        node.cost@.len() == node.map@.len(),
    ensures
        same_state(r, node),
        r.h == heuristic_value(Heuristic::LinearConflict, node.map@, end@, size as int),
        costs_match(Heuristic::LinearConflict, r.cost@, r.map@, end@, size as int),
{
    full_cost(Heuristic::LinearConflict, node, end, size)
}

/// Linear conflict is symmetric.
pub proof fn lemma_conflict_symmetric(s: Seq<usize>, end: Seq<usize>, n: int, i: int, j: int)
    ensures
        conflict_ind(s, end, n, i, j) == conflict_ind(s, end, n, j, i),
{
}

/// When the blank at cell `b` of `c` came from cell `m`, the cost of any other tile
/// changes by its conflict with the moved tile at the new cell, less the one at the old.
pub proof fn lemma_conflict_cell_step(c: Seq<usize>, end: Seq<usize>, n: int, b: int, m: int, i: int)
    requires
        inputs_ok(c, end, n),
        0 <= b < c.len(),
        0 <= m < c.len(),
        0 <= i < c.len(),
        b != m,
        i != b,
        i != m,
        c[b] == 0,
    ensures
        tile_cost(Heuristic::LinearConflict, c, end, n, i) == tile_cost(
            Heuristic::LinearConflict,
            swap_spec(c, b, m),
            end,
            n,
            i,
        ) - conflict_ind(swap_spec(c, b, m), end, n, b, i) + conflict_ind(c, end, n, m, i),
{
    let p = swap_spec(c, b, m);
    let fc = conflicts_fn(c, end, n, i);
    let fp = conflicts_fn(p, end, n, i);
    assert(p[i] == c[i]);
    assert forall|j: int| 0 <= j < c.len() && j != b && j != m implies #[trigger] fc(j) == fp(j) by {
        assert(p[j] == c[j]);
    }
    lemma_sum_two(fc, fp, c.len() as int, b, m);
    assert(p.len() == c.len());
    if c[i] == 0 {
        assert(conflict_ind(p, end, n, b, i) == 0);
        assert(conflict_ind(c, end, n, m, i) == 0);
    }
}

/// When the blank at cell `b` of `c` came from cell `m`, the linear-conflict estimate
/// changes by the moved tile's cost and, once more, by the change of its conflict count:
/// each conflict counts for both of its tiles.
pub proof fn lemma_conflict_step(c: Seq<usize>, end: Seq<usize>, n: int, b: int, m: int)
    requires
        inputs_ok(c, end, n),
        0 <= b < c.len(),
        0 <= m < c.len(),
        b != m,
        c[b] == 0,
    ensures
        heuristic_value(Heuristic::LinearConflict, c, end, n) == heuristic_value(
            Heuristic::LinearConflict,
            swap_spec(c, b, m),
            end,
            n,
        ) - tile_cost(Heuristic::LinearConflict, swap_spec(c, b, m), end, n, b) + tile_cost(
            Heuristic::LinearConflict,
            c,
            end,
            n,
            m,
        ) + conflict_count(c, end, n, m) - conflict_count(swap_spec(c, b, m), end, n, b),
{
    let kind = Heuristic::LinearConflict;
    let p = swap_spec(c, b, m);
    let len = c.len() as int;
    let fc = costs_fn(kind, c, end, n);
    let fp = costs_fn(kind, p, end, n);
    let gc = |i: int| conflict_ind(c, end, n, i, m);
    let gp = |i: int| conflict_ind(p, end, n, i, b);
    let d = |i: int| gc(i) - gp(i);
    let f = |i: int| fp(i) + d(i);
    assert forall|i: int| 0 <= i < len && i != m && i != b implies #[trigger] fc(i) == f(i) by {
        lemma_conflict_cell_step(c, end, n, b, m, i);
        lemma_conflict_symmetric(p, end, n, i, b);
        lemma_conflict_symmetric(c, end, n, i, m);
    }
    lemma_sum_two(fc, f, len, m, b);
    lemma_sum_add(fp, d, len);
    lemma_sum_sub(gc, gp, len);
    assert forall|i: int| 0 <= i < len implies #[trigger] gc(i) == conflicts_fn(c, end, n, m)(i) by {
        lemma_conflict_symmetric(c, end, n, i, m);
    }
    lemma_sum_ext(gc, conflicts_fn(c, end, n, m), len);
    assert forall|i: int| 0 <= i < len implies #[trigger] gp(i) == conflicts_fn(p, end, n, b)(i) by {
        lemma_conflict_symmetric(p, end, n, i, b);
    }
    lemma_sum_ext(gp, conflicts_fn(p, end, n, b), len);
    assert(p.len() == len);
    assert(p[m] == 0);
    assert(fp(m) == 0);
    assert(gc(m) == 0);
    assert(gp(m) == 0);
    assert(fc(b) == 0);
    assert(gc(b) == 0);
    assert(gp(b) == 0);
}

/// Updates the linear-conflict estimate of a child node from its parent's: the moved
/// tile's distance, and its conflicts along the lines of its old and new cells.
pub fn partial_conflict(node: Node, end: &Vec<usize>, size: usize) -> (r: Node)
    requires
        node.is_child(size as int),
        tiles_in_range(end@, size * size),
        node.h == heuristic_value(
            Heuristic::LinearConflict,
            node.parent_map(size as int),
            end@,
            size as int,
        ),
        costs_match(
            Heuristic::LinearConflict,
            node.cost@,
            node.parent_map(size as int),
            end@,
            size as int,
        ),
    ensures
        same_state(r, node),
        r.h == heuristic_value(Heuristic::LinearConflict, node.map@, end@, size as int),
        costs_match(Heuristic::LinearConflict, r.cost@, r.map@, end@, size as int),
{
    let ghost kind = Heuristic::LinearConflict;
    let ghost old_node = node;
    let ghost n = size as int;
    let ghost p = node.parent_map(n);
    let ghost c = node.map@;
    proof {
        lemma_child_cells(node, n);
        lemma_heuristic_bounds(kind, c, end@, n);
        lemma_heuristic_bounds(kind, p, end@, n);
    }
    let mut node = node;
    let index = node.pos.moved_element(&node.movement).as_index(size);
    let blank = node.pos.as_index(size);
    let ghost b = blank as int;
    let ghost m = index as int;
    proof {
        lemma_conflict_step(c, end@, n, b, m);
    }
    let elem = node.map[index];
    let old_dist = local_cost_exec(Heuristic::LinearConflict, elem, blank, end, size);
    let new_dist = local_cost_exec(Heuristic::LinearConflict, elem, index, end, size);
    let ghost gold = |j: int|
        if j != b && j != m {
            conflict_ind(p, end@, n, b, j)
        } else {
            0
        };
    let ghost gnew = |j: int|
        if j != b && j != m {
            conflict_ind(c, end@, n, m, j)
        } else {
            0
        };
    let t = node.map.len();
    let mut count_old: usize = 0;
    let mut count_new: usize = 0;
    let mut j: usize = 0;
    while j < t
        invariant
            kind == Heuristic::LinearConflict,
            inputs_ok(c, end@, n),
            n == size,
            n * n <= 10000,
            c == node.map@,
            p == swap_spec(c, b, m),
            t == c.len(),
            0 <= b < t,
            0 <= m < t,
            b != m,
            b == blank,
            m == index,
            c[b] == 0,
            elem == c[m],
            elem != 0,
            j <= t,
            node.cost@.len() == t,
            gold == (|j: int|
                if j != b && j != m {
                    conflict_ind(p, end@, n, b, j)
                } else {
                    0
                }),
            gnew == (|j: int|
                if j != b && j != m {
                    conflict_ind(c, end@, n, m, j)
                } else {
                    0
                }),
            count_old == sum_upto(gold, j as int),
            count_new == sum_upto(gnew, j as int),
            count_old <= j,
            count_new <= j,
            old_node.cost@.len() == t,
            node.cost@[elem as int] == old_node.cost@[elem as int],
            node.cost@[0] == 0,
            node.h == old_node.h,
            forall|i: int|
                0 <= i < j && i != b && i != m && c[i] != 0 ==> node.cost@[c[i] as int]
                    == #[trigger] tile_cost(kind, c, end@, n, i),
            forall|i: int|
                j <= i < t && i != b && i != m && c[i] != 0 ==> node.cost@[c[i] as int]
                    == #[trigger] tile_cost(kind, p, end@, n, i),
            same_state(node, old_node),
        decreases t - j,
    {
        if j != index && j != blank {
            let y = node.map[j];
            let was = pair_conflict_exec(end, size, elem, blank, y, j);
            let now = pair_conflict_exec(end, size, elem, index, y, j);
            proof {
                assert(p[b] == elem);
                assert(p[j as int] == y);
                assert(was == (conflict_ind(p, end@, n, b, j as int) == 1));
                assert(now == (conflict_ind(c, end@, n, m, j as int) == 1));
                lemma_conflict_cell_step(c, end@, n, b, m, j as int);
                lemma_tile_cost_bounds(kind, p, end@, n, j as int);
                lemma_tile_cost_bounds(kind, c, end@, n, j as int);
                if y != 0 {
                    assert(node.cost@[y as int] == tile_cost(kind, p, end@, n, j as int));
                    lemma_conflict_symmetric(p, end@, n, j as int, b);
                    assert forall|k: int| 0 <= k < t implies 0 <= #[trigger] conflicts_fn(
                        p,
                        end@,
                        n,
                        j as int,
                    )(k) by {}
                    lemma_sum_at_least_term(conflicts_fn(p, end@, n, j as int), t as int, b);
                    assert(conflicts_fn(p, end@, n, j as int)(b) == conflict_ind(
                        p,
                        end@,
                        n,
                        j as int,
                        b,
                    ));
                    lemma_cell(j as int, n);
                }
            }
            if y != 0 {
                let mut v = node.cost[y];
                if was {
                    v = v - 1;
                    count_old = count_old + 1;
                }
                if now {
                    v = v + 1;
                    count_new = count_new + 1;
                }
                node.cost.set(y, v);
            } else {
                proof {
                    assert(!was && !now);
                }
            }
        }
        proof {
            assert(gold(j as int) == if j != b && j != m { conflict_ind(p, end@, n, b, j as int) } else { 0 });
            assert(gnew(j as int) == if j != b && j != m { conflict_ind(c, end@, n, m, j as int) } else { 0 });
        }
        j = j + 1;
    }
    proof {
        assert forall|k: int| 0 <= k < t implies #[trigger] gold(k) == conflicts_fn(p, end@, n, b)(
            k,
        ) by {
            if k == m {
                assert(p[m] == 0);
            }
        }
        lemma_sum_ext(gold, conflicts_fn(p, end@, n, b), t as int);
        assert forall|k: int| 0 <= k < t implies #[trigger] gnew(k) == conflicts_fn(c, end@, n, m)(
            k,
        ) by {}
        lemma_sum_ext(gnew, conflicts_fn(c, end@, n, m), t as int);
        assert(p.len() == t);
        assert(p[b] == elem);
        assert(tile_cost(kind, p, end@, n, b) == old_dist + count_old);
        assert(tile_cost(kind, c, end@, n, m) == new_dist + count_new);
    }
    node.cost.set(elem, new_dist + count_new);
    node.h = (node.h + new_dist + 2 * count_new) - (old_dist + 2 * count_old);
    proof {
        assert forall|i: int| 0 <= i < t && c[i] != 0 implies node.cost@[c[i] as int]
            == #[trigger] tile_cost(kind, c, end@, n, i) by {
            if i != m {
                assert(i != b);
                assert(c[i] != elem);
            }
        }
    }
    node
}

/// Every heuristic is zero exactly on the goal arrangement.
pub proof fn lemma_zero_iff_goal(
    kind: Heuristic,
    s: Seq<usize>,
    goal: Seq<usize>,
    end: Seq<usize>,
    n: int,
)
    requires
        size_ok(n),
        is_arrangement(s, n),
        is_arrangement(goal, n),
        is_inverse(end, goal),
    ensures
        heuristic_value(kind, s, end, n) == 0 <==> s == goal,
{
    let t = n * n;
    let f = costs_fn(kind, s, end, n);
    assert forall|i: int| 0 <= i < s.len() implies 0 <= #[trigger] f(i) by {
        lemma_tile_cost_bounds(kind, s, end, n, i);
    }
    lemma_sum_zero(f, s.len() as int);
    lemma_arrangement_onto(s, t);
    lemma_arrangement_onto(goal, t);
    if s == goal {
        assert forall|i: int| 0 <= i < s.len() implies #[trigger] f(i) == 0 by {
            if s[i] != 0 {
                assert(end[s[i] as int] == i);
                let g = conflicts_fn(s, end, n, i);
                assert forall|j: int| 0 <= j < s.len() implies 0 <= #[trigger] g(j) by {}
                assert forall|j: int| 0 <= j < s.len() implies #[trigger] g(j) == 0 by {
                    if s[j] != 0 {
                        assert(end[s[j] as int] == j);
                    }
                }
                lemma_sum_zero(g, s.len() as int);
            }
        }
    }
    if heuristic_value(kind, s, end, n) == 0 {
        assert forall|i: int| 0 <= i < s.len() && s[i] != 0 implies end[s[i] as int] == i by {
            assert(f(i) == 0);
            lemma_tile_cost_bounds(kind, s, end, n, i);
            let g = end[s[i] as int] as int;
            lemma_cell(i, n);
            lemma_cell(g, n);
        }
        assert forall|i: int| 0 <= i < s.len() implies s[i] == goal[i] by {
            if s[i] != 0 {
                assert(occurs(goal, s[i] as int));
                let j = choose|j: int| 0 <= j < goal.len() && goal[j] == s[i];
                assert(end[goal[j] as int] == j);
            } else if goal[i] != 0 {
                assert(occurs(s, goal[i] as int));
                let j = choose|j: int| 0 <= j < s.len() && s[j] == goal[i];
                assert(end[goal[i] as int] == i);
            }
        }
        assert(s =~= goal);
    }
}

/// The estimates are ordered: linear conflict, then Manhattan distance, then tiles out
/// of their row or column, then misplaced tiles; and each is zero only at the goal.
pub proof fn lemma_heuristic_order(s: Seq<usize>, goal: Seq<usize>, end: Seq<usize>, n: int)
    requires
        size_ok(n),
        is_arrangement(s, n),
        is_arrangement(goal, n),
        is_inverse(end, goal),
    ensures
        heuristic_value(Heuristic::LinearConflict, s, end, n) >= heuristic_value(
            Heuristic::Manhattan,
            s,
            end,
            n,
        ),
        heuristic_value(Heuristic::Manhattan, s, end, n) >= heuristic_value(
            Heuristic::OutOfAxes,
            s,
            end,
            n,
        ),
        heuristic_value(Heuristic::OutOfAxes, s, end, n) >= heuristic_value(
            Heuristic::Misplaced,
            s,
            end,
            n,
        ),
        heuristic_value(Heuristic::Misplaced, s, end, n) == 0 <==> s == goal,
        heuristic_value(Heuristic::OutOfAxes, s, end, n) == 0 <==> s == goal,
        heuristic_value(Heuristic::Manhattan, s, end, n) == 0 <==> s == goal,
        heuristic_value(Heuristic::LinearConflict, s, end, n) == 0 <==> s == goal,
{
    let len = s.len() as int;
    let lc = costs_fn(Heuristic::LinearConflict, s, end, n);
    let man = costs_fn(Heuristic::Manhattan, s, end, n);
    let axes = costs_fn(Heuristic::OutOfAxes, s, end, n);
    let mis = costs_fn(Heuristic::Misplaced, s, end, n);
    assert forall|i: int| 0 <= i < len implies #[trigger] man(i) <= lc(i) by {
        lemma_tile_cost_bounds(Heuristic::LinearConflict, s, end, n, i);
    }
    assert forall|i: int| 0 <= i < len implies #[trigger] axes(i) <= man(i) by {}
    assert forall|i: int| 0 <= i < len implies #[trigger] mis(i) <= axes(i) by {
        if s[i] != 0 {
            let g = end[s[i] as int] as int;
            lemma_cell(i, n);
            lemma_cell(g, n);
        }
    }
    lemma_sum_le(man, lc, len);
    lemma_sum_le(axes, man, len);
    lemma_sum_le(mis, axes, len);
    lemma_zero_iff_goal(Heuristic::Misplaced, s, goal, end, n);
    lemma_zero_iff_goal(Heuristic::OutOfAxes, s, goal, end, n);
    lemma_zero_iff_goal(Heuristic::Manhattan, s, goal, end, n);
    lemma_zero_iff_goal(Heuristic::LinearConflict, s, goal, end, n);
}

/// One slide of the blank lowers the Manhattan distance by at most one.
pub proof fn lemma_manhattan_step(a: Seq<usize>, p: Position, m: Move, b: Seq<usize>, end: Seq<usize>, n: int)
    requires
        inputs_ok(a, end, n),
        slides(a, p, m, b, n),
    ensures
        inputs_ok(b, end, n),
        heuristic_value(Heuristic::Manhattan, a, end, n) <= heuristic_value(
            Heuristic::Manhattan,
            b,
            end,
            n,
        ) + 1,
{
    let q = p.update_spec(m);
    crate::node::lemma_step_cells(p, m, n);
    let pi = p.index_spec(n);
    let qi = q.index_spec(n);
    lemma_index_inside(p.x as int, p.y as int, n);
    lemma_index_inside(q.x as int, q.y as int, n);
    assert(crate::grid::distinct(b)) by {
        assert forall|i: int, j: int| 0 <= i < b.len() && 0 <= j < b.len() && i != j implies b[i]
            != b[j] by {
            let si = if i == pi { qi } else if i == qi { pi } else { i };
            let sj = if j == pi { qi } else if j == qi { pi } else { j };
            assert(b[i] == a[si]);
            assert(b[j] == a[sj]);
        }
    }
    assert(b[qi] == 0);
    assert(swap_spec(b, qi, pi) =~= a);
    lemma_local_step(Heuristic::Manhattan, b, end, n, qi, pi);
    let e = b[pi];
    let g = end[e as int] as int;
    lemma_cell(g, n);
    assert(a[qi] == e);
}

/// Manhattan distance never overestimates: along any solution path, it is at most the
/// number of moves left.
pub proof fn lemma_manhattan_admissible(
    path: Seq<State>,
    start: Seq<usize>,
    goal: Seq<usize>,
    end: Seq<usize>,
    n: int,
)
    requires
        size_ok(n),
        is_arrangement(start, n),
        is_arrangement(goal, n),
        is_inverse(end, goal),
        path_ok(path, start, goal, n),
    ensures
        heuristic_value(Heuristic::Manhattan, start, end, n) <= path.len() - 1,
    decreases path.len(),
{
    if path.len() == 1 {
        lemma_zero_iff_goal(Heuristic::Manhattan, start, goal, end, n);
    } else {
        let next = path[1].map@;
        let k: int = 0;
        assert(one_move(path[k].map@, path[k + 1].movement, path[k + 1].map@, n));
        let p = choose|p: Position| slides(start, p, path[1].movement, next, n);
        lemma_manhattan_step(start, p, path[1].movement, next, end, n);
        let rest = path.drop_first();
        let rest0 = State { map: rest[0].map, movement: Move::No };
        let tail = rest.update(0, rest0);
        assert forall|i: int| 0 <= i < tail.len() - 1 implies one_move(
            tail[i].map@,
            #[trigger] tail[i + 1].movement,
            tail[i + 1].map@,
            n,
        ) by {
            assert(tail[i + 1] == path[i + 2]);
            assert(tail[i].map@ == path[i + 1].map@);
        }
        assert(tail.last() == path.last() || tail.len() == 1);
        lemma_manhattan_admissible(tail, next, goal, end, n);
    }
}

/// The cost vector is determined by the arrangement: the incremental update and the full
/// computation of one heuristic give the same vector, not only the same estimate.
pub proof fn lemma_costs_unique(
    kind: Heuristic,
    c1: Seq<usize>,
    c2: Seq<usize>,
    s: Seq<usize>,
    end: Seq<usize>,
    n: int,
)
    requires
        size_ok(n),
        is_arrangement(s, n),
        costs_match(kind, c1, s, end, n),
        costs_match(kind, c2, s, end, n),
    ensures
        c1 == c2,
{
    lemma_arrangement_onto(s, n * n);
    assert forall|k: int| 0 <= k < c1.len() implies c1[k] == c2[k] by {
        if k != 0 {
            assert(occurs(s, k));
            let i = choose|i: int| 0 <= i < s.len() && s[i] == k;
            assert(c1[s[i] as int] == tile_cost(kind, s, end, n, i));
            assert(c2[s[i] as int] == tile_cost(kind, s, end, n, i));
        }
    }
    assert(c1 =~= c2);
}

} // verus!