//! Random puzzles made by sliding the blank of a goal, counted by cell index, and their
//! text form.

use vstd::prelude::*;
use vstd::string::StringExecFns;
use crate::generator::{Generator, decimal, decimal_spec, goal_seq, pick};
use crate::grid::{Container, same_text, swap_spec};

verus! {

/// A puzzle being shuffled: its tiles and the cell of its blank.
pub struct Puzzle {
    pub map: Vec<usize>,
    pub empty: usize,
}

/// The blank at `e` may move to `f` on a grid of side `n`: up (when it is below the first
/// row but not on the first cell of the second), left, right or down.
pub open spec fn neighbour(e: int, f: int, n: int) -> bool {
    ||| (e > n && f == e - n)
    ||| (e % n != 0 && f == e - 1)
    ||| (e % n != n - 1 && f == e + 1)
    ||| (e < n * n - n && f == e + n)
}

/// The blank is at `empty`, inside a grid of side `n`.
pub open spec fn puzzle_ok(p: Puzzle, n: int) -> bool {
    &&& 2 <= n <= 1000
    &&& p.map@.len() == n * n
    &&& p.empty < n * n
    &&& p.map@[p.empty as int] == 0
}

/// The blank at `p` moves to cell `tile`.
pub fn swap_tiles(puzzle: Puzzle, tile: usize) -> (r: Puzzle)
    requires
        puzzle.empty < puzzle.map@.len(),
        tile < puzzle.map@.len(),
    ensures
        r.map@ == swap_spec(puzzle.map@, puzzle.empty as int, tile as int),
        r.empty == tile,
{
    let mut puzzle = puzzle;
    let tmp = puzzle.map[puzzle.empty];
    let other = puzzle.map[tile];
    puzzle.map.set(puzzle.empty, other);
    puzzle.map.set(tile, tmp);
    puzzle.empty = tile;
    puzzle
}

/// The blank moves to one of its neighbouring cells, drawn at random.
pub fn random_swap(puzzle: Puzzle, size: usize) -> (r: Puzzle)
    requires
        puzzle_ok(puzzle, size as int),
    ensures
        puzzle_ok(r, size as int),
        neighbour(puzzle.empty as int, r.empty as int, size as int),
        r.map@ == swap_spec(puzzle.map@, puzzle.empty as int, r.empty as int),
{
    let ghost n = size as int;
    let e = puzzle.empty;
    proof {
        assert(n * n <= 1_000_000) by (nonlinear_arith)
            requires
                2 <= n <= 1000,
        ;
        crate::heuristic::lemma_cell(e as int, n);
        assert(n * n >= n) by (nonlinear_arith)
            requires
                n >= 2,
        ;
        let ei = e as int;
        assert(ei % n != n - 1 ==> ei + 1 < n * n) by (nonlinear_arith)
            requires
                ei == (ei / n) * n + ei % n,
                0 <= ei / n < n,
                0 <= ei % n < n,
        ;
    }
    let t = size * size;
    let mut moves: Vec<usize> = Vec::new();
    if e > size {
        moves.push(e - size);
    }
    assert(forall|k: int|
        0 <= k < moves@.len() ==> neighbour(e as int, #[trigger] moves@[k] as int, n) && moves@[k] < t);
    if e % size != 0 {
        moves.push(e - 1);
    }
    assert(forall|k: int|
        0 <= k < moves@.len() ==> neighbour(e as int, #[trigger] moves@[k] as int, n) && moves@[k] < t);
    if e % size != size - 1 {
        moves.push(e + 1);
    }
    assert(forall|k: int|
        0 <= k < moves@.len() ==> neighbour(e as int, #[trigger] moves@[k] as int, n) && moves@[k] < t);
    if e < t - size {
        moves.push(e + size);
    }
    assert(forall|k: int|
        0 <= k < moves@.len() ==> neighbour(e as int, #[trigger] moves@[k] as int, n) && moves@[k] < t);
    assert(moves@.len() > 0);
    let tile = pick(&moves);
    proof {
        let k = choose|k: int| 0 <= k < moves@.len() && moves@[k] == tile;
        assert(neighbour(e as int, moves@[k] as int, n));
    }
    let r = swap_tiles(puzzle, tile);
    proof {
        assert(r.map@[tile as int] == 0);
    }
    r
}

/// The tiles after the blank, from cell `e` of `m`, moves to each cell of `cells` in turn,
/// and where it ends.
pub open spec fn blank_walk(m: Seq<usize>, e: int, cells: Seq<int>) -> (Seq<usize>, int)
    decreases cells.len(),
{
    if cells.len() == 0 {
        (m, e)
    } else {
        let (m1, e1) = blank_walk(m, e, cells.drop_last());
        (swap_spec(m1, e1, cells.last()), cells.last())
    }
}

/// Each cell of `cells` neighbours the one before, the first neighbouring `e`.
pub open spec fn walk_of_neighbours(e: int, cells: Seq<int>, n: int) -> bool {
    forall|k: int|
        0 <= k < cells.len() ==> neighbour(
            if k == 0 {
                e
            } else {
                cells[k - 1]
            },
            #[trigger] cells[k],
            n,
        )
}

/// Moves the blank `interations` times at random, each time to a neighbouring cell.
pub fn shuffle_puzzle(puzzle: Puzzle, interations: usize, size: usize) -> (r: Puzzle)
    requires
        puzzle_ok(puzzle, size as int),
    ensures
        puzzle_ok(r, size as int),
        exists|cells: Seq<int>|
            cells.len() == interations && walk_of_neighbours(puzzle.empty as int, cells, size as int)
                && #[trigger] blank_walk(puzzle.map@, puzzle.empty as int, cells) == (
                r.map@,
                r.empty as int,
            ),
{
    let ghost m0 = puzzle.map@;
    let ghost e0 = puzzle.empty as int;
    let ghost mut cells: Seq<int> = Seq::empty();
    let mut puzzle = puzzle;
    let mut k: usize = 0;
    while k < interations
        invariant
            puzzle_ok(puzzle, size as int),
            k <= interations,
            cells.len() == k,
            walk_of_neighbours(e0, cells, size as int),
            blank_walk(m0, e0, cells) == (puzzle.map@, puzzle.empty as int),
        decreases interations - k,
    {
        let ghost before = puzzle.empty as int;
        puzzle = random_swap(puzzle, size);
        proof {
            let c2 = cells.push(puzzle.empty as int);
            assert(c2.drop_last() =~= cells);
            assert forall|q: int| 0 <= q < c2.len() implies neighbour(
                if q == 0 {
                    e0
                } else {
                    c2[q - 1]
                },
                #[trigger] c2[q],
                size as int,
            ) by {
                if q < cells.len() {
                    assert(c2[q] == cells[q]);
                    if q > 0 {
                        assert(c2[q - 1] == cells[q - 1]);
                    }
                } else if q > 0 {
                    assert(c2[q - 1] == cells[q - 1]);
                    assert(blank_walk(m0, e0, cells).1 == cells.last());
                }
            }
            cells = c2;
        }
        k = k + 1;
    }
    puzzle
}

/// Moves of the blank for a difficulty: 15, 51 or 141 for "easy", "normal" and "hard",
/// 1 otherwise.
pub open spec fn iterations_for(difficulty: Seq<char>) -> int {
    if difficulty == "easy"@ {
        15
    } else if difficulty == "normal"@ {
        51
    } else if difficulty == "hard"@ {
        141
    } else {
        1
    }
}

/// The number of moves of the blank for a difficulty.
pub fn get_iterations(difficulty: &str) -> (r: usize)
    ensures
        r == iterations_for(difficulty@),
{
    if same_text(difficulty, "easy") {
        15
    } else if same_text(difficulty, "normal") {
        51
    } else if same_text(difficulty, "hard") {
        141
    } else {
        1
    }
}

/// Text of the tiles from cell `i` on: a line break before each row, each tile followed by
/// a tab.
pub open spec fn cells_text(p: Seq<usize>, size: int, i: int) -> Seq<char>
    decreases p.len() - i,
{
    if i >= p.len() || i < 0 {
        seq!['\n']
    } else {
        (if i % size == 0 {
            seq!['\n']
        } else {
            Seq::<char>::empty()
        }) + decimal_spec(p[i] as nat) + seq!['\t'] + cells_text(p, size, i + 1)
    }
}

/// The puzzle as the text of a puzzle file: the side, then each row on a line.
pub fn puzzle_to_str(puzzle: Vec<usize>, size: usize) -> (r: String)
    requires
        size >= 1,
        puzzle@.len() == size * size,
    ensures
        r@ == decimal_spec(size as nat) + cells_text(puzzle@, size as int, 0),
{
    let mut result = decimal(size);
    let ghost head = result@;
    let t = puzzle.len();
    let mut i: usize = 0;
    while i < t
        invariant
            t == puzzle@.len(),
            i <= t,
            size >= 1,
            result@ + cells_text(puzzle@, size as int, i as int) == head + cells_text(
                puzzle@,
                size as int,
                0,
            ),
        decreases t - i,
    {
        let ghost before = result@;
        if i % size == 0 {
            result.append("\n");
        }
        let digits = decimal(puzzle[i]);
        result.append(digits.as_str());
        result.append("\t");
        proof {
            reveal_strlit("\n");
            reveal_strlit("\t");
            let nl: Seq<char> = if i % size == 0 { seq!['\n'] } else { Seq::<char>::empty() };
            assert(result@ == before + nl + decimal_spec(puzzle@[i as int] as nat) + seq!['\t']);
            assert(cells_text(puzzle@, size as int, i as int) == nl + decimal_spec(
                puzzle@[i as int] as nat,
            ) + seq!['\t'] + cells_text(puzzle@, size as int, i + 1));
            assert(result@ + cells_text(puzzle@, size as int, i + 1) =~= before + cells_text(
                puzzle@,
                size as int,
                i as int,
            ));
        }
        i = i + 1;
    }
    result.append("\n");
    proof {
        reveal_strlit("\n");
        assert(cells_text(puzzle@, size as int, t as int) == seq!['\n']);
    }
    result
}

/// A puzzle shuffled from the goal of style `goal` by `iterations` random moves of the
/// blank. A goal without a blank comes back unchanged.
pub fn generate_puzzle(size: usize, iterations: usize, goal: &str) -> (r: Vec<usize>)
    requires
        2 <= size <= 1000,
    ensures
        r@.len() == size * size,
        goal_seq(goal@, size as int).contains(0usize) ==> exists|e: int, cells: Seq<int>|
            {
                &&& 0 <= e < size * size
                &&& goal_seq(goal@, size as int)[e] == 0
                &&& cells.len() == iterations
                &&& walk_of_neighbours(e, cells, size as int)
                &&& (#[trigger] blank_walk(goal_seq(goal@, size as int), e, cells)).0 == r@
            },
{
    let map = Generator::generate_goal(goal, size);
    let len = map.len();
    let mut index: usize = 0;
    while index < len && map[index] != 0
        invariant
            len == map@.len(),
            index <= len,
            forall|j: int| 0 <= j < index ==> map@[j] != 0,
        decreases len - index,
    {
        index = index + 1;
    }
    let ghost g = map@;
    proof {
        assert(g =~= goal_seq(goal@, size as int));
    }
    if index == len {
        proof {
            if g.contains(0usize) {
                let j = choose|j: int| 0 <= j < g.len() && g[j] == 0usize;
                assert(map@[j] != 0);
            }
        }
        return map;
    }
    let puzzle = shuffle_puzzle(Puzzle { map, empty: index }, iterations, size);
    puzzle.map
}

/// Text of a grid from cell `i` on: the first tile alone, a line break before each other
/// row, three spaces between tiles of a row, and a final line break.
pub open spec fn grid_text(p: Seq<usize>, size: int, i: int) -> Seq<char>
    decreases p.len() - i,
{
    if i >= p.len() || i < 0 {
        seq!['\n']
    } else {
        (if i == 0 {
            Seq::<char>::empty()
        } else if i % size == 0 {
            seq!['\n']
        } else {
            seq![' ', ' ', ' ']
        }) + decimal_spec(p[i] as nat) + grid_text(p, size, i + 1)
    }
}

impl Container {
    /// The grid as text, one row per line.
    pub fn to_text(&self) -> (r: String)
        requires
            self.1 >= 1,
        ensures
            r@ == grid_text(self.0@, self.1 as int, 0),
    {
        let size = self.1;
        let t = self.0.len();
        let mut result = String::new();
        let mut i: usize = 0;
        while i < t
            invariant
                t == self.0@.len(),
                i <= t,
                size == self.1,
                size >= 1,
                result@ + grid_text(self.0@, size as int, i as int) == grid_text(
                    self.0@,
                    size as int,
                    0,
                ),
            decreases t - i,
        {
            let ghost before = result@;
            let nl = "\n";
            let gap = "   ";
            proof {
                reveal_strlit("\n");
                reveal_strlit("   ");
            }
            if i == 0 {
            } else if i % size == 0 {
                result.append(nl);
            } else {
                result.append(gap);
            }
            let digits = decimal(self.0[i]);
            result.append(digits.as_str());
            proof {
                let sep: Seq<char> = if i == 0 {
                    Seq::<char>::empty()
                } else if i % size == 0 {
                    seq!['\n']
                } else {
                    seq![' ', ' ', ' ']
                };
                assert(nl@ =~= seq!['\n']);
                assert(gap@ =~= seq![' ', ' ', ' ']);
                assert(result@ =~= before + sep + decimal_spec(self.0@[i as int] as nat));
                assert(result@ + grid_text(self.0@, size as int, i + 1) =~= before + grid_text(
                    self.0@,
                    size as int,
                    i as int,
                ));
            }
            i = i + 1;
        }
        let nl = "\n";
        proof {
            reveal_strlit("\n");
            assert(nl@ =~= seq!['\n']);
        }
        result.append(nl);
        result
    }
}

} // verus!