//! Goal arrangements (classic, reversed, snail) and random puzzles shuffled from a goal.

use vstd::prelude::*;
use vstd::string::StringExecFns;
use rand::seq::SliceRandom;
use crate::grid::{Move, Position, is_arrangement, same_text, swap_spec};


verus! {

/// Classic goal: tiles `1 .. n*n - 1` in order, then the blank.
pub open spec fn classic_value(i: int, t: int) -> int {
    if i + 1 < t {
        i + 1
    } else {
        0
    }
}

/// The tiles in ascending order with the blank last.
pub fn classic(size: usize) -> (r: Vec<usize>)
    requires
        1 <= size <= 1000,
    ensures
        r@.len() == size * size,
        forall|i: int| 0 <= i < r@.len() ==> r@[i] == classic_value(i, size * size),
        is_arrangement(r@, size as int),
{
    proof {
        assert(size * size <= 1_000_000) by (nonlinear_arith)
            requires
                size <= 1000,
        ;
        assert(size * size >= 1) by (nonlinear_arith)
            requires
                size >= 1,
        ;
    }
    let t = size * size;
    let mut goal: Vec<usize> = Vec::new();
    let mut i: usize = 1;
    while i < t
        invariant
            1 <= i <= t,
            t == size * size,
            goal@.len() == i - 1,
            forall|k: int| 0 <= k < goal@.len() ==> goal@[k] == k + 1,
        decreases t - i,
    {
        goal.push(i);
        i = i + 1;
    }
    goal.push(0);
    goal
}

/// The tiles in descending order, the blank last.
pub fn reversed(size: usize) -> (r: Vec<usize>)
    requires
        1 <= size <= 1000,
    ensures
        r@.len() == size * size,
        forall|i: int| 0 <= i < r@.len() ==> r@[i] == size * size - 1 - i,
        is_arrangement(r@, size as int),
{
    proof {
        assert(size * size <= 1_000_000) by (nonlinear_arith)
            requires
                size <= 1000,
        ;
    }
    let t = size * size;
    let mut goal: Vec<usize> = Vec::new();
    let mut i: usize = 0;
    while i < t
        invariant
            i <= t,
            t == size * size,
            goal@.len() == i,
            forall|k: int| 0 <= k < goal@.len() ==> goal@[k] == t - 1 - k,
        decreases t - i,
    {
        goal.push(t - 1 - i);
        i = i + 1;
    }
    goal
}

/// Ring of cell (`r`, `c`): its distance to the nearest edge.
pub open spec fn ring(r: int, c: int, n: int) -> int {
    let a = if r < c { r } else { c };
    let b = if n - 1 - r < n - 1 - c { n - 1 - r } else { n - 1 - c };
    if a < b { a } else { b }
}

/// Place of cell `i` on the clockwise spiral that starts at the top-left corner.
pub open spec fn spiral_rank(i: int, n: int) -> int {
    let r = i / n;
    let c = i % n;
    let k = ring(r, c, n);
    let m = n - 2 * k;
    let before = n * n - m * m;
    let off = if r == k {
        c - k
    } else if c == n - 1 - k {
        (m - 1) + (r - k)
    } else if r == n - 1 - k {
        2 * (m - 1) + (n - 1 - k - c)
    } else {
        3 * (m - 1) + (n - 1 - k - r)
    };
    before + off
}

/// Snail goal: tiles numbered along the clockwise spiral, the blank where it ends.
pub open spec fn snail_value(i: int, n: int) -> int {
    if spiral_rank(i, n) + 1 < n * n {
        spiral_rank(i, n) + 1
    } else {
        0
    }
}

/// The tiles numbered along a clockwise spiral from the top-left corner, the blank at its end.
pub fn snail(size: usize) -> (r: Vec<usize>)
    requires
        1 <= size <= 1000,
    ensures
        r@.len() == size * size,
        forall|i: int| 0 <= i < r@.len() ==> r@[i] == snail_value(i, size as int),
{
    proof {
        assert(size * size <= 1_000_000) by (nonlinear_arith)
            requires
                size <= 1000,
        ;
    }
    let n = size;
    let t = size * size;
    let mut goal: Vec<usize> = Vec::new();
    let mut i: usize = 0;
    while i < t
        invariant
            i <= t,
            t == n * n,
            1 <= n <= 1000,
            t <= 1_000_000,
            goal@.len() == i,
            forall|k: int| 0 <= k < goal@.len() ==> goal@[k] == snail_value(k, n as int),
        decreases t - i,
    {
        let r = i / n;
        let c = i % n;
        proof {
            crate::heuristic::lemma_cell(i as int, n as int);
        }
        let a = if r < c { r } else { c };
        let b = if n - 1 - r < n - 1 - c { n - 1 - r } else { n - 1 - c };
        let k = if a < b { a } else { b };
        let m = n - 2 * k;
        proof {
            assert(m * m <= n * n) by (nonlinear_arith)
                requires
                    0 <= m <= n,
            ;
            assert(n * n <= 1_000_000) by (nonlinear_arith)
                requires
                    n <= 1000,
            ;
        }
        let before = n * n - m * m;
        let off = if r == k {
            c - k
        } else if c == n - 1 - k {
            (m - 1) + (r - k)
        } else if r == n - 1 - k {
            2 * (m - 1) + (n - 1 - k - c)
        } else {
            3 * (m - 1) + (n - 1 - k - r)
        };
        let rank = before + off;
        goal.push(if rank + 1 < t { rank + 1 } else { 0 });
        i = i + 1;
    }
    goal
}

/// The goal that a style name selects: "classic", "reversed", or the snail otherwise.
pub open spec fn goal_value(goal: Seq<char>, i: int, n: int) -> int {
    if goal == "classic"@ {
        classic_value(i, n * n)
    } else if goal == "reversed"@ {
        n * n - 1 - i
    } else {
        snail_value(i, n)
    }
}

/// The goal of a style on a grid of side `n`.
pub open spec fn goal_seq(goal: Seq<char>, n: int) -> Seq<usize> {
    Seq::new((n * n) as nat, |i: int| goal_value(goal, i, n) as usize)
}

/// Relies on rand's `SliceRandom::choose` with `thread_rng`: one of the items, drawn at
/// random; `None` only for an empty slice.
#[verifier::external_body]
pub(crate) fn pick<T: Copy>(items: &Vec<T>) -> (r: T)
    requires
        items@.len() > 0,
    ensures
        items@.contains(r),
{
    *items.choose(&mut rand::thread_rng()).unwrap()
}


/// The character of a decimal digit.
pub open spec fn digit_char(d: int) -> char {
    ((48 + d) as u32) as char
}

/// The decimal digits of `n`, without sign or leading zeros.
pub open spec fn decimal_spec(n: nat) -> Seq<char>
    decreases n,
{
    if n < 10 {
        seq![digit_char(n as int)]
    } else {
        decimal_spec(n / 10) + seq![digit_char((n % 10) as int)]
    }
}

/// Relies on `usize::to_string` (its `Display`): the decimal digits of `n`.
#[verifier::external_body]
pub(crate) fn decimal(n: usize) -> (r: String)
    ensures
        r@ == decimal_spec(n as nat),
{
    n.to_string()
}


/// The arrangement and blank after the moves `ms`, one after the other, from `a` with
/// its blank at `p`.
pub open spec fn walk(a: Seq<usize>, p: Position, ms: Seq<Move>, n: int) -> (Seq<usize>, Position)
    decreases ms.len(),
{
    if ms.len() == 0 {
        (a, p)
    } else {
        let (b, q) = walk(a, p, ms.drop_last(), n);
        let m = ms.last();
        (swap_spec(b, q.index_spec(n), q.update_spec(m).index_spec(n)), q.update_spec(m))
    }
}

/// Iterations of the shuffle for a difficulty: 5, 25, 100 or 10000 moves per unit of
/// size for "easy", "normal", "hard" and "epic", 1 otherwise.
pub open spec fn level_iterations(level: Seq<char>, size: int) -> int {
    if level == "easy"@ {
        5 * size
    } else if level == "normal"@ {
        25 * size
    } else if level == "hard"@ {
        100 * size
    } else if level == "epic"@ {
        10000 * size
    } else {
        1
    }
}

/// The count or level part of a generated file's name.
pub open spec fn label_spec(iter: Option<usize>, level: Seq<char>) -> Seq<char> {
    match iter {
        Some(i) => decimal_spec(i as nat),
        None => level,
    }
}

/// Path of a generated puzzle file: `<dir>/<goal>_<label>_<size>x<size>`.
pub open spec fn target_spec(dir: Seq<char>, goal: Seq<char>, label: Seq<char>, size: nat) -> Seq<
    char,
> {
    dir + seq!['/'] + goal + seq!['_'] + label + seq!['_'] + decimal_spec(size) + seq!['x']
        + decimal_spec(size)
}

/// Makes shuffled puzzles of one size.
pub struct Generator {
    pub size: usize,
    /// Number of random moves of the blank.
    pub iter: usize,
    /// Path of the file to write the puzzle to.
    pub target: String,
    pub pos: Position,
}

impl Generator {
    /// A generator of side `size`: `iter` random moves if given, else as many as `level`
    /// asks; the target file is named after the goal style, the count or level, and the size.
    pub fn new(size: usize, iter: Option<usize>, level: &str, goal: &str, dir_path: &str) -> (r:
        Generator)
        requires
            1 <= size <= 1000,
        ensures
            r.size == size,
            r.iter == match iter {
                Some(i) => i as int,
                None => level_iterations(level@, size as int),
            },
            r.pos == (Position { x: 0, y: 0 }),
            r.target@ == target_spec(dir_path@, goal@, label_spec(iter, level@), size as nat),
    {
        let iterations = match iter {
            Some(i) => i,
            None => if same_text(level, "easy") {
                5 * size
            } else if same_text(level, "normal") {
                25 * size
            } else if same_text(level, "hard") {
                100 * size
            } else if same_text(level, "epic") {
                10000 * size
            } else {
                1
            },
        };
        let label = match iter {
            Some(i) => decimal(i),
            None => level.to_owned(),
        };
        let slash = "/";
        let under = "_";
        let times = "x";
        proof {
            reveal_strlit("/");
            reveal_strlit("_");
            reveal_strlit("x");
            assert(slash@ =~= seq!['/']);
            assert(under@ =~= seq!['_']);
            assert(times@ =~= seq!['x']);
        }
        let side = decimal(size);
        let mut target = dir_path.to_owned();
        target.append(slash);
        target.append(goal);
        target.append(under);
        target.append(label.as_str());
        target.append(under);
        target.append(side.as_str());
        target.append(times);
        target.append(side.as_str());
        Generator { size, iter: iterations, target, pos: Position { x: 0, y: 0 } }
    }

    /// The goal arrangement of a style: "classic", "reversed", or the snail otherwise.
    pub fn generate_goal(goal: &str, size: usize) -> (r: Vec<usize>)
        requires
            1 <= size <= 1000,
        ensures
            r@.len() == size * size,
            forall|i: int| 0 <= i < r@.len() ==> r@[i] == goal_value(goal@, i, size as int),
    {
        if same_text(goal, "classic") {
            Generator::classic(size)
        } else if same_text(goal, "reversed") {
            Generator::reversed(size)
        } else {
            Generator::snail(size)
        }
    }

    /// The classic goal.
    pub fn classic(size: usize) -> (r: Vec<usize>)
        requires
            1 <= size <= 1000,
        ensures
            r@.len() == size * size,
            forall|i: int| 0 <= i < r@.len() ==> r@[i] == classic_value(i, size * size),
    {
        classic(size)
    }

    /// The reversed goal.
    pub fn reversed(size: usize) -> (r: Vec<usize>)
        requires
            1 <= size <= 1000,
        ensures
            r@.len() == size * size,
            forall|i: int| 0 <= i < r@.len() ==> r@[i] == size * size - 1 - i,
    {
        reversed(size)
    }

    /// The snail goal.
    pub fn snail(size: usize) -> (r: Vec<usize>)
        requires
            1 <= size <= 1000,
        ensures
            r@.len() == size * size,
            forall|i: int| 0 <= i < r@.len() ==> r@[i] == snail_value(i, size as int),
    {
        snail(size)
    }

    /// Slides the blank, at `pos` in `map`, `self.iter` times in a direction drawn at
    /// random among those the grid's edges allow.
    pub fn shuffle_map(&self, map: Vec<usize>, pos: Position) -> (r: Vec<usize>)
        requires
            2 <= self.size <= 1000,
            map@.len() == self.size * self.size,
            pos.inside(self.size as int),
            map@[pos.index_spec(self.size as int)] == 0,
        ensures
            r@.len() == map@.len(),
            exists|ms: Seq<Move>|
                ms.len() == self.iter && (#[trigger] walk(map@, pos, ms, self.size as int)).0
                    == r@,
    {
        let n = self.size;
        let ghost a0 = map@;
        let ghost origin = pos;
        let ghost mut ms: Seq<Move> = Seq::empty();
        let mut map = map;
        let mut pos = pos;
        let mut k: usize = 0;
        proof {
            assert(n * n <= 1_000_000) by (nonlinear_arith)
                requires
                    n <= 1000,
            ;
        }
        while k < self.iter
            invariant
                2 <= n <= 1000,
                n == self.size,
                n * n <= 1_000_000,
                k <= self.iter,
                map@.len() == n * n,
                pos.inside(n as int),
                map@[pos.index_spec(n as int)] == 0,
                ms.len() == k,
                walk(a0, origin, ms, n as int) == (map@, pos),
            decreases self.iter - k,
        {
            let candidates = pos.possible_moves(n);
            let mut moves: Vec<Move> = Vec::new();
            let mut j: usize = 0;
            while j < 4
                invariant
                    j <= 4,
                    candidates@.len() == 4,
                    moves@.len() == 0 ==> forall|q: int| 0 <= q < j ==> candidates@[q] == Move::No,
                    forall|q: int|
                        0 <= q < moves@.len() ==> #[trigger] moves@[q] != Move::No
                            && candidates@.contains(moves@[q]),
                decreases 4 - j,
            {
                if candidates[j] != Move::No {
                    moves.push(candidates[j]);
                }
                j = j + 1;
            }
            if moves.len() == 0 {
                proof {
                    assert(candidates@[0] == Move::No && candidates@[1] == Move::No);
                }
                return map;
            }
            let movement = pick(&moves);
            proof {
                crate::node::lemma_step_cells(pos, movement, n as int);
            }
            let next = pos.update(&movement);
            map = movement.do_move(map, &pos, n);
            proof {
                let ms2 = ms.push(movement);
                assert(ms2.drop_last() =~= ms);
                ms = ms2;
            }
            pos = next;
            k = k + 1;
        }
        map
    }

    /// A puzzle shuffled from the goal of style `goal`: the blank of the goal slides
    /// `self.iter` times at random. A goal without a blank comes back unchanged.
    pub fn generate_map(&self, goal: &str) -> (r: Vec<usize>)
        requires
            2 <= self.size <= 1000,
        ensures
            r@.len() == self.size * self.size,
            exists|g: Seq<usize>|
                {
                    &&& g.len() == self.size * self.size
                    &&& forall|i: int|
                        0 <= i < g.len() ==> #[trigger] g[i] == goal_value(goal@, i, self.size as int)
                    &&& (g.contains(0usize) ==> exists|ms: Seq<Move>, p: Position|
                        p.inside(self.size as int) && g[p.index_spec(self.size as int)] == 0
                            && ms.len() == self.iter && (#[trigger] walk(
                            g,
                            p,
                            ms,
                            self.size as int,
                        )).0 == r@)
                },
    {
        let n = self.size;
        let map = Generator::generate_goal(goal, n);
        let ghost g = map@;
        let len = map.len();
        let mut index: usize = 0;
        while index < len && map[index] != 0
            invariant
                len == map@.len(),
                index <= len,
                forall|j: int| 0 <= j < index ==> map@[j] != 0,
            decreases len - index,
        {
            index = index + 1;
        }
        if index == len {
            return map;
        }
        let pos = Position { x: index % n, y: index / n };
        proof {
            vstd::arithmetic::div_mod::lemma_fundamental_div_mod(index as int, n as int);
            assert(pos.index_spec(n as int) == index) by (nonlinear_arith)
                requires
                    pos.x == index % n,
                    pos.y == index / n,
                    index == n * (index / n) + index % n,
            ;
            crate::heuristic::lemma_cell(index as int, n as int);
        }
        self.shuffle_map(map, pos)
    }
}

} // verus!