//! Solvability by inversion parity, and validation of the tiles read from a puzzle.

use vstd::prelude::*;
use crate::grid::{MAX_SIZE, distinct, swap_spec};
use crate::sums::{lemma_sum_add, lemma_sum_ext, lemma_sum_sub, lemma_sum_two, sum_upto};

verus! {

/// 1 when the cells `i < j` hold two tiles (not the blank) in decreasing order.
pub open spec fn inversion_ind(s: Seq<usize>, i: int, j: int) -> int {
    if i < j && s[i] != 0 && s[j] != 0 && s[i] > s[j] {
        1
    } else {
        0
    }
}

/// Inversions that the tile at cell `i` makes with the cells after it.
pub open spec fn row_inversions(s: Seq<usize>, i: int) -> int {
    sum_upto(|j: int| inversion_ind(s, i, j), s.len() as int)
}

/// Number of pairs of cells `i < j` whose tiles, the blank ignored, are out of order.
pub open spec fn inversions(s: Seq<usize>) -> int {
    sum_upto(|i: int| row_inversions(s, i), s.len() as int)
}

/// The first cell that holds the blank.
pub open spec fn first_blank(s: Seq<usize>) -> int {
    choose|i: int| 0 <= i < s.len() && s[i] == 0 && forall|j: int| 0 <= j < i ==> s[j] != 0
}

/// Inversions, plus the blank's row when the side is even.
pub open spec fn parity_count(s: Seq<usize>, size: int) -> int {
    if size % 2 == 0 {
        inversions(s) + first_blank(s) / size
    } else {
        inversions(s)
    }
}

/// `start` can reach `end`: their parity counts agree.
pub open spec fn solvable(start: Seq<usize>, end: Seq<usize>, size: int) -> bool {
    parity_count(start, size) % 2 == parity_count(end, size) % 2
}

/// The cell of the first blank.
fn blank_index(map: &Vec<usize>) -> (r: usize)
    requires
        map@.contains(0usize),
    ensures
        r == first_blank(map@),
        r < map@.len(),
{
    let len = map.len();
    let mut index: usize = 0;
    while index < len && map[index] != 0
        invariant
            len == map@.len(),
            index <= len,
            map@.contains(0usize),
            forall|j: int| 0 <= j < index ==> map@[j] != 0,
        decreases len - index,
    {
        index = index + 1;
    }
    proof {
        if index == len {
            let w = choose|w: int| 0 <= w < len && map@[w] == 0usize;
            assert(map@[w] != 0);
        }
        let c = first_blank(map@);
        assert(0 <= c < len && map@[c] == 0 && forall|j: int| 0 <= j < c ==> map@[j] != 0);
        if c < index {
            assert(map@[c] != 0);
        }
        if index < c {
            assert(map@[index as int] != 0);
        }
    }
    index
}

/// Number of out-of-order pairs of tiles, the blank ignored.
pub fn get_inversions(map: &Vec<usize>) -> (r: usize)
    requires
        1 <= map@.len() <= MAX_SIZE * MAX_SIZE,
    ensures
        r == inversions(map@),
        r <= 100_000_000,
{
    let len = map.len();
    let ghost s = map@;
    let ghost outer = |i: int| row_inversions(s, i);
    let mut total: usize = 0;
    let mut i: usize = 0;
    while i < len
        invariant
            s == map@,
            len == s.len(),
            1 <= len <= 10000,
            i <= len,
            outer == (|i: int| row_inversions(s, i)),
            total == sum_upto(outer, i as int),
            total <= i * len,
        decreases len - i,
    {
        let ghost inner = |j: int| inversion_ind(s, i as int, j);
        let mut row: usize = 0;
        let mut j: usize = 0;
        while j < len
            invariant
                s == map@,
                len == s.len(),
                i < len,
                j <= len,
                inner == (|j: int| inversion_ind(s, i as int, j)),
                row == sum_upto(inner, j as int),
                row <= j,
            decreases len - j,
        {
            if i < j && map[i] != 0 && map[j] != 0 && map[i] > map[j] {
                row = row + 1;
            }
            j = j + 1;
        }
        proof {
            assert(outer(i as int) == row);
            assert(i * len + len == (i + 1) * len) by (nonlinear_arith);
            assert((i + 1) * len <= 10000 * 10000) by (nonlinear_arith)
                requires
                    i < len,
                    len <= 10000,
            ;
        }
        total = total + row;
        i = i + 1;
    }
    proof {
        assert(len * len <= 100_000_000) by (nonlinear_arith)
            requires
                len <= 10000,
        ;
    }
    total
}

/// Whether `start` can be slid to `end`: the inversion counts, each plus its blank's row
/// on a grid of even side, have the same parity.
pub fn is_solvable(start: &Vec<usize>, end: &Vec<usize>, size: usize) -> (r: bool)
    requires
        1 <= start@.len() <= MAX_SIZE * MAX_SIZE,
        1 <= end@.len() <= MAX_SIZE * MAX_SIZE,
        size >= 1,
        size % 2 == 0 ==> start@.contains(0usize) && end@.contains(0usize),
    ensures
        r == solvable(start@, end@, size as int),
{
    let mut start_inv = get_inversions(start);
    let mut end_inv = get_inversions(end);
    if size % 2 == 0 {
        start_inv = start_inv + blank_index(start) / size;
        end_inv = end_inv + blank_index(end) / size;
    }
    start_inv % 2 == end_inv % 2
}

/// 1 when tiles `x` before `y`, neither the blank, are out of order.
pub open spec fn out_of_order(x: usize, y: usize) -> int {
    if x != 0 && y != 0 && x > y {
        1
    } else {
        0
    }
}

/// Swapping the tiles of cells `i < j`, neither the blank and not equal, changes the
/// inversion count by an odd number.
pub proof fn lemma_transposition_parity(s: Seq<usize>, i: int, j: int)
    requires
        0 <= i < j < s.len(),
        s[i] != 0,
        s[j] != 0,
        distinct(s),
    ensures
        (inversions(swap_spec(s, i, j)) + inversions(s)) % 2 == 1,
{
    let t = swap_spec(s, i, j);
    let len = s.len() as int;
    let x = s[i];
    let y = s[j];
    assert(t.len() == len);
    assert(t[i] == y && t[j] == x);
    let rt = |a: int| row_inversions(t, a);
    let rs = |a: int| row_inversions(s, a);
    let c = |a: int| rt(a) - rs(a);
    lemma_sum_sub(rt, rs, len);
    // Rows other than i and j change only at columns i and j.
    let mid = |a: int|
        if i < a < j {
            out_of_order(s[a], x) - out_of_order(s[a], y)
        } else {
            0
        };
    assert forall|a: int| 0 <= a < len && a != i && a != j implies #[trigger] c(a) == mid(a) by {
        let ft = |b: int| inversion_ind(t, a, b);
        let fs = |b: int| inversion_ind(s, a, b);
        assert forall|b: int| 0 <= b < len && b != i && b != j implies #[trigger] ft(b) == fs(b) by {
            assert(t[b] == s[b]);
            assert(t[a] == s[a]);
        }
        lemma_sum_two(ft, fs, len, i, j);
        assert(t[a] == s[a]);
    }
    // Rows i and j together.
    let fti = |b: int| inversion_ind(t, i, b);
    let fsi = |b: int| inversion_ind(s, i, b);
    let ftj = |b: int| inversion_ind(t, j, b);
    let fsj = |b: int| inversion_ind(s, j, b);
    let gi = |b: int| fti(b) - fsi(b);
    let gj = |b: int| ftj(b) - fsj(b);
    lemma_sum_sub(fti, fsi, len);
    lemma_sum_sub(ftj, fsj, len);
    assert(row_inversions(t, i) == sum_upto(fti, len));
    assert(row_inversions(s, i) == sum_upto(fsi, len));
    assert(row_inversions(t, j) == sum_upto(ftj, len));
    assert(row_inversions(s, j) == sum_upto(fsj, len));
    lemma_sum_add(gi, gj, len);
    let ends = |b: int|
        if i < b < j {
            out_of_order(y, s[b]) - out_of_order(x, s[b])
        } else if b == j {
            out_of_order(y, x) - out_of_order(x, y)
        } else {
            0
        };
    let gsum = |b: int| gi(b) + gj(b);
    assert forall|b: int| 0 <= b < len implies #[trigger] gsum(b) == ends(b) by {
        if b != i && b != j {
            assert(t[b] == s[b]);
        }
    }
    lemma_sum_ext(gsum, ends, len);
    // All rows.
    let q = |a: int|
        if a == i {
            c(i)
        } else if a == j {
            c(j)
        } else {
            0
        };
    let p = |a: int|
        if a == i || a == j {
            0
        } else {
            c(a)
        };
    let pq = |a: int| p(a) + q(a);
    assert forall|a: int| 0 <= a < len implies #[trigger] c(a) == pq(a) by {}
    lemma_sum_ext(c, pq, len);
    lemma_sum_add(p, q, len);
    lemma_sum_two(q, |a: int| 0int, len, i, j);
    lemma_sum_zero_fn(len);
    assert forall|a: int| 0 <= a < len implies #[trigger] p(a) == mid(a) by {}
    lemma_sum_ext(p, mid, len);
    let f = |a: int| mid(a) + ends(a);
    lemma_sum_add(mid, ends, len);
    assert(c(i) == sum_upto(gi, len));
    assert(c(j) == sum_upto(gj, len));
    assert(sum_upto(c, len) == sum_upto(f, len));
    lemma_odd_once(f, len, j, s, i, x, y);
}

/// The sum of the zero function is zero.
proof fn lemma_sum_zero_fn(k: int)
    ensures
        sum_upto(|a: int| 0int, k) == 0,
    decreases k,
{
    if k > 0 {
        lemma_sum_zero_fn(k - 1);
    }
}

/// The terms of the change of inversions are even but at `j`, where it is odd.
proof fn lemma_odd_once(f: spec_fn(int) -> int, k: int, j: int, s: Seq<usize>, i: int, x: usize, y: usize)
    requires
        0 <= i < j < s.len(),
        k <= s.len(),
        x == s[i],
        y == s[j],
        x != 0,
        y != 0,
        x != y,
        distinct(s),
        forall|a: int|
            #![trigger f(a)]
            0 <= a < s.len() ==> f(a) == (if i < a < j {
                out_of_order(s[a], x) - out_of_order(s[a], y)
            } else {
                0
            }) + (if i < a < j {
                out_of_order(y, s[a]) - out_of_order(x, s[a])
            } else if a == j {
                out_of_order(y, x) - out_of_order(x, y)
            } else {
                0
            }),
    ensures
        (sum_upto(f, k) - (if k > j { 1int } else { 0 })) % 2 == 0,
    decreases k,
{
    if k > 0 {
        lemma_odd_once(f, k - 1, j, s, i, x, y);
        let a = k - 1;
        if i < a < j {
            assert(s[a] != x && s[a] != y);
        }
    }
}

/// `s` after swapping, in turn, the two cells of each pair of `ps`.
pub open spec fn tile_swaps(s: Seq<usize>, ps: Seq<(int, int)>) -> Seq<usize>
    decreases ps.len(),
{
    if ps.len() == 0 {
        s
    } else {
        swap_spec(tile_swaps(s, ps.drop_last()), ps.last().0, ps.last().1)
    }
}

/// Each swap of `ps` exchanges two tiles of the grid, neither of them the blank.
pub open spec fn tile_swaps_ok(s: Seq<usize>, ps: Seq<(int, int)>) -> bool
    decreases ps.len(),
{
    if ps.len() == 0 {
        true
    } else {
        let t = tile_swaps(s, ps.drop_last());
        let (a, b) = ps.last();
        &&& tile_swaps_ok(s, ps.drop_last())
        &&& 0 <= a < t.len()
        &&& 0 <= b < t.len()
        &&& a != b
        &&& t[a] != 0
        &&& t[b] != 0
    }
}

/// Swaps of tiles keep the tiles distinct, the blanks where they were, and change the
/// parity of the inversion count once each.
proof fn lemma_swaps_parity(s: Seq<usize>, ps: Seq<(int, int)>)
    requires
        distinct(s),
        tile_swaps_ok(s, ps),
    ensures
        tile_swaps(s, ps).len() == s.len(),
        distinct(tile_swaps(s, ps)),
        forall|i: int| 0 <= i < s.len() ==> (#[trigger] tile_swaps(s, ps)[i] == 0 <==> s[i] == 0),
        (inversions(tile_swaps(s, ps)) + ps.len()) % 2 == inversions(s) % 2,
    decreases ps.len(),
{
    if ps.len() > 0 {
        let t = tile_swaps(s, ps.drop_last());
        let (a, b) = ps.last();
        lemma_swaps_parity(s, ps.drop_last());
        let u = swap_spec(t, a, b);
        assert(tile_swaps(s, ps) == u);
        assert(t[a] != t[b]);
        if a < b {
            lemma_transposition_parity(t, a, b);
        } else {
            assert(u =~= swap_spec(t, b, a));
            lemma_transposition_parity(t, b, a);
        }
        assert forall|i: int, j: int| 0 <= i < u.len() && 0 <= j < u.len() && i != j implies u[i]
            != u[j] by {
            let si = if i == a { b } else if i == b { a } else { i };
            let sj = if j == a { b } else if j == b { a } else { j };
            assert(u[i] == t[si]);
            assert(u[j] == t[sj]);
        }
        assert forall|i: int| 0 <= i < s.len() implies (#[trigger] u[i] == 0 <==> s[i] == 0) by {
            assert(tile_swaps(s, ps.drop_last())[i] == 0 <==> s[i] == 0);
        }
    }
}

/// Two arrangements with their blanks in the same cells have the same first blank.
proof fn lemma_same_first_blank(s: Seq<usize>, t: Seq<usize>)
    requires
        s.len() == t.len(),
        s.contains(0usize),
        forall|i: int| 0 <= i < s.len() ==> (#[trigger] t[i] == 0 <==> s[i] == 0),
    ensures
        first_blank(s) == first_blank(t),
{
    let w = choose|w: int| 0 <= w < s.len() && s[w] == 0usize;
    lemma_first_blank_exists(s, w);
    assert(t[w] == 0);
    lemma_first_blank_exists(t, w);
    let a = first_blank(s);
    let b = first_blank(t);
    if a < b {
        assert(t[a] == 0);
    } else if b < a {
        assert(s[b] == 0);
    }
}

/// An arrangement with a blank has a first one.
proof fn lemma_first_blank_exists(s: Seq<usize>, w: int)
    requires
        0 <= w < s.len(),
        s[w] == 0,
    ensures
        0 <= first_blank(s) < s.len(),
        s[first_blank(s)] == 0,
        forall|j: int| 0 <= j < first_blank(s) ==> s[j] != 0,
    decreases w,
{
    if exists|v: int| 0 <= v < w && s[v] == 0 {
        let v = choose|v: int| 0 <= v < w && s[v] == 0;
        lemma_first_blank_exists(s, v);
    } else {
        assert(0 <= w < s.len() && s[w] == 0 && forall|j: int| 0 <= j < w ==> s[j] != 0);
    }
}

/// The parity law: an arrangement made from `goal` by swapping two tiles (never the
/// blank), any number of times, can reach `goal` exactly when the number of swaps is even.
pub proof fn lemma_parity_law(goal: Seq<usize>, ps: Seq<(int, int)>, size: int)
    requires
        size >= 1,
        distinct(goal),
        goal.contains(0usize),
        tile_swaps_ok(goal, ps),
    ensures
        solvable(tile_swaps(goal, ps), goal, size) <==> ps.len() % 2 == 0,
{
    let a = tile_swaps(goal, ps);
    lemma_swaps_parity(goal, ps);
    lemma_same_first_blank(goal, a);
}

} // verus!