//! Validation of a puzzle read as words: the side, the number of rows and columns, each
//! tile a decimal number in range, and no tile twice.

use vstd::prelude::*;
use vstd::string::StringSliceAdditionalSpecFns;
use crate::grid::{distinct, is_arrangement, tiles_in_range};

verus! {

/// Smallest side a puzzle file may give.
pub const MIN_FILE_SIZE: usize = 3;

/// Largest side a puzzle file may give.
pub const MAX_FILE_SIZE: usize = 20;

/// Why a puzzle was rejected.
#[derive(Debug, Clone, PartialEq, Eq)]
pub enum PuzzleError {
    /// The side is not a number.
    InvalidSize,
    /// The side is below `MIN_FILE_SIZE`.
    SizeTooSmall,
    /// The side is above `MAX_FILE_SIZE`.
    SizeTooBig,
    /// Not as many rows as the side.
    Rows,
    /// A row without as many words as the side.
    Columns,
    /// A word that is not a number.
    InvalidNumber(String),
    /// A number not below the number of cells.
    NotInRange(String),
    /// A tile given twice.
    Duplicate(usize),
    /// No line holds anything but comments.
    Empty,
}

/// Value of a string of decimal digits.
pub open spec fn digits_value(s: Seq<u8>) -> int
    decreases s.len(),
{
    if s.len() == 0 {
        0
    } else {
        digits_value(s.drop_last()) * 10 + (s.last() - 48)
    }
}

/// Every byte is an ASCII digit.
pub open spec fn all_digits(s: Seq<u8>) -> bool {
    forall|i: int| 0 <= i < s.len() ==> 48 <= #[trigger] s[i] <= 57
}

/// The digits of a word, after an optional leading '+'.
pub open spec fn unsigned_part(s: Seq<u8>) -> Seq<u8> {
    if s.len() > 0 && s[0] == 43 {
        s.drop_first()
    } else {
        s
    }
}

/// The number a word reads as, as std reads a `usize`: an optional '+', then at least one
/// digit, and a value that fits.
pub open spec fn number_of(s: Seq<u8>) -> Option<int> {
    let d = unsigned_part(s);
    if d.len() > 0 && all_digits(d) && 0 <= digits_value(d) <= usize::MAX {
        Some(digits_value(d))
    } else {
        None
    }
}

/// More digits never make a smaller number.
proof fn lemma_digits_grow(s: Seq<u8>, k: int)
    requires
        all_digits(s),
        0 <= k <= s.len(),
    ensures
        0 <= digits_value(s.subrange(0, k)) <= digits_value(s),
    decreases s.len() - k,
{
    if k < s.len() {
        lemma_digits_grow(s, k + 1);
        let p = s.subrange(0, k + 1);
        assert(p.drop_last() =~= s.subrange(0, k));
        assert(48 <= p.last() <= 57);
    } else {
        assert(s.subrange(0, k) =~= s);
    }
    lemma_digits_nonneg(s.subrange(0, k));
}

/// A string of digits has a non-negative value.
proof fn lemma_digits_nonneg(s: Seq<u8>)
    requires
        all_digits(s),
    ensures
        digits_value(s) >= 0,
    decreases s.len(),
{
    if s.len() > 0 {
        lemma_digits_nonneg(s.drop_last());
    }
}

/// Reads a word as a `usize` the way std does: an optional '+', then decimal digits.
pub fn parse_number(word: &str) -> (r: Option<usize>)
    ensures
        match number_of(word.spec_bytes()) {
            Some(v) => r == Some(v as usize),
            None => r is None,
        },
{
    let bytes = word.as_bytes();
    let ghost s = bytes@;
    let len = bytes.len();
    let mut i: usize = 0;
    if len > 0 && bytes[0] == 43 {
        i = 1;
    }
    let ghost d = unsigned_part(s);
    proof {
        assert(d =~= s.subrange(i as int, len as int));
    }
    if i == len {
        return None;
    }
    let start = i;
    let mut value: usize = 0;
    while i < len
        invariant
            s == bytes@,
            s == word.spec_bytes(),
            d == unsigned_part(s),
            len == s.len(),
            start <= i <= len,
            d == s.subrange(start as int, len as int),
            all_digits(s.subrange(start as int, i as int)),
            value == digits_value(s.subrange(start as int, i as int)),
        decreases len - i,
    {
        let b = bytes[i];
        let ghost p = s.subrange(start as int, i + 1);
        proof {
            assert(p.drop_last() =~= s.subrange(start as int, i as int));
            assert(p.last() == b);
        }
        if b < 48 || b > 57 {
            proof {
                assert(d[i - start] == b);
            }
            return None;
        }
        let next = match value.checked_mul(10) {
            Some(t) => t.checked_add((b - 48) as usize),
            None => None,
        };
        match next {
            Some(v) => {
                value = v;
            },
            None => {
                proof {
                    assert(all_digits(p));
                    if all_digits(d) {
                        assert(p =~= d.subrange(0, i + 1 - start));
                        lemma_digits_grow(d, i + 1 - start);
                    }
                }
                return None;
            },
        }
        i = i + 1;
        proof {
            assert(all_digits(s.subrange(start as int, i as int)));
        }
    }
    proof {
        assert(s.subrange(start as int, len as int) == d);
        lemma_digits_nonneg(d);
    }
    Some(value)
}

/// Reads the side of a puzzle: a number from `MIN_FILE_SIZE` to `MAX_FILE_SIZE`.
pub fn check_size(word: &str) -> (r: Result<usize, PuzzleError>)
    ensures
        number_of(word.spec_bytes()) is None ==> r matches Err(PuzzleError::InvalidSize),
        number_of(word.spec_bytes()) matches Some(v) ==> (v < MIN_FILE_SIZE ==> r matches Err(
            PuzzleError::SizeTooSmall,
        )),
        number_of(word.spec_bytes()) matches Some(v) ==> (v > MAX_FILE_SIZE ==> r matches Err(
            PuzzleError::SizeTooBig,
        )),
        number_of(word.spec_bytes()) matches Some(v) ==> (MIN_FILE_SIZE <= v <= MAX_FILE_SIZE
            ==> r == Ok::<usize, PuzzleError>(v as usize)),
{
    match parse_number(word) {
        None => Err(PuzzleError::InvalidSize),
        Some(s) => if s < MIN_FILE_SIZE {
            Err(PuzzleError::SizeTooSmall)
        } else if s > MAX_FILE_SIZE {
            Err(PuzzleError::SizeTooBig)
        } else {
            Ok(s)
        },
    }
}

/// The words of a puzzle, row by row, each as its bytes.
pub open spec fn matrix_of(lines: Seq<Vec<&str>>) -> Seq<Seq<Seq<u8>>> {
    Seq::new(lines.len(), |r: int| Seq::new(lines[r]@.len(), |c: int| lines[r]@[c].spec_bytes()))
}

/// As many rows as the side, each with as many words.
pub open spec fn shape_ok(m: Seq<Seq<Seq<u8>>>, size: int) -> bool {
    &&& m.len() == size
    &&& forall|r: int| 0 <= r < size ==> (#[trigger] m[r]).len() == size
}

/// The word of cell `i`, in row-major order.
pub open spec fn cell_word(m: Seq<Seq<Seq<u8>>>, size: int, i: int) -> Seq<u8> {
    m[i / size][i % size]
}

/// The word reads as a number below `t`.
pub open spec fn number_below(w: Seq<u8>, t: int) -> bool {
    match number_of(w) {
        Some(v) => v < t,
        None => false,
    }
}

/// Every word reads as a number below the number of cells.
pub open spec fn words_ok(m: Seq<Seq<Seq<u8>>>, size: int) -> bool {
    forall|i: int| 0 <= i < size * size ==> number_below(#[trigger] cell_word(m, size, i), size * size)
}

/// The tiles the words give, in row-major order.
pub open spec fn tiles_of(m: Seq<Seq<Seq<u8>>>, size: int) -> Seq<usize> {
    Seq::new(
        (size * size) as nat,
        |i: int|
            match number_of(cell_word(m, size, i)) {
                Some(v) => v as usize,
                None => 0,
            },
    )
}

/// What checking a matrix of words gives: the first failing check, or the tiles.
pub open spec fn puzzle_result(m: Seq<Seq<Seq<u8>>>, size: int, r: Result<Vec<usize>, PuzzleError>) -> bool {
    &&& r is Ok <==> shape_ok(m, size) && words_ok(m, size) && distinct(tiles_of(m, size))
    &&& r matches Err(e) ==> (e is Rows || e is Columns || e is InvalidNumber || e is NotInRange
        || e is Duplicate)
    &&& r matches Ok(t) ==> t@ == tiles_of(m, size) && is_arrangement(t@, size)
    &&& r == Err::<Vec<usize>, PuzzleError>(PuzzleError::Rows) <==> m.len() != size
    &&& r == Err::<Vec<usize>, PuzzleError>(PuzzleError::Columns) <==> m.len() == size
        && !shape_ok(m, size)
    &&& r matches Err(PuzzleError::InvalidNumber(w)) ==> shape_ok(m, size) && exists|i: int|
        0 <= i < size * size && vstd::utf8::encode_utf8(w@) == cell_word(m, size, i)
            && #[trigger] number_of(cell_word(m, size, i)) is None
    &&& r matches Err(PuzzleError::NotInRange(w)) ==> shape_ok(m, size) && exists|i: int|
        0 <= i < size * size && vstd::utf8::encode_utf8(w@) == cell_word(m, size, i)
            && #[trigger] number_of(cell_word(m, size, i)) is Some && !number_below(
            cell_word(m, size, i),
            size * size,
        )
    &&& r matches Err(PuzzleError::Duplicate(k)) ==> shape_ok(m, size) && words_ok(m, size)
        && exists|i: int, j: int|
        0 <= i < j < size * size && tiles_of(m, size)[i] == k && tiles_of(m, size)[j] == k
}

/// Checks the words of a puzzle and returns its tiles row by row: as many rows as the
/// side, as many words in each, each a number below the number of cells, none twice.
pub fn check_puzzle(lines: Vec<Vec<&str>>, size: usize) -> (r: Result<Vec<usize>, PuzzleError>)
    requires
        1 <= size <= 1000,
    ensures
        puzzle_result(matrix_of(lines@), size as int, r),
{
    let ghost n = size as int;
    let ghost ls = matrix_of(lines@);
    proof {
        assert(n * n <= 1_000_000) by (nonlinear_arith)
            requires
                0 <= n <= 1000,
        ;
    }
    let t = size * size;
    if lines.len() != size {
        return Err(PuzzleError::Rows);
    }
    let mut r: usize = 0;
    while r < size
        invariant
            ls == matrix_of(lines@),
            lines@.len() == size,
            r <= size,
            forall|q: int| 0 <= q < r ==> (#[trigger] ls[q]).len() == size,
        decreases size - r,
    {
        if lines[r].len() != size {
            proof {
                assert(ls[r as int].len() != size);
            }
            return Err(PuzzleError::Columns);
        }
        r = r + 1;
    }
    let mut tiles: Vec<usize> = Vec::new();
    let mut i: usize = 0;
    while i < t
        invariant
            ls == matrix_of(lines@),
            shape_ok(ls, n),
            n == size,
            t == n * n,
            t <= 1_000_000,
            i <= t,
            tiles@.len() == i,
            forall|k: int|
                0 <= k < i ==> number_below(#[trigger] cell_word(ls, n, k), t as int),
            forall|k: int| 0 <= k < i ==> tiles@[k] == #[trigger] tiles_of(ls, n)[k],
        decreases t - i,
    {
        proof {
            crate::heuristic::lemma_cell(i as int, n);
            let q = i as int / n;
            assert(ls[q] == Seq::new(lines@[q]@.len(), |c: int| lines@[q]@[c].spec_bytes()));
            assert(ls[q].len() == lines@[q]@.len());
        }
        let word = lines[i / size][i % size];
        proof {
            assert(cell_word(ls, n, i as int) == word.spec_bytes());
        }
        match parse_number(word) {
            Some(v) => {
                if v >= t {
                    proof {
                        assert(!number_below(cell_word(ls, n, i as int), t as int));
                        assert(!words_ok(ls, n));
                    }
                    let w = word.to_owned();
                    proof {
                        assert(w@ == word@);
                    }
                    return Err(PuzzleError::NotInRange(w));
                }
                tiles.push(v);
            },
            None => {
                proof {
                    assert(!number_below(cell_word(ls, n, i as int), t as int));
                    assert(!words_ok(ls, n));
                }
                let w = word.to_owned();
                proof {
                    assert(w@ == word@);
                }
                return Err(PuzzleError::InvalidNumber(w));
            },
        }
        i = i + 1;
    }
    proof {
        assert forall|k: int| 0 <= k < t implies #[trigger] tiles@[k] < t by {
            assert(number_below(cell_word(ls, n, k), t as int));
            assert(tiles@[k] == tiles_of(ls, n)[k]);
            assert(number_of(cell_word(ls, n, k)) is Some);
        }
        assert(tiles@ =~= tiles_of(ls, n));
    }
    let mut seen: Vec<bool> = Vec::new();
    let mut z: usize = 0;
    while z < t
        invariant
            z <= t,
            seen@.len() == z,
            forall|k: int| 0 <= k < z ==> !seen@[k],
        decreases t - z,
    {
        seen.push(false);
        z = z + 1;
    }
    let mut i: usize = 0;
    while i < t
        invariant
            ls == matrix_of(lines@),
            shape_ok(ls, n),
            words_ok(ls, n),
            n == size,
            t == n * n,
            i <= t,
            tiles@.len() == t,
            tiles@ == tiles_of(ls, n),
            seen@.len() == t,
            tiles_in_range(tiles@, t as int),
            forall|v: int|
                0 <= v < t ==> seen@[v] == exists|k: int| 0 <= k < i && tiles@[k] == v,
            forall|a: int, b: int| 0 <= a < i && 0 <= b < i && a != b ==> tiles@[a] != tiles@[b],
        decreases t - i,
    {
        let v = tiles[i];
        if seen[v] {
            proof {
                let k = choose|k: int| 0 <= k < i && tiles@[k] == v;
                assert(!distinct(tiles_of(ls, n)));
            }
            return Err(PuzzleError::Duplicate(v));
        }
        seen.set(v, true);
        proof {
            assert forall|w: int| 0 <= w < t implies seen@[w] == exists|k: int|
                0 <= k < i + 1 && tiles@[k] == w by {
                if w == v {
                    assert(tiles@[i as int] == w);
                } else if seen@[w] {
                    let k = choose|k: int| 0 <= k < i && tiles@[k] == w;
                    assert(0 <= k < i + 1 && tiles@[k] == w);
                }
            }
        }
        i = i + 1;
    }
    Ok(tiles)
}

/// The lines of a text, as `str::lines` splits them.
pub uninterp spec fn text_lines(s: Seq<char>) -> Seq<Seq<char>>;

/// A text without its leading and trailing whitespace, as `str::trim` cuts it.
pub uninterp spec fn trimmed(s: Seq<char>) -> Seq<char>;

/// The words of a text, as `str::split_whitespace` splits them.
pub uninterp spec fn text_words(s: Seq<char>) -> Seq<Seq<char>>;

/// Relies on `str::lines`: the lines of the text, a function of the text alone.
#[verifier::external_body]
fn lines_of<'a>(s: &'a str) -> (r: Vec<&'a str>)
    ensures
        r@.len() == text_lines(s@).len(),
        forall|i: int| 0 <= i < r@.len() ==> (#[trigger] r@[i])@ == text_lines(s@)[i],
{
    s.lines().collect()
}

/// Relies on `str::trim`: the text without surrounding whitespace.
#[verifier::external_body]
fn trim_text<'a>(s: &'a str) -> (r: &'a str)
    ensures
        r@ == trimmed(s@),
{
    s.trim()
}

/// Relies on `str::split_whitespace`: the words of the text.
#[verifier::external_body]
fn words_of<'a>(s: &'a str) -> (r: Vec<&'a str>)
    ensures
        r@.len() == text_words(s@).len(),
        forall|i: int| 0 <= i < r@.len() ==> (#[trigger] r@[i])@ == text_words(s@)[i],
{
    s.split_whitespace().collect()
}

/// `p` starts `s`.
pub open spec fn starts_with(s: Seq<char>, p: Seq<char>) -> bool {
    p.len() <= s.len() && s.subrange(0, p.len() as int) == p
}

/// The part of `s` before the first occurrence of `p`, or all of `s`.
pub open spec fn before_spec(s: Seq<char>, p: Seq<char>) -> Seq<char>
    decreases s.len(),
{
    if s.len() == 0 {
        s
    } else if starts_with(s, p) {
        Seq::empty()
    } else {
        seq![s[0]] + before_spec(s.drop_first(), p)
    }
}

/// Relies on `str::split_once`: the text before the first `mark`, or all of it.
#[verifier::external_body]
fn before<'a>(s: &'a str, mark: &str) -> (r: &'a str)
    requires
        mark@.len() > 0,
    ensures
        r@ == before_spec(s@, mark@),
{
    match s.split_once(mark) {
        Some((head, _)) => head,
        None => s,
    }
}

/// A line without its comment: what comes before '#' and before "//".
pub open spec fn uncommented(l: Seq<char>) -> Seq<char> {
    before_spec(before_spec(l, seq!['#']), seq!['/', '/'])
}

/// The lines that hold something besides comments, trimmed.
pub open spec fn content_from(ls: Seq<Seq<char>>) -> Seq<Seq<char>>
    decreases ls.len(),
{
    if ls.len() == 0 {
        Seq::empty()
    } else {
        let rest = content_from(ls.drop_last());
        let c = uncommented(ls.last());
        if c.len() > 0 {
            rest.push(trimmed(c))
        } else {
            rest
        }
    }
}

/// The words of the lines after the first, each as its bytes.
pub open spec fn tile_matrix(content: Seq<Seq<char>>) -> Seq<Seq<Seq<u8>>> {
    Seq::new(
        (content.len() - 1) as nat,
        |r: int|
            Seq::new(
                text_words(content[r + 1]).len(),
                |c: int| vstd::utf8::encode_utf8(text_words(content[r + 1])[c]),
            ),
    )
}

/// The side and tiles a puzzle file gives, if it is valid.
pub open spec fn parsed(file: Seq<char>) -> Option<(int, Seq<usize>)> {
    let content = content_from(text_lines(file));
    let first = vstd::utf8::encode_utf8(content[0]);
    if content.len() > 0 && number_of(first) is Some && MIN_FILE_SIZE <= number_of(first)->0
        <= MAX_FILE_SIZE {
        let n = number_of(first)->0;
        let m = tile_matrix(content);
        if shape_ok(m, n) && words_ok(m, n) && distinct(tiles_of(m, n)) {
            Some((n, tiles_of(m, n)))
        } else {
            None
        }
    } else {
        None
    }
}

/// Reads a puzzle file: comments after '#' or "//" are dropped, and so are lines left
/// empty; the first line gives the side, each following line a row of tiles.
pub fn file_to_map(file: &str) -> (r: Result<(usize, Vec<usize>), PuzzleError>)
    ensures
        parsed(file@) is None <==> r is Err,
        r matches Ok((n, t)) ==> parsed(file@) == Some((n as int, t@)) && is_arrangement(
            t@,
            n as int,
        ) && MIN_FILE_SIZE <= n <= MAX_FILE_SIZE,
        ({
            let content = content_from(text_lines(file@));
            let first = vstd::utf8::encode_utf8(content[0]);
            &&& (content.len() == 0 ==> (r matches Err(PuzzleError::Empty)))
            &&& (content.len() > 0 && number_of(first) is None ==> (r matches Err(
                PuzzleError::InvalidSize,
            )))
            &&& (content.len() > 0 && number_of(first) is Some && number_of(first)->0
                < MIN_FILE_SIZE ==> (r matches Err(PuzzleError::SizeTooSmall)))
            &&& (content.len() > 0 && number_of(first) is Some && number_of(first)->0
                > MAX_FILE_SIZE ==> (r matches Err(PuzzleError::SizeTooBig)))
            &&& (content.len() > 0 && number_of(first) is Some && MIN_FILE_SIZE <= number_of(
                first,
            )->0 <= MAX_FILE_SIZE ==> match r {
                Ok((n, t)) => n == number_of(first)->0 && puzzle_result(
                    tile_matrix(content),
                    n as int,
                    Ok::<Vec<usize>, PuzzleError>(t),
                ),
                Err(e) => puzzle_result(
                    tile_matrix(content),
                    number_of(first)->0,
                    Err::<Vec<usize>, PuzzleError>(e),
                ),
            })
        }),
{
    let raw = lines_of(file);
    let ghost tl = text_lines(file@);
    let mut lines: Vec<&str> = Vec::new();
    let mut k: usize = 0;
    while k < raw.len()
        invariant
            k <= raw@.len(),
            raw@.len() == tl.len(),
            tl == text_lines(file@),
            forall|i: int| 0 <= i < raw@.len() ==> (#[trigger] raw@[i])@ == tl[i],
            lines@.len() == content_from(tl.subrange(0, k as int)).len(),
            forall|i: int|
                0 <= i < lines@.len() ==> (#[trigger] lines@[i])@ == content_from(
                    tl.subrange(0, k as int),
                )[i],
        decreases raw@.len() - k,
    {
        let hash = "#";
        let slashes = "//";
        proof {
            reveal_strlit("#");
            reveal_strlit("//");
            assert(hash@ =~= seq!['#']);
            assert(slashes@ =~= seq!['/', '/']);
        }
        let a = before(raw[k], hash);
        let b = before(a, slashes);
        proof {
            let sub = tl.subrange(0, k + 1);
            assert(sub.drop_last() =~= tl.subrange(0, k as int));
            assert(sub.last() == tl[k as int]);
            assert(b@ == uncommented(tl[k as int]));
        }
        if !b.is_empty() {
            lines.push(trim_text(b));
        }
        k = k + 1;
    }
    proof {
        assert(tl.subrange(0, raw@.len() as int) =~= tl);
    }
    let ghost content = content_from(tl);
    if lines.len() == 0 {
        return Err(PuzzleError::Empty);
    }
    let size = match check_size(lines[0]) {
        Ok(s) => s,
        Err(e) => {
            return Err(e);
        },
    };
    let mut rows: Vec<Vec<&str>> = Vec::new();
    let mut q: usize = 1;
    while q < lines.len()
        invariant
            1 <= q <= lines@.len(),
            lines@.len() == content.len(),
            forall|i: int| 0 <= i < lines@.len() ==> (#[trigger] lines@[i])@ == content[i],
            rows@.len() == q - 1,
            forall|i: int|
                0 <= i < rows@.len() ==> (#[trigger] matrix_of(rows@)[i]) == tile_matrix(content)[i],
        decreases lines@.len() - q,
    {
        let words = words_of(lines[q]);
        let ghost before_rows = rows@;
        rows.push(words);
        proof {
            assert forall|i: int| 0 <= i < rows@.len() implies (#[trigger] matrix_of(rows@)[i])
                == tile_matrix(content)[i] by {
                if i < before_rows.len() {
                    assert(matrix_of(rows@)[i] == matrix_of(before_rows)[i]);
                } else {
                    assert(matrix_of(rows@)[i] =~= tile_matrix(content)[i]);
                }
            }
        }
        q = q + 1;
    }
    proof {
        assert(matrix_of(rows@) =~= tile_matrix(content));
    }
    match check_puzzle(rows, size) {
        Ok(tiles) => Ok((size, tiles)),
        Err(e) => Err(e),
    }
}

} // verus!