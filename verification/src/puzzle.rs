//! The puzzle grid: a rectangle of letters, read from a string of rows
//! separated by single spaces.

use std::collections::HashSet;
use vstd::prelude::*;

verus! {

/// The rows that a grid string describes: the runs of characters between its
/// spaces. Reading from the left, a space closes the current row and opens a
/// new one, and any other character joins the current row. A string without a
/// space is one row; the empty string is one empty row.
pub open spec fn split_rows(s: Seq<char>) -> Seq<Seq<char>>
    decreases s.len(),
{
    if s.len() == 0 {
        seq![Seq::<char>::empty()]
    } else {
        let before = split_rows(s.drop_last());
        if s.last() == ' ' {
            before.push(Seq::<char>::empty())
        } else {
            before.update(before.len() - 1, before.last().push(s.last()))
        }
    }
}

/// All rows have the length of the first.
pub open spec fn is_rectangular(rows: Seq<Seq<char>>) -> bool {
    forall|r: int| 0 <= r < rows.len() ==> (#[trigger] rows[r]).len() == rows[0].len()
}

/// The contents of a vector of rows.
spec fn row_views(rows: Seq<Vec<char>>) -> Seq<Seq<char>> {
    Seq::new(rows.len(), |r: int| rows[r]@)
}

/// Some cell of `grid` that lies before row `r`, or in row `r` before column
/// `k`, holds the character with the code point `x`.
spec fn occurs_before(grid: Seq<Seq<char>>, x: u32, r: int, k: int) -> bool {
    exists|i: int, j: int|
        0 <= i < grid.len() && 0 <= j < grid[i].len() && (i < r || (i == r && j < k)) && (
        #[trigger] grid[i][j]) as u32 == x
}

/// A cell that shows that the character with the code point `x` occurs
/// before row `r`, column `k`.
proof fn lemma_occurs_before_witness(grid: Seq<Seq<char>>, x: u32, r: int, k: int) -> (cell: (int, int))
    requires
        occurs_before(grid, x, r, k),
    ensures
        0 <= cell.0 < grid.len(),
        0 <= cell.1 < grid[cell.0].len(),
        cell.0 < r || (cell.0 == r && cell.1 < k),
        grid[cell.0][cell.1] as u32 == x,
{
    choose|i: int, j: int|
        0 <= i < grid.len() && 0 <= j < grid[i].len() && (i < r || (i == r && j < k)) && (
        #[trigger] grid[i][j]) as u32 == x
}

/// Two characters with the same code point are the same character.
proof fn lemma_code_injective(a: char, b: char)
    ensures
        a as u32 == b as u32 ==> a == b,
{
}

/// A string has at least one row, and none of its rows holds a space.
pub proof fn lemma_split_rows_shape(s: Seq<char>)
    ensures
        split_rows(s).len() >= 1,
        forall|r: int, k: int|
            0 <= r < split_rows(s).len() && 0 <= k < split_rows(s)[r].len() ==> #[trigger] split_rows(
                s,
            )[r][k] != ' ',
    decreases s.len(),
{
    if s.len() > 0 {
        lemma_split_rows_shape(s.drop_last());
    }
}

/// The rows written out again, with one space between neighbours.
pub open spec fn join_rows(rows: Seq<Seq<char>>) -> Seq<char>
    decreases rows.len(),
{
    if rows.len() == 0 {
        Seq::<char>::empty()
    } else if rows.len() == 1 {
        rows[0]
    } else {
        join_rows(rows.drop_last()).push(' ') + rows.last()
    }
}

/// The rows of a string, joined by single spaces, are the string again.
pub proof fn lemma_join_split_rows(s: Seq<char>)
    ensures
        join_rows(split_rows(s)) == s,
    decreases s.len(),
{
    let rows = split_rows(s);
    if s.len() == 0 {
        assert(join_rows(rows) =~= s);
    } else {
        let before = split_rows(s.drop_last());
        lemma_split_rows_shape(s.drop_last());
        lemma_join_split_rows(s.drop_last());
        if s.last() == ' ' {
            assert(rows.drop_last() =~= before);
            assert(join_rows(rows) =~= s);
        } else if before.len() == 1 {
            assert(join_rows(rows) =~= s);
        } else {
            assert(rows.drop_last() =~= before.drop_last());
            assert(join_rows(before) == join_rows(before.drop_last()).push(' ') + before.last());
            assert(join_rows(rows) == join_rows(rows.drop_last()).push(' ') + rows.last());
            assert(s =~= s.drop_last().push(s.last()));
            assert(join_rows(rows) =~= s);
        }
    }
}

/// Rows without a space in them are the rows of the string that joins them:
/// a string comes apart into such rows in one way only.
pub proof fn lemma_split_join_rows(rows: Seq<Seq<char>>)
    requires
        rows.len() >= 1,
        forall|r: int, k: int| 0 <= r < rows.len() && 0 <= k < rows[r].len() ==> #[trigger] rows[r][k] != ' ',
    ensures
        split_rows(join_rows(rows)) == rows,
    decreases join_rows(rows).len(),
{
    let s = join_rows(rows);
    let n = rows.len() - 1;
    if rows.len() == 1 && rows[0].len() == 0 {
        assert(rows[0] =~= Seq::<char>::empty());
        assert(rows =~= seq![Seq::<char>::empty()]);
        assert(split_rows(s) =~= rows);
    } else if rows.last().len() == 0 {
        let head = rows.drop_last();
        assert(s =~= join_rows(head).push(' '));
        assert(s.drop_last() =~= join_rows(head));
        assert forall|r: int, k: int| 0 <= r < head.len() && 0 <= k < head[r].len() implies #[trigger] head[r][k]
            != ' ' by {
            assert(rows[r][k] != ' ');
        }
        lemma_split_join_rows(head);
        assert(rows.last() =~= Seq::<char>::empty());
        assert(s.last() == ' ');
        assert(split_rows(s) == split_rows(s.drop_last()).push(Seq::<char>::empty()));
        assert(split_rows(s) =~= rows);
    } else {
        let c = rows.last().last();
        assert(rows[n][rows[n].len() - 1] != ' ');
        let shorter = rows.update(n, rows.last().drop_last());
        assert forall|r: int, k: int|
            0 <= r < shorter.len() && 0 <= k < shorter[r].len() implies #[trigger] shorter[r][k] != ' ' by {
            assert(rows[r][k] != ' ');
        }
        if rows.len() == 1 {
            assert(join_rows(shorter) =~= s.drop_last());
        } else {
            assert(shorter.drop_last() =~= rows.drop_last());
            assert(join_rows(shorter) =~= s.drop_last());
        }
        assert(s.last() == c);
        lemma_split_join_rows(shorter);
        assert(rows.last() =~= rows.last().drop_last().push(c));
        assert(split_rows(s) == split_rows(s.drop_last()).update(n, shorter.last().push(c)));
        assert(split_rows(s) =~= rows);
    }
}

/// The boggle puzzle: a grid of letters with `rows()` rows of `cols()` letters
/// each.
pub struct Puzzle {
    /// The grid, row by row.
    map: Vec<Vec<char>>,
    /// The code points of the characters that occur in the grid.
    chars: HashSet<u32>,
    /// The number of rows.
    row_size: usize,
    /// The number of columns.
    col_size: usize,
}

impl Puzzle {
    /// The letters of the grid, row by row.
    pub closed spec fn grid(&self) -> Seq<Seq<char>> {
        row_views(self.map@)
    }

    /// The number of rows.
    pub open spec fn rows(&self) -> nat {
        self.grid().len()
    }

    /// The number of columns: the length of the first row.
    pub open spec fn cols(&self) -> nat {
        if self.grid().len() == 0 {
            0
        } else {
            self.grid()[0].len()
        }
    }

    /// The characters that occur in the grid.
    pub open spec fn alphabet(&self) -> Set<char> {
        Set::new(
            |c: char|
                exists|r: int, k: int|
                    0 <= r < self.rows() && 0 <= k < self.cols() && #[trigger] self.grid()[r][k] == c,
        )
    }

    /// What the fields that stand beside the grid hold: its two sizes, and the
    /// characters that occur in it.
    pub closed spec fn indexed(&self) -> bool {
        &&& self.row_size == self.rows()
        &&& self.col_size == self.cols()
        &&& forall|x: u32|
            self.chars@.contains(x) <==> occurs_before(self.grid(), x, self.grid().len() as int, 0)
    }

    /// The grid has at least one row, all rows have the same length, and the
    /// puzzle knows its sizes and its characters.
    pub open spec fn wf(&self) -> bool {
        &&& self.rows() >= 1
        &&& is_rectangular(self.grid())
        &&& self.indexed()
    }

    /// The sizes of a well-formed puzzle fit a machine integer.
    pub proof fn lemma_sizes_fit(&self)
        requires
            self.wf(),
        ensures
            self.rows() <= usize::MAX,
            self.cols() <= usize::MAX,
    {
    }

    /// Reads the rows of a grid string.
    fn read_rows(s: &str) -> (rows: Vec<Vec<char>>)
        ensures
            row_views(rows@) == split_rows(s@),
    {
        let mut rows: Vec<Vec<char>> = Vec::new();
        let mut row: Vec<char> = Vec::new();
        for c in it: s.chars()
            invariant
                it.seq() == s@,
                row_views(rows@).push(row@) == split_rows(s@.take(it.index())),
        {
            let ghost i = it.index();
            let ghost done = row_views(rows@).push(row@);
            proof {
                assert(s@.take(i + 1).drop_last() =~= s@.take(i));
                assert(s@.take(i + 1).last() == c);
            }
            if c == ' ' {
                rows.push(row);
                row = Vec::new();
                proof {
                    assert(row_views(rows@) =~= done);
                    assert(row_views(rows@).push(row@) =~= done.push(Seq::<char>::empty()));
                }
            } else {
                row.push(c);
                proof {
                    assert(row_views(rows@).push(row@) =~= done.update(
                        done.len() - 1,
                        done.last().push(c),
                    ));
                }
            }
        }
        proof {
            assert(s@.take(s@.len() as int) =~= s@);
        }
        let ghost done = row_views(rows@).push(row@);
        rows.push(row);
        proof {
            assert(row_views(rows@) =~= done);
        }
        rows
    }

    /// Whether all rows have the length of the first.
    fn same_lengths(rows: &Vec<Vec<char>>) -> (same: bool)
        ensures
            same == is_rectangular(row_views(rows@)),
    {
        if rows.len() == 0 {
            return true;
        }
        let width: usize = rows[0].len();
        let mut r: usize = 0;
        while r < rows.len()
            invariant
                0 <= r <= rows.len(),
                rows.len() > 0,
                width == rows[0].len(),
                forall|i: int| 0 <= i < r ==> (#[trigger] row_views(rows@)[i]).len() == width,
            decreases rows.len() - r,
        {
            if rows[r].len() != width {
                assert(row_views(rows@)[r as int].len() != row_views(rows@)[0].len());
                return false;
            }
            r += 1;
        }
        true
    }

    /// Builds the puzzle over a rectangle of letters.
    fn from_rows(map: Vec<Vec<char>>) -> (puzzle: Puzzle)
        requires
            map@.len() >= 1,
            is_rectangular(row_views(map@)),
        ensures
            puzzle.wf(),
            puzzle.grid() == row_views(map@),
    {
        let ghost grid = row_views(map@);
        let row_size: usize = map.len();
        let col_size: usize = map[0].len();
        let mut chars: HashSet<u32> = HashSet::new();
        let mut r: usize = 0;
        while r < row_size
            invariant
                0 <= r <= row_size,
                row_size == map@.len(),
                grid == row_views(map@),
                is_rectangular(grid),
                col_size == grid[0].len(),
                forall|x: u32| chars@.contains(x) <==> occurs_before(grid, x, r as int, 0),
            decreases row_size - r,
        {
            let mut k: usize = 0;
            assert(grid[r as int].len() == col_size);
            while k < col_size
                invariant
                    0 <= r < row_size,
                    0 <= k <= col_size,
                    row_size == map@.len(),
                    grid == row_views(map@),
                    col_size == grid[r as int].len(),
                    forall|x: u32| chars@.contains(x) <==> occurs_before(grid, x, r as int, k as int),
                decreases col_size - k,
            {
                let letter: char = map[r][k];
                let ghost seen = chars@;
                chars.insert(letter as u32);
                proof {
                    let next = k as int + 1;
                    assert(grid[r as int][k as int] == letter);
                    assert forall|x: u32| chars@.contains(x) <==> occurs_before(grid, x, r as int, next) by {
                        let earlier = occurs_before(grid, x, r as int, k as int);
                        assert(seen.contains(x) <==> earlier);
                        if earlier {
                            let (i, j) = lemma_occurs_before_witness(grid, x, r as int, k as int);
                            assert(grid[i][j] as u32 == x);
                        }
                        if occurs_before(grid, x, r as int, next) {
                            let (i, j) = lemma_occurs_before_witness(grid, x, r as int, next);
                            if !(i == r && j == k) {
                                assert(grid[i][j] as u32 == x);
                            }
                        }
                    }
                }
                k += 1;
            }
            proof {
                let next = r as int + 1;
                assert forall|x: u32| occurs_before(grid, x, r as int, col_size as int) <==> occurs_before(
                    grid,
                    x,
                    next,
                    0,
                ) by {
                    if occurs_before(grid, x, r as int, col_size as int) {
                        let (i, j) = lemma_occurs_before_witness(grid, x, r as int, col_size as int);
                        assert(grid[i][j] as u32 == x);
                    }
                    if occurs_before(grid, x, next, 0) {
                        let (i, j) = lemma_occurs_before_witness(grid, x, next, 0);
                        assert(grid[i][j] as u32 == x);
                    }
                }
            }
            r += 1;
        }
        Puzzle { map, chars, row_size, col_size }
    }

    /// Reads a puzzle from its grid string: rows of letters separated by
    /// single spaces, all of one length.
    pub fn from_str(s: &str) -> (puzzle: Puzzle)
        requires
            is_rectangular(split_rows(s@)),
        ensures
            puzzle.wf(),
            puzzle.grid() == split_rows(s@),
    {
        proof {
            lemma_split_rows_shape(s@);
        }
        Self::from_rows(Self::read_rows(s))
    }

    /// Reads a puzzle from its grid string, or returns `None` where the rows
    /// of the string differ in length.
    pub fn parse(s: &str) -> (parsed: Option<Puzzle>)
        ensures
            parsed is Some <==> is_rectangular(split_rows(s@)),
            parsed matches Some(puzzle) ==> puzzle.wf() && puzzle.grid() == split_rows(s@),
    {
        proof {
            lemma_split_rows_shape(s@);
        }
        let rows = Self::read_rows(s);
        if Self::same_lengths(&rows) {
            Some(Self::from_rows(rows))
        } else {
            None
        }
    }

    /// The number of rows of the grid.
    pub fn row_size(&self) -> (n: usize)
        requires
            self.wf(),
        ensures
            n == self.rows(),
    {
        self.row_size
    }

    /// The number of columns of the grid.
    pub fn col_size(&self) -> (n: usize)
        requires
            self.wf(),
        ensures
            n == self.cols(),
    {
        self.col_size
    }

    /// The letter in the given cell.
    pub fn letter(&self, row: usize, col: usize) -> (c: char)
        requires
            self.wf(),
            row < self.rows(),
            col < self.cols(),
        ensures
            c == self.grid()[row as int][col as int],
    {
        assert(self.grid()[row as int].len() == self.cols());
        self.map[row][col]
    }

    /// Whether the character occurs in the grid.
    pub fn contains(&self, c: char) -> (found: bool)
        requires
            self.wf(),
        ensures
            found == self.alphabet().contains(c),
    {
        proof {
            let grid = self.grid();
            let code = c as u32;
            if occurs_before(grid, code, grid.len() as int, 0) {
                let (i, j) = lemma_occurs_before_witness(grid, code, grid.len() as int, 0);
                lemma_code_injective(grid[i][j], c);
            }
            if self.alphabet().contains(c) {
                let (i, j) = choose|i: int, j: int|
                    0 <= i < self.rows() && 0 <= j < self.cols() && #[trigger] grid[i][j] == c;
                assert(grid[i][j] as u32 == code);
            }
        }
        self.chars.contains(&(c as u32))
    }
}

} // verus!
