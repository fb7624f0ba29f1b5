//! What it means to trace a word on the grid: a path of adjacent cells, none
//! visited twice, whose letters spell the word.

use crate::puzzle::Puzzle;
use crate::text::strictly_sorted;
use vstd::prelude::*;

verus! {

/// Two different cells that touch: their rows differ by at most one, and so do
/// their columns. A cell away from the border has eight such neighbours, the
/// diagonal ones included.
pub open spec fn adjacent(a: (usize, usize), b: (usize, usize)) -> bool {
    &&& a != b
    &&& -1 <= a.0 - b.0 <= 1
    &&& -1 <= a.1 - b.1 <= 1
}

impl Puzzle {
    /// The cell lies on the grid.
    pub open spec fn in_grid(&self, cell: (usize, usize)) -> bool {
        cell.0 < self.rows() && cell.1 < self.cols()
    }

    /// The letter in a cell.
    pub open spec fn letter_at(&self, cell: (usize, usize)) -> char {
        self.grid()[cell.0 as int][cell.1 as int]
    }

    /// The word that the letters along a sequence of cells spell.
    pub open spec fn spells(&self, path: Seq<(usize, usize)>) -> Seq<char> {
        Seq::new(path.len(), |i: int| self.letter_at(path[i]))
    }

    /// A path: at least one cell, every cell on the grid, each cell adjacent
    /// to the one before it, and no cell twice.
    pub open spec fn is_path(&self, path: Seq<(usize, usize)>) -> bool {
        &&& path.len() >= 1
        &&& forall|i: int| 0 <= i < path.len() ==> self.in_grid(#[trigger] path[i])
        &&& forall|i: int, j: int|
            0 <= i && j == i + 1 && j < path.len() ==> adjacent(#[trigger] path[i], #[trigger] path[j])
        &&& path.no_duplicates()
    }

    /// The word can be traced on the grid: some path spells it.
    pub open spec fn traceable(&self, word: Seq<char>) -> bool {
        exists|path: Seq<(usize, usize)>| #[trigger] self.is_path(path) && self.spells(path) == word
    }

    /// The words of `words` that can be traced on the grid.
    pub open spec fn solutions(&self, words: Set<Seq<char>>) -> Set<Seq<char>> {
        Set::new(|w: Seq<char>| words.contains(w) && self.traceable(w))
    }

    /// `answer` is the list of the words of `words` that can be traced on the
    /// grid: it holds these words and no others, each once, in dictionary
    /// order.
    pub open spec fn is_answer(&self, words: Set<Seq<char>>, answer: Seq<Seq<char>>) -> bool {
        &&& strictly_sorted(answer)
        &&& answer.to_set() == self.solutions(words)
    }

    /// The cells of the grid that a sequence of cells has not visited.
    pub open spec fn unvisited(&self, path: Seq<(usize, usize)>) -> Set<(usize, usize)> {
        cell_block(self.rows(), self.cols()).difference(path.to_set())
    }

    /// How many cells of the grid a sequence of cells has left to visit.
    pub open spec fn cells_left(&self, path: Seq<(usize, usize)>) -> nat {
        self.unvisited(path).len()
    }
}

/// The first `n` cells of row `row`.
pub open spec fn cell_row(row: usize, n: nat) -> Set<(usize, usize)>
    decreases n,
{
    if n == 0 {
        Set::empty()
    } else {
        cell_row(row, (n - 1) as nat).insert((row, (n - 1) as usize))
    }
}

/// The first `n` cells of each of the first `m` rows.
pub open spec fn cell_block(m: nat, n: nat) -> Set<(usize, usize)>
    decreases m,
{
    if m == 0 {
        Set::empty()
    } else {
        cell_block((m - 1) as nat, n).union(cell_row((m - 1) as usize, n))
    }
}

/// The first `n` cells of a row are finitely many, and are the cells of that
/// row with a column below `n`.
pub proof fn lemma_cell_row(row: usize, n: nat)
    requires
        n <= usize::MAX + 1,
    ensures
        cell_row(row, n).finite(),
        forall|cell: (usize, usize)| #[trigger] cell_row(row, n).contains(cell) <==> cell.0 == row && cell.1 < n,
    decreases n,
{
    if n > 0 {
        lemma_cell_row(row, (n - 1) as nat);
    }
}

/// A block of cells is finite, and holds the cells with a row below `m` and a
/// column below `n`.
pub proof fn lemma_cell_block(m: nat, n: nat)
    requires
        m <= usize::MAX + 1,
        n <= usize::MAX + 1,
    ensures
        cell_block(m, n).finite(),
        forall|cell: (usize, usize)| #[trigger] cell_block(m, n).contains(cell) <==> cell.0 < m && cell.1 < n,
    decreases m,
{
    if m > 0 {
        lemma_cell_block((m - 1) as nat, n);
        lemma_cell_row((m - 1) as usize, n);
    }
}

/// A path has the letters of its word: the word is as long as the path, and
/// the leading part of the path spells the leading part of the word.
pub proof fn lemma_spells_take(puzzle: Puzzle, path: Seq<(usize, usize)>, n: int)
    requires
        0 <= n <= path.len(),
    ensures
        puzzle.spells(path.take(n)) == puzzle.spells(path).take(n),
{
    assert(puzzle.spells(path.take(n)) =~= puzzle.spells(path).take(n));
}

/// A path grows by a cell of the grid that touches its last cell and that it
/// has not visited; the longer path spells the word with that cell's letter
/// added, and has one cell fewer left to visit.
pub proof fn lemma_path_push(puzzle: Puzzle, path: Seq<(usize, usize)>, cell: (usize, usize))
    requires
        puzzle.wf(),
        puzzle.is_path(path),
        puzzle.in_grid(cell),
        adjacent(path.last(), cell),
        !path.contains(cell),
    ensures
        puzzle.is_path(path.push(cell)),
        puzzle.spells(path.push(cell)) == puzzle.spells(path).push(puzzle.letter_at(cell)),
        puzzle.cells_left(path.push(cell)) + 1 == puzzle.cells_left(path),
{
    let longer = path.push(cell);
    assert forall|i: int| 0 <= i < longer.len() implies puzzle.in_grid(#[trigger] longer[i]) by {
        if i < path.len() {
            assert(puzzle.in_grid(path[i]));
        }
    }
    assert forall|i: int, j: int| 0 <= i && j == i + 1 && j < longer.len() implies adjacent(
        #[trigger] longer[i],
        #[trigger] longer[j],
    ) by {
        if j < path.len() {
            assert(adjacent(path[i], path[j]));
        }
    }
    assert forall|i: int, j: int| 0 <= i < longer.len() && 0 <= j < longer.len() && i != j implies longer[i]
        != longer[j] by {
        if i < path.len() && j < path.len() {
            assert(path[i] != path[j]);
        } else if i < path.len() {
            assert(path[i] != cell);
        } else {
            assert(path[j] != cell);
        }
    }
    assert(puzzle.spells(longer) =~= puzzle.spells(path).push(puzzle.letter_at(cell)));
    puzzle.lemma_sizes_fit();
    lemma_cell_block(puzzle.rows(), puzzle.cols());
    assert(puzzle.unvisited(path).contains(cell));
    assert forall|c: (usize, usize)| longer.to_set().contains(c) <==> path.to_set().contains(c) || c
        == cell by {
        if path.to_set().contains(c) {
            let i = choose|i: int| 0 <= i < path.len() && path[i] == c;
            assert(longer[i] == c);
        }
        if c == cell {
            assert(longer[path.len() as int] == c);
        }
        if longer.to_set().contains(c) {
            let i = choose|i: int| 0 <= i < longer.len() && longer[i] == c;
            if i < path.len() {
                assert(path[i] == c);
            }
        }
    }
    assert(puzzle.unvisited(longer) =~= puzzle.unvisited(path).remove(cell));
}

} // verus!
