//! The search: a flood fill from every cell of the grid, cut short wherever
//! the letters gathered so far begin no word of the dictionary.

use crate::dict::{is_kept_prefix, prefix_closure, Dict};
use crate::puzzle::Puzzle;
use crate::text::{
    lemma_lex_lt_total, lemma_lex_lt_transitive, lemma_strictly_sorted_no_duplicates, lex_less, lex_lt,
    strictly_sorted, texts,
};
use crate::trace::{adjacent, lemma_path_push, lemma_spells_take};
use std::collections::VecDeque;
use vstd::prelude::*;

verus! {

/// A path under way: the cells visited so far, the word they spell, and the
/// cell reached.
struct SearchPath {
    row: usize,
    col: usize,
    word: String,
    visited: Vec<(usize, usize)>,
}

impl SearchPath {
    /// The cells visited, in the order of the visit.
    spec fn cells(&self) -> Seq<(usize, usize)> {
        self.visited@
    }

    /// The word gathered along the way.
    spec fn word(&self) -> Seq<char> {
        self.word@
    }

    /// The cell reached.
    spec fn position(&self) -> (usize, usize) {
        (self.row, self.col)
    }

    /// The cells form a path on the grid of `puzzle`, the word is what they
    /// spell, and the position is the last of them.
    spec fn wf(&self, puzzle: &Puzzle) -> bool {
        &&& puzzle.is_path(self.cells())
        &&& self.word() == puzzle.spells(self.cells())
        &&& self.position() == self.cells().last()
    }

    /// The path that visits one cell.
    fn start(puzzle: &Puzzle, row: usize, col: usize) -> (path: SearchPath)
        requires
            puzzle.wf(),
            puzzle.in_grid((row, col)),
        ensures
            path.wf(puzzle),
            path.cells() == seq![(row, col)],
            path.word() == seq![puzzle.letter_at((row, col))],
    {
        let mut word = String::new();
        word.push(puzzle.letter(row, col));
        let mut visited: Vec<(usize, usize)> = Vec::new();
        visited.push((row, col));
        proof {
            assert(visited@ =~= seq![(row, col)]);
            assert(word@ =~= seq![puzzle.letter_at((row, col))]);
            assert(puzzle.spells(visited@) =~= word@);
        }
        SearchPath { row, col, word, visited }
    }

    /// Whether the path has visited the cell.
    fn visits(&self, row: usize, col: usize) -> (found: bool)
        ensures
            found == self.cells().contains((row, col)),
    {
        let mut i: usize = 0;
        while i < self.visited.len()
            invariant
                0 <= i <= self.visited.len(),
                forall|k: int| 0 <= k < i ==> self.visited@[k] != (row, col),
            decreases self.visited.len() - i,
        {
            let cell: (usize, usize) = self.visited[i];
            if cell.0 == row && cell.1 == col {
                return true;
            }
            i += 1;
        }
        false
    }

    /// The path that goes on from this one to a neighbouring cell: a copy of
    /// its own, which leaves this path as it was.
    fn extend(&self, puzzle: &Puzzle, row: usize, col: usize) -> (longer: SearchPath)
        requires
            puzzle.wf(),
            self.wf(puzzle),
            puzzle.in_grid((row, col)),
            adjacent(self.position(), (row, col)),
            !self.cells().contains((row, col)),
        ensures
            longer.wf(puzzle),
            longer.cells() == self.cells().push((row, col)),
            longer.word() == self.word().push(puzzle.letter_at((row, col))),
            puzzle.cells_left(longer.cells()) + 1 == puzzle.cells_left(self.cells()),
    {
        let mut word = self.word.clone();
        word.push(puzzle.letter(row, col));
        let mut visited: Vec<(usize, usize)> = Vec::new();
        let mut i: usize = 0;
        while i < self.visited.len()
            invariant
                0 <= i <= self.visited.len(),
                visited@ == self.visited@.take(i as int),
            decreases self.visited.len() - i,
        {
            let cell: (usize, usize) = self.visited[i];
            visited.push(cell);
            proof {
                assert(visited@ =~= self.visited@.take(i as int + 1));
            }
            i += 1;
        }
        proof {
            assert(self.visited@.take(i as int) =~= self.visited@);
            lemma_path_push(*puzzle, self.visited@, (row, col));
        }
        visited.push((row, col));
        SearchPath { row, col, word, visited }
    }
}

/// Puts a word at its place in a sorted list, unless the list holds it
/// already.
pub fn insert_sorted(list: &mut Vec<String>, word: String)
    requires
        strictly_sorted(texts(old(list)@)),
    ensures
        strictly_sorted(texts(final(list)@)),
        texts(final(list)@).to_set() == texts(old(list)@).to_set().insert(word@),
{
    let ghost before = texts(list@);
    let mut lo: usize = 0;
    let mut hi: usize = list.len();
    while lo < hi
        invariant
            0 <= lo <= hi <= list.len(),
            before == texts(list@),
            strictly_sorted(before),
            forall|i: int| 0 <= i < lo ==> lex_lt(#[trigger] before[i], word@),
            forall|i: int| hi <= i < before.len() ==> !lex_lt(#[trigger] before[i], word@),
        decreases hi - lo,
    {
        let mid: usize = lo + (hi - lo) / 2;
        assert(before[mid as int] == list@[mid as int]@);
        if lex_less(list[mid].as_str(), word.as_str()) {
            proof {
                assert forall|i: int| 0 <= i < mid + 1 implies lex_lt(#[trigger] before[i], word@) by {
                    if i < mid {
                        assert(lex_lt(before[i], before[mid as int]));
                        lemma_lex_lt_transitive(before[i], before[mid as int], word@);
                    }
                }
            }
            lo = mid + 1;
        } else {
            proof {
                assert forall|i: int| mid <= i < before.len() implies !lex_lt(
                    #[trigger] before[i],
                    word@,
                ) by {
                    if i > mid && lex_lt(before[i], word@) {
                        assert(lex_lt(before[mid as int], before[i]));
                        lemma_lex_lt_transitive(before[mid as int], before[i], word@);
                    }
                }
            }
            hi = mid;
        }
    }
    if lo < list.len() {
        assert(before[lo as int] == list@[lo as int]@);
        if !lex_less(word.as_str(), list[lo].as_str()) {
            proof {
                if before[lo as int] != word@ {
                    lemma_lex_lt_total(before[lo as int], word@);
                }
                assert(before.to_set().contains(before[lo as int]));
                assert(before.to_set().insert(word@) =~= before.to_set());
            }
            return ;
        }
    }
    let ghost w = word@;
    list.insert(lo, word);
    proof {
        let after = texts(list@);
        assert(after =~= before.insert(lo as int, w));
        assert forall|i: int, j: int| 0 <= i < j < after.len() implies lex_lt(after[i], after[j]) by {
            if j < lo {
                assert(lex_lt(before[i], before[j]));
            } else if j == lo {
                assert(lex_lt(before[i], w));
            } else if i == lo {
                assert(lex_lt(w, before[lo as int]));
                if j - 1 > lo {
                    assert(lex_lt(before[lo as int], before[j - 1]));
                    lemma_lex_lt_transitive(w, before[lo as int], before[j - 1]);
                }
            } else if i > lo {
                assert(lex_lt(before[i - 1], before[j - 1]));
            } else {
                assert(lex_lt(before[i], before[j - 1]));
            }
        }
        assert forall|x: Seq<char>| after.to_set().contains(x) <==> before.to_set().insert(w).contains(
            x,
        ) by {
            if after.to_set().contains(x) {
                let i = choose|i: int| 0 <= i < after.len() && after[i] == x;
                if i < lo {
                    assert(before[i] == x);
                } else if i > lo {
                    assert(before[i - 1] == x);
                }
            }
            if before.to_set().contains(x) {
                let i = choose|i: int| 0 <= i < before.len() && before[i] == x;
                if i < lo {
                    assert(after[i] == x);
                } else {
                    assert(after[i + 1] == x);
                }
            }
            if x == w {
                assert(after[lo as int] == x);
            }
        }
        assert(after.to_set() =~= before.to_set().insert(w));
    }
}

/// The cell lies before row `row`, or in row `row` before column `col`.
spec fn cell_before(cell: (usize, usize), row: int, col: int) -> bool {
    cell.0 < row || (cell.0 == row && cell.1 < col)
}

/// Every path of the queue is a path on the grid that knows its word.
spec fn all_wf(puzzle: &Puzzle, queue: Seq<SearchPath>) -> bool {
    forall|i: int| 0 <= i < queue.len() ==> (#[trigger] queue[i]).wf(puzzle)
}

/// The queue holds a path that visits exactly these cells.
spec fn holds_path(queue: Seq<SearchPath>, cells: Seq<(usize, usize)>) -> bool {
    exists|i: int| 0 <= i < queue.len() && (#[trigger] queue[i]).cells() == cells
}

/// The queue holds the beginning of `path`: going on from what it holds, the
/// search can still reach `path`.
spec fn pending(queue: Seq<SearchPath>, path: Seq<(usize, usize)>) -> bool {
    exists|i: int| 0 <= i < queue.len() && (#[trigger] queue[i]).cells().is_prefix_of(path)
}

/// The search has not lost `path`: it has found the word that `path` spells,
/// or it can still reach `path` from the queue.
spec fn covered(
    puzzle: &Puzzle,
    found: Seq<Seq<char>>,
    queue: Seq<SearchPath>,
    path: Seq<(usize, usize)>,
) -> bool {
    found.contains(puzzle.spells(path)) || pending(queue, path)
}

/// A bound on the paths that the search takes from the queue before it is
/// done with a path that has `left` cells left to visit: the path itself, and
/// what the paths that go on from it cost, to each of the nine cells of the
/// block around its position at most.
spec fn work(left: nat) -> nat
    decreases left,
{
    if left == 0 {
        1
    } else {
        1 + 9 * work((left - 1) as nat)
    }
}

/// The work that is left in the queue.
spec fn queue_work(puzzle: &Puzzle, queue: Seq<SearchPath>) -> nat
    decreases queue.len(),
{
    if queue.len() == 0 {
        0
    } else {
        queue_work(puzzle, queue.drop_last()) + work(puzzle.cells_left(queue.last().cells()))
    }
}

/// A path put on the queue adds its own work.
proof fn lemma_queue_work_push(puzzle: &Puzzle, queue: Seq<SearchPath>, path: SearchPath)
    ensures
        queue_work(puzzle, queue.push(path)) == queue_work(puzzle, queue) + work(
            puzzle.cells_left(path.cells()),
        ),
{
    assert(queue.push(path).drop_last() =~= queue);
}

/// Every way to a dictionary word starts at a cell whose letter begins a
/// word, so a queue that holds each such cell has lost no path.
proof fn lemma_seeds_cover(
    puzzle: &Puzzle,
    words: Set<Seq<char>>,
    queue: Seq<SearchPath>,
    path: Seq<(usize, usize)>,
)
    requires
        puzzle.is_path(path),
        words.contains(puzzle.spells(path)),
        forall|cell: (usize, usize)|
            puzzle.in_grid(cell) && prefix_closure(words).contains(seq![puzzle.letter_at(cell)])
                ==> #[trigger] holds_path(queue, seq![cell]),
    ensures
        pending(queue, path),
{
    let cell = path[0];
    let word = puzzle.spells(path);
    assert(puzzle.in_grid(cell));
    assert(seq![puzzle.letter_at(cell)] =~= word.subrange(0, 1));
    assert(is_kept_prefix(seq![puzzle.letter_at(cell)], word));
    assert(holds_path(queue, seq![cell]));
    let i = choose|i: int| 0 <= i < queue.len() && (#[trigger] queue[i]).cells() == seq![cell];
    assert(queue[i].cells() =~= path.subrange(0, 1));
    assert(queue[i].cells().is_prefix_of(path));
}

/// One step of the search loses no path. The step takes `taken` from the
/// queue, records its word if that is a dictionary word, and, if the word
/// begins a dictionary word, puts on the queue the paths that go on from
/// `taken` to each neighbouring cell that it has not visited.
proof fn lemma_step_covers(
    puzzle: &Puzzle,
    words: Set<Seq<char>>,
    found: Seq<Seq<char>>,
    found_after: Seq<Seq<char>>,
    rest: Seq<SearchPath>,
    taken: SearchPath,
    queue_after: Seq<SearchPath>,
    path: Seq<(usize, usize)>,
)
    requires
        taken.wf(puzzle),
        puzzle.is_path(path),
        words.contains(puzzle.spells(path)),
        covered(puzzle, found, rest.push(taken), path),
        forall|w: Seq<char>| found.contains(w) ==> found_after.contains(w),
        words.contains(taken.word()) ==> found_after.contains(taken.word()),
        rest.len() <= queue_after.len(),
        queue_after.take(rest.len() as int) == rest,
        prefix_closure(words).contains(taken.word()) ==> forall|cell: (usize, usize)|
            puzzle.in_grid(cell) && adjacent(taken.position(), cell) && !taken.cells().contains(cell)
                ==> #[trigger] holds_path(queue_after, taken.cells().push(cell)),
    ensures
        covered(puzzle, found_after, queue_after, path),
{
    let word = puzzle.spells(path);
    if !found.contains(word) {
        let before = rest.push(taken);
        let i = choose|i: int| 0 <= i < before.len() && (#[trigger] before[i]).cells().is_prefix_of(path);
        if i < rest.len() {
            assert(queue_after[i] == queue_after.take(rest.len() as int)[i]);
            assert(queue_after[i].cells().is_prefix_of(path));
        } else {
            let head = taken.cells();
            let n = head.len() as int;
            assert(head =~= path.take(n));
            lemma_spells_take(*puzzle, path, n);
            if n == path.len() {
                assert(path.take(n) =~= path);
            } else {
                let cell = path[n];
                assert(taken.word() =~= word.subrange(0, n));
                assert(is_kept_prefix(taken.word(), word));
                assert(puzzle.in_grid(cell));
                assert(adjacent(path[n - 1], path[n]));
                assert(head.last() == path[n - 1]);
                assert(!head.contains(cell)) by {
                    if head.contains(cell) {
                        let k = choose|k: int| 0 <= k < head.len() && head[k] == cell;
                        assert(path[k] == path[n]);
                    }
                }
                assert(holds_path(queue_after, head.push(cell)));
                let j = choose|j: int|
                    0 <= j < queue_after.len() && (#[trigger] queue_after[j]).cells() == head.push(cell);
                assert(head.push(cell) =~= path.subrange(0, n + 1));
                assert(queue_after[j].cells().is_prefix_of(path));
            }
        }
    }
}

impl Puzzle {
    /// The paths that the search starts from: one for each cell whose letter
    /// begins a word of the dictionary.
    fn seeds(&self, dict: &Dict) -> (queue: VecDeque<SearchPath>)
        requires
            self.wf(),
        ensures
            all_wf(self, queue@),
            forall|cell: (usize, usize)|
                self.in_grid(cell) && dict.prefixes().contains(seq![self.letter_at(cell)])
                    ==> #[trigger] holds_path(queue@, seq![cell]),
    {
        let mut queue: VecDeque<SearchPath> = VecDeque::new();
        let rows: usize = self.row_size();
        let cols: usize = self.col_size();
        let mut row: usize = 0;
        while row < rows
            invariant
                self.wf(),
                rows == self.rows(),
                cols == self.cols(),
                0 <= row <= rows,
                all_wf(self, queue@),
                forall|cell: (usize, usize)|
                    self.in_grid(cell) && cell_before(cell, row as int, 0) && dict.prefixes().contains(
                        seq![self.letter_at(cell)],
                    ) ==> #[trigger] holds_path(queue@, seq![cell]),
            decreases rows - row,
        {
            let mut col: usize = 0;
            while col < cols
                invariant
                    self.wf(),
                    rows == self.rows(),
                    cols == self.cols(),
                    0 <= row < rows,
                    0 <= col <= cols,
                    all_wf(self, queue@),
                    forall|cell: (usize, usize)|
                        self.in_grid(cell) && cell_before(cell, row as int, col as int)
                            && dict.prefixes().contains(seq![self.letter_at(cell)])
                            ==> #[trigger] holds_path(queue@, seq![cell]),
                decreases cols - col,
            {
                let path = SearchPath::start(self, row, col);
                let ghost before = queue@;
                // skip the cell if no word of the dictionary begins with its letter
                if dict.is_prefix(&path.word) {
                    queue.push_back(path);
                }
                proof {
                    assert forall|cell: (usize, usize)|
                        self.in_grid(cell) && cell_before(cell, row as int, col as int + 1)
                            && dict.prefixes().contains(
                            seq![self.letter_at(cell)],
                        ) implies #[trigger] holds_path(queue@, seq![cell]) by {
                        if cell_before(cell, row as int, col as int) {
                            assert(holds_path(before, seq![cell]));
                            let i = choose|i: int|
                                0 <= i < before.len() && (#[trigger] before[i]).cells() == seq![cell];
                            assert(queue@[i].cells() == seq![cell]);
                        } else {
                            assert(cell == (row, col));
                            assert(queue@[before.len() as int].cells() == seq![cell]);
                        }
                    }
                }
                col += 1;
            }
            row += 1;
        }
        queue
    }

    /// Puts on the queue the paths that go on from `path` by one cell: to each
    /// cell of the grid that touches the position of `path`, diagonally too,
    /// and that `path` has not visited.
    fn expand(&self, path: &SearchPath, queue: &mut VecDeque<SearchPath>)
        requires
            self.wf(),
            path.wf(self),
            all_wf(self, old(queue)@),
        ensures
            all_wf(self, final(queue)@),
            old(queue)@.len() <= final(queue)@.len(),
            final(queue)@.take(old(queue)@.len() as int) == old(queue)@,
            forall|cell: (usize, usize)|
                self.in_grid(cell) && adjacent(path.position(), cell) && !path.cells().contains(cell)
                    ==> #[trigger] holds_path(final(queue)@, path.cells().push(cell)),
            queue_work(self, final(queue)@) + 1 <= queue_work(self, old(queue)@) + work(
                self.cells_left(path.cells()),
            ),
    {
        let rows: usize = self.row_size();
        let cols: usize = self.col_size();
        assert(self.in_grid(path.cells().last()));
        let lo_row: usize = path.row.saturating_sub(1);
        let lo_col: usize = path.col.saturating_sub(1);
        // one past the last row and column of the block
        let hi_row: usize = if path.row + 1 < rows {
            path.row + 2
        } else {
            rows
        };
        let hi_col: usize = if path.col + 1 < cols {
            path.col + 2
        } else {
            cols
        };
        let ghost left = self.cells_left(path.cells());
        let ghost each = work((left - 1) as nat);
        let ghost base = queue@;
        let ghost mut pushed: nat = 0;
        let mut row: usize = lo_row;
        while row < hi_row
            invariant
                self.wf(),
                path.wf(self),
                rows == self.rows(),
                cols == self.cols(),
                lo_row <= row <= hi_row <= rows,
                lo_col <= hi_col <= cols,
                hi_row - lo_row <= 3,
                hi_col - lo_col <= 3,
                lo_row == if path.row == 0 { 0 } else { path.row - 1 },
                lo_col == if path.col == 0 { 0 } else { path.col - 1 },
                hi_row == if path.row + 1 < rows { path.row + 2 } else { rows as int },
                hi_col == if path.col + 1 < cols { path.col + 2 } else { cols as int },
                left == self.cells_left(path.cells()),
                each == work((left - 1) as nat),
                all_wf(self, queue@),
                base.len() <= queue@.len(),
                queue@.take(base.len() as int) == base,
                pushed <= 3 * (row - lo_row),
                left == 0 ==> pushed == 0,
                queue_work(self, queue@) == queue_work(self, base) + pushed * each,
                forall|cell: (usize, usize)|
                    self.in_grid(cell) && adjacent(path.position(), cell) && !path.cells().contains(cell)
                        && cell_before(cell, row as int, 0) ==> #[trigger] holds_path(
                        queue@,
                        path.cells().push(cell),
                    ),
            decreases hi_row - row,
        {
            let mut col: usize = lo_col;
            while col < hi_col
                invariant
                    self.wf(),
                    path.wf(self),
                    rows == self.rows(),
                    cols == self.cols(),
                    lo_row <= row < hi_row <= rows,
                    lo_col <= col <= hi_col <= cols,
                    hi_col - lo_col <= 3,
                    lo_row == if path.row == 0 { 0 } else { path.row - 1 },
                    lo_col == if path.col == 0 { 0 } else { path.col - 1 },
                    hi_row == if path.row + 1 < rows { path.row + 2 } else { rows as int },
                    hi_col == if path.col + 1 < cols { path.col + 2 } else { cols as int },
                    left == self.cells_left(path.cells()),
                    each == work((left - 1) as nat),
                    all_wf(self, queue@),
                    base.len() <= queue@.len(),
                    queue@.take(base.len() as int) == base,
                    pushed <= 3 * (row - lo_row) + (col - lo_col),
                    left == 0 ==> pushed == 0,
                    queue_work(self, queue@) == queue_work(self, base) + pushed * each,
                    forall|cell: (usize, usize)|
                        self.in_grid(cell) && adjacent(path.position(), cell) && !path.cells().contains(
                            cell,
                        ) && cell_before(cell, row as int, col as int) ==> #[trigger] holds_path(
                            queue@,
                            path.cells().push(cell),
                        ),
                decreases hi_col - col,
            {
                let ghost before = queue@;
                // skip the cell if the path has been there
                if !path.visits(row, col) {
                    assert((row, col) != path.position());
                    let longer = path.extend(self, row, col);
                    proof {
                        lemma_queue_work_push(self, queue@, longer);
                        assert((pushed + 1) * each == pushed * each + each) by (nonlinear_arith);
                        pushed = pushed + 1;
                    }
                    queue.push_back(longer);
                    proof {
                        assert(queue@.take(base.len() as int) =~= before.take(base.len() as int));
                    }
                }
                proof {
                    assert forall|cell: (usize, usize)|
                        self.in_grid(cell) && adjacent(path.position(), cell) && !path.cells().contains(
                            cell,
                        ) && cell_before(cell, row as int, col as int + 1) implies #[trigger] holds_path(
                        queue@,
                        path.cells().push(cell),
                    ) by {
                        if cell_before(cell, row as int, col as int) {
                            assert(holds_path(before, path.cells().push(cell)));
                            let i = choose|i: int|
                                0 <= i < before.len() && (#[trigger] before[i]).cells() == path.cells().push(
                                    cell,
                                );
                            assert(queue@[i].cells() == path.cells().push(cell));
                        } else {
                            assert(cell == (row, col));
                            assert(queue@[before.len() as int].cells() == path.cells().push(cell));
                        }
                    }
                }
                col += 1;
            }
            proof {
                assert forall|cell: (usize, usize)|
                    self.in_grid(cell) && adjacent(path.position(), cell) && !path.cells().contains(cell)
                        && cell_before(cell, row as int + 1, 0) implies #[trigger] holds_path(
                    queue@,
                    path.cells().push(cell),
                ) by {
                    assert(cell_before(cell, row as int, hi_col as int));
                }
            }
            row += 1;
        }
        proof {
            assert forall|cell: (usize, usize)|
                self.in_grid(cell) && adjacent(path.position(), cell) && !path.cells().contains(
                    cell,
                ) implies #[trigger] holds_path(queue@, path.cells().push(cell)) by {
                assert(cell_before(cell, hi_row as int, 0));
            }
            assert(pushed * each <= 9 * each) by (nonlinear_arith)
                requires
                    pushed <= 9,
                    each >= 0,
            ;
        }
    }

    /// Search all possible solutions: the words of the dictionary that can be
    /// traced on the grid, each once, in dictionary order.
    pub fn search(&self, dict: &Dict) -> (answer: Vec<String>)
        requires
            self.wf(),
            dict.wf(),
        ensures
            self.is_answer(dict.words(), texts(answer@)),
            texts(answer@).no_duplicates(),
            forall|i: int|
                0 <= i < answer@.len() ==> dict.words().contains(#[trigger] texts(answer@)[i])
                    && self.traceable(texts(answer@)[i]),
    {
        let mut answer: Vec<String> = Vec::new();
        let mut queue: VecDeque<SearchPath> = self.seeds(dict);
        proof {
            assert forall|path: Seq<(usize, usize)>| #[trigger]
                self.is_path(path) && dict.words().contains(self.spells(path)) implies covered(
                self,
                texts(answer@),
                queue@,
                path,
            ) by {
                lemma_seeds_cover(self, dict.words(), queue@, path);
            }
        }
        // flood fill
        while queue.len() > 0
            invariant
                self.wf(),
                dict.wf(),
                all_wf(self, queue@),
                strictly_sorted(texts(answer@)),
                forall|w: Seq<char>| #[trigger]
                    texts(answer@).contains(w) ==> dict.words().contains(w) && self.traceable(w),
                forall|path: Seq<(usize, usize)>| #[trigger]
                    self.is_path(path) && dict.words().contains(self.spells(path)) ==> covered(
                        self,
                        texts(answer@),
                        queue@,
                        path,
                    ),
            decreases queue_work(self, queue@),
        {
            let ghost queue_before = queue@;
            let ghost found = texts(answer@);
            let taken = queue.pop_back().unwrap();
            let ghost rest = queue@;
            proof {
                assert(queue_before =~= rest.push(taken));
                assert(queue_before.drop_last() =~= rest);
                assert(taken.wf(self));
                assert(all_wf(self, rest)) by {
                    assert forall|i: int| 0 <= i < rest.len() implies (#[trigger] rest[i]).wf(self) by {
                        assert(queue_before[i].wf(self));
                    }
                }
            }
            if dict.contains(&taken.word) {
                insert_sorted(&mut answer, taken.word.clone());
            }
            let ghost found_after = texts(answer@);
            proof {
                assert forall|w: Seq<char>| found.contains(w) implies found_after.contains(w) by {
                    assert(found.to_set().contains(w));
                    assert(found_after.to_set().contains(w));
                }
                if dict.words().contains(taken.word()) {
                    assert(found_after.to_set().contains(taken.word()));
                }
                assert forall|w: Seq<char>| found_after.contains(w) implies dict.words().contains(w)
                    && self.traceable(w) by {
                    assert(found_after.to_set().contains(w));
                    if !found.contains(w) {
                        assert(!found.to_set().contains(w));
                        assert(w == taken.word());
                        assert(self.is_path(taken.cells()));
                    }
                }
            }
            // go on only if the word begins a word of the dictionary
            if dict.is_prefix(&taken.word) {
                self.expand(&taken, &mut queue);
            }
            proof {
                assert forall|path: Seq<(usize, usize)>| #[trigger]
                    self.is_path(path) && dict.words().contains(self.spells(path)) implies covered(
                    self,
                    found_after,
                    queue@,
                    path,
                ) by {
                    if !dict.prefixes().contains(taken.word()) {
                        assert(queue@.take(rest.len() as int) =~= rest);
                    }
                    lemma_step_covers(
                        self,
                        dict.words(),
                        found,
                        found_after,
                        rest,
                        taken,
                        queue@,
                        path,
                    );
                }
            }
        }
        proof {
            let found = texts(answer@);
            assert forall|w: Seq<char>| found.to_set().contains(w) <==> self.solutions(
                dict.words(),
            ).contains(w) by {
                if self.solutions(dict.words()).contains(w) {
                    let path = choose|path: Seq<(usize, usize)>| #[trigger]
                        self.is_path(path) && self.spells(path) == w;
                    assert(covered(self, found, queue@, path));
                }
                if found.to_set().contains(w) {
                    assert(found.contains(w));
                }
            }
            assert(found.to_set() =~= self.solutions(dict.words()));
            lemma_strictly_sorted_no_duplicates(found);
            assert forall|i: int| 0 <= i < found.len() implies dict.words().contains(#[trigger] found[i])
                && self.traceable(found[i]) by {
                assert(found.contains(found[i]));
            }
        }
        answer
    }
}

} // verus!
