//! What holds of every puzzle and every dictionary: the laws that relate the
//! index, the filter and the search to each other.

use crate::dict::{accepted_words, is_kept_prefix, is_playable, Dict, MIN_WORD_LEN};
use crate::puzzle::Puzzle;
use crate::text::{lemma_strictly_sorted_no_duplicates, lemma_strictly_sorted_unique};
use vstd::prelude::*;

verus! {

/// The index holds no false prefix and misses no true one: it holds `s`
/// exactly where `s` is a non-empty leading part of a word of the dictionary.
pub proof fn lemma_prefix_iff_begins_word(dict: Dict, s: Seq<char>)
    requires
        dict.wf(),
    ensures
        dict.prefixes().contains(s) <==> s.len() > 0 && exists|w: Seq<char>|
            dict.words().contains(w) && s.is_prefix_of(w),
{
    if dict.prefixes().contains(s) {
        let w = choose|w: Seq<char>| dict.words().contains(w) && is_kept_prefix(s, w);
        assert(s.is_prefix_of(w));
    }
    if s.len() > 0 && exists|w: Seq<char>| dict.words().contains(w) && s.is_prefix_of(w) {
        let w = choose|w: Seq<char>| dict.words().contains(w) && s.is_prefix_of(w);
        assert(is_kept_prefix(s, w));
    }
}

/// Every word of one letter or more is among the prefixes, and with each
/// prefix of more than one letter the index holds the prefix that is one
/// letter shorter.
pub proof fn lemma_prefixes_closed(dict: Dict, s: Seq<char>)
    requires
        dict.wf(),
    ensures
        dict.words().contains(s) && s.len() > 0 ==> dict.prefixes().contains(s),
        dict.prefixes().contains(s) && s.len() > 1 ==> dict.prefixes().contains(s.drop_last()),
{
    if dict.words().contains(s) && s.len() > 0 {
        assert(s =~= s.subrange(0, s.len() as int));
        assert(is_kept_prefix(s, s));
    }
    if dict.prefixes().contains(s) && s.len() > 1 {
        let w = choose|w: Seq<char>| dict.words().contains(w) && is_kept_prefix(s, w);
        assert(s.drop_last() =~= w.subrange(0, s.len() - 1));
        assert(is_kept_prefix(s.drop_last(), w));
    }
}

/// An answer holds no word twice, however many paths spell the word.
pub proof fn lemma_answer_no_duplicates(puzzle: Puzzle, words: Set<Seq<char>>, answer: Seq<Seq<char>>)
    requires
        puzzle.is_answer(words, answer),
    ensures
        answer.no_duplicates(),
{
    lemma_strictly_sorted_no_duplicates(answer);
}

/// Every word of an answer is a word of the dictionary, and some path on the
/// grid spells it: adjacent cells, the diagonal ones included, and no cell
/// twice.
pub proof fn lemma_answer_sound(puzzle: Puzzle, words: Set<Seq<char>>, answer: Seq<Seq<char>>, i: int)
    requires
        puzzle.is_answer(words, answer),
        0 <= i < answer.len(),
    ensures
        words.contains(answer[i]),
        exists|path: Seq<(usize, usize)>| #[trigger] puzzle.is_path(path) && puzzle.spells(path) == answer[i],
{
    assert(answer.to_set().contains(answer[i]));
}

/// An answer misses no word: it holds every word of the dictionary that some
/// path on the grid spells.
pub proof fn lemma_answer_complete(
    puzzle: Puzzle,
    words: Set<Seq<char>>,
    answer: Seq<Seq<char>>,
    path: Seq<(usize, usize)>,
)
    requires
        puzzle.is_answer(words, answer),
        puzzle.is_path(path),
        words.contains(puzzle.spells(path)),
    ensures
        answer.contains(puzzle.spells(path)),
{
    assert(puzzle.solutions(words).contains(puzzle.spells(path)));
    assert(answer.to_set().contains(puzzle.spells(path)));
}

/// In the dictionary that the filter builds, every word has at least
/// `MIN_WORD_LEN` letters, is made of letters of the grid, and is the
/// lowercase form of a candidate; so has every word of an answer to it.
pub proof fn lemma_answer_words_playable(
    puzzle: Puzzle,
    candidates: Seq<Seq<char>>,
    answer: Seq<Seq<char>>,
    i: int,
)
    requires
        puzzle.is_answer(accepted_words(candidates, puzzle.alphabet()), answer),
        0 <= i < answer.len(),
    ensures
        answer[i].len() >= MIN_WORD_LEN,
        is_playable(answer[i], puzzle.alphabet()),
        accepted_words(candidates, puzzle.alphabet()).contains(answer[i]),
{
    assert(answer.to_set().contains(answer[i]));
}

/// The search is a function of the grid and the dictionary: two answers for
/// the same grid and the same words are the same list.
pub proof fn lemma_answer_unique(
    puzzle: Puzzle,
    words: Set<Seq<char>>,
    first: Seq<Seq<char>>,
    second: Seq<Seq<char>>,
)
    requires
        puzzle.is_answer(words, first),
        puzzle.is_answer(words, second),
    ensures
        first == second,
{
    lemma_strictly_sorted_unique(first, second);
}

/// A dictionary with more words has every solution of the smaller one.
pub proof fn lemma_solutions_monotonic(puzzle: Puzzle, words: Set<Seq<char>>, more: Set<Seq<char>>)
    requires
        words.subset_of(more),
    ensures
        puzzle.solutions(words).subset_of(puzzle.solutions(more)),
{
}

/// A list of candidates that holds every candidate of another list gives
/// every word that the other list gives.
pub proof fn lemma_accepted_words_monotonic(
    candidates: Seq<Seq<char>>,
    more: Seq<Seq<char>>,
    alphabet: Set<char>,
)
    requires
        forall|i: int| 0 <= i < candidates.len() ==> more.contains(#[trigger] candidates[i]),
    ensures
        accepted_words(candidates, alphabet).subset_of(accepted_words(more, alphabet)),
{
    assert forall|w: Seq<char>| accepted_words(candidates, alphabet).contains(w) implies accepted_words(
        more,
        alphabet,
    ).contains(w) by {
        let i = choose|i: int| 0 <= i < candidates.len() && crate::text::lowercase(#[trigger] candidates[i]) == w;
        assert(more.contains(candidates[i]));
        let j = choose|j: int| 0 <= j < more.len() && more[j] == candidates[i];
        assert(crate::text::lowercase(more[j]) == w);
    }
}

/// Monotonicity: a word added to the list of candidates, at any place, takes
/// no word from the answer for a grid.
pub proof fn lemma_added_candidate_keeps_answer(
    puzzle: Puzzle,
    candidates: Seq<Seq<char>>,
    at: int,
    word: Seq<char>,
    answer: Seq<Seq<char>>,
    longer_answer: Seq<Seq<char>>,
)
    requires
        0 <= at <= candidates.len(),
        puzzle.is_answer(accepted_words(candidates, puzzle.alphabet()), answer),
        puzzle.is_answer(accepted_words(candidates.insert(at, word), puzzle.alphabet()), longer_answer),
    ensures
        forall|i: int| 0 <= i < answer.len() ==> longer_answer.contains(#[trigger] answer[i]),
{
    let more = candidates.insert(at, word);
    assert forall|i: int| 0 <= i < candidates.len() implies more.contains(#[trigger] candidates[i]) by {
        if i < at {
            assert(more[i] == candidates[i]);
        } else {
            assert(more[i + 1] == candidates[i]);
        }
    }
    lemma_accepted_words_monotonic(candidates, more, puzzle.alphabet());
    lemma_solutions_monotonic(
        puzzle,
        accepted_words(candidates, puzzle.alphabet()),
        accepted_words(more, puzzle.alphabet()),
    );
    assert forall|i: int| 0 <= i < answer.len() implies longer_answer.contains(#[trigger] answer[i]) by {
        assert(answer.to_set().contains(answer[i]));
        assert(longer_answer.to_set().contains(answer[i]));
    }
}

/// A word that can be traced is made of letters of the grid: to drop the
/// candidates with other letters changes no answer.
pub proof fn lemma_traceable_in_alphabet(puzzle: Puzzle, word: Seq<char>)
    requires
        puzzle.traceable(word),
    ensures
        word.len() >= 1,
        forall|i: int| 0 <= i < word.len() ==> puzzle.alphabet().contains(#[trigger] word[i]),
{
    let path = choose|path: Seq<(usize, usize)>| #[trigger] puzzle.is_path(path) && puzzle.spells(path) == word;
    assert forall|i: int| 0 <= i < word.len() implies puzzle.alphabet().contains(#[trigger] word[i]) by {
        let cell = path[i];
        assert(puzzle.in_grid(cell));
        assert(puzzle.grid()[cell.0 as int][cell.1 as int] == word[i]);
    }
}

/// With no candidate there is no word, and the answer is empty for any grid.
pub proof fn lemma_no_candidates_no_answer(puzzle: Puzzle, answer: Seq<Seq<char>>)
    requires
        puzzle.is_answer(accepted_words(Seq::<Seq<char>>::empty(), puzzle.alphabet()), answer),
    ensures
        answer.len() == 0,
{
    if answer.len() > 0 {
        assert(answer.to_set().contains(answer[0]));
    }
}

} // verus!
