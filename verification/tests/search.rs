use boggle::dict::{Dict, DictBuilder};
use boggle::puzzle::Puzzle;
use std::collections::BTreeSet;

fn strings(words: &[&str]) -> Vec<String> {
    words.iter().map(|w| w.to_string()).collect()
}

fn solve(grid: &str, words: &[&str]) -> Vec<String> {
    let puzzle = Puzzle::from_str(grid);
    let dict = DictBuilder::new(strings(words)).filter(&puzzle);
    puzzle.search(&dict)
}

/// Every word of `words` that some path on the grid spells, found by trying
/// every path.
fn brute_force(grid: &[Vec<char>], words: &BTreeSet<String>) -> BTreeSet<String> {
    fn walk(
        grid: &[Vec<char>],
        words: &BTreeSet<String>,
        row: usize,
        col: usize,
        seen: &mut Vec<(usize, usize)>,
        word: &mut String,
        found: &mut BTreeSet<String>,
        longest: usize,
    ) {
        seen.push((row, col));
        word.push(grid[row][col]);
        if words.contains(word) {
            found.insert(word.clone());
        }
        if word.chars().count() < longest {
            for r in row.saturating_sub(1)..(row + 2).min(grid.len()) {
                for c in col.saturating_sub(1)..(col + 2).min(grid[r].len()) {
                    if !seen.contains(&(r, c)) {
                        walk(grid, words, r, c, seen, word, found, longest);
                    }
                }
            }
        }
        word.pop();
        seen.pop();
    }
    let longest = words.iter().map(|w| w.chars().count()).max().unwrap_or(0);
    let mut found = BTreeSet::new();
    for row in 0..grid.len() {
        for col in 0..grid[row].len() {
            walk(grid, words, row, col, &mut Vec::new(), &mut String::new(), &mut found, longest);
        }
    }
    found
}

#[test]
fn finds_the_one_word_of_the_dictionary() {
    assert_eq!(solve("abc def ghi", &["bad"]), strings(&["bad"]));
}

#[test]
fn leaves_out_a_word_whose_letters_do_not_touch() {
    // a, c and e are all on the grid, but a and c do not touch
    assert_eq!(solve("abc def ghi", &["ace"]), Vec::<String>::new());
    assert_eq!(solve("abc def ghi", &["ace", "bad", "aei"]), strings(&["aei", "bad"]));
}

#[test]
fn leaves_out_words_of_fewer_than_three_letters() {
    assert_eq!(solve("abc def ghi", &["ab", "a", "be", ""]), Vec::<String>::new());
    assert_eq!(solve("abc def ghi", &["ab", "abc"]), strings(&["abc"]));
}

#[test]
fn finds_a_word_and_the_longer_word_that_it_begins() {
    assert_eq!(solve("cat xsx", &["cat", "cats"]), strings(&["cat", "cats"]));
    assert_eq!(solve("cat xsx", &["cats"]), strings(&["cats"]));
    assert_eq!(solve("cat xsx", &["cat"]), strings(&["cat"]));
}

#[test]
fn finds_nothing_without_candidates() {
    assert_eq!(solve("abc def ghi", &[]), Vec::<String>::new());
    assert_eq!(solve("a", &[]), Vec::<String>::new());
    assert_eq!(solve("", &[]), Vec::<String>::new());
}

#[test]
fn leaves_out_a_word_with_a_letter_that_the_grid_lacks() {
    // "baz" needs a z; "bad" has the same length and can be traced
    assert_eq!(solve("abc def ghi", &["baz"]), Vec::<String>::new());
    assert_eq!(solve("abc def ghi", &["baz", "bad"]), strings(&["bad"]));
}

#[test]
fn a_grid_of_one_cell_has_no_word() {
    assert_eq!(solve("a", &["a", "aa", "aaa"]), Vec::<String>::new());
}

#[test]
fn a_word_of_exactly_three_letters_is_found() {
    assert_eq!(solve("abc", &["abc", "cba"]), strings(&["abc", "cba"]));
}

#[test]
fn no_cell_is_used_twice() {
    // one a and one b: "aba" would need the a twice
    assert_eq!(solve("ab", &["aba", "bab"]), Vec::<String>::new());
    assert_eq!(solve("aba", &["aba", "bab"]), strings(&["aba"]));
}

#[test]
fn diagonal_cells_touch() {
    assert_eq!(solve("axx xbx xxc", &["abc", "cba"]), strings(&["abc", "cba"]));
    assert_eq!(solve("xxa xbx cxx", &["abc"]), strings(&["abc"]));
}

#[test]
fn cells_two_apart_do_not_touch() {
    assert_eq!(solve("axb xxx cxx", &["abc", "acb"]), Vec::<String>::new());
}

#[test]
fn a_word_with_many_paths_is_listed_once() {
    assert_eq!(solve("aa aa", &["aaa", "aaaa"]), strings(&["aaa", "aaaa"]));
}

#[test]
fn a_word_that_is_a_candidate_twice_is_listed_once() {
    assert_eq!(solve("abc def ghi", &["bad", "bad", "BAD"]), strings(&["bad"]));
}

#[test]
fn the_answer_is_in_dictionary_order() {
    let answer = solve("abc def ghi", &["fed", "bad", "abc", "abed", "ab", "abe"]);
    assert_eq!(answer, strings(&["abc", "abe", "abed", "bad", "fed"]));
    let sorted: BTreeSet<String> = answer.iter().cloned().collect();
    assert_eq!(answer, sorted.into_iter().collect::<Vec<String>>());
}

#[test]
fn candidates_are_taken_in_lowercase() {
    assert_eq!(solve("abc def ghi", &["BAD", "Fed", "aBc"]), strings(&["abc", "bad", "fed"]));
}

#[test]
fn a_path_can_use_every_cell() {
    assert_eq!(solve("abc fed ghi", &["abcdefghi"]), strings(&["abcdefghi"]));
    assert_eq!(solve("abc fed ghi", &["abcdefghia"]), Vec::<String>::new());
}

#[test]
fn searching_twice_gives_the_same_answer() {
    let puzzle = Puzzle::from_str("adut qsoa iism irta");
    let dict = DictBuilder::new(strings(&["quit", "most", "aims", "dust", "toad", "suit"])).filter(&puzzle);
    let first = puzzle.search(&dict);
    let second = puzzle.search(&dict);
    assert_eq!(first, second);
    let again = DictBuilder::new(strings(&["suit", "toad", "dust", "aims", "most", "quit"])).filter(&puzzle);
    assert_eq!(puzzle.search(&again), first);
}

#[test]
fn another_candidate_takes_no_word_away() {
    let puzzle = Puzzle::from_str("abc def ghi");
    let fewer = DictBuilder::new(strings(&["bad", "fed"])).filter(&puzzle);
    let more = DictBuilder::new(strings(&["bad", "abe", "fed", "zzz"])).filter(&puzzle);
    let small = puzzle.search(&fewer);
    let large = puzzle.search(&more);
    assert_eq!(small, strings(&["bad", "fed"]));
    assert_eq!(large, strings(&["abe", "bad", "fed"]));
    for word in &small {
        assert!(large.contains(word));
    }
}

#[test]
fn every_word_found_is_a_word_of_the_dictionary_of_three_letters_or_more() {
    let words = ["bad", "be", "fed", "head", "hi", "bead", "abcfedghi", "xyz"];
    let puzzle = Puzzle::from_str("abc def ghi");
    let dict = DictBuilder::new(strings(&words)).filter(&puzzle);
    let answer = puzzle.search(&dict);
    assert_eq!(answer, strings(&["abcfedghi", "bad", "bead", "fed", "head"]));
    for word in &answer {
        assert!(dict.contains(word));
        assert!(word.chars().count() >= 3);
        assert!(words.contains(&word.as_str()));
    }
}

#[test]
fn search_agrees_with_trying_every_path() {
    let rows = ["adut", "qsoa", "iism", "irta"];
    let words = [
        "quit", "most", "aims", "dust", "toad", "suit", "stoat", "mist", "sit", "oats", "doom", "moist",
        "riot", "trim", "atom", "soda", "duo", "out", "tis", "its", "sis", "air", "rim", "mat", "tam",
        "taut", "so", "is", "a", "maoist", "amt", "somas", "visit", "quits", "adit", "audit",
    ];
    let grid: Vec<Vec<char>> = rows.iter().map(|r| r.chars().collect()).collect();
    let all: BTreeSet<String> = words.iter().filter(|w| w.len() >= 3).map(|w| w.to_string()).collect();
    let expected: Vec<String> = brute_force(&grid, &all).into_iter().collect();
    assert!(!expected.is_empty());
    assert_eq!(solve(&rows.join(" "), &words), expected);
}

#[test]
fn search_takes_a_dictionary_made_by_hand() {
    let puzzle = Puzzle::from_str("abc def ghi");
    let mut dict = Dict::new();
    dict.insert("bad".to_string());
    dict.insert("be".to_string());
    dict.insert("zzz".to_string());
    dict.insert("".to_string());
    // the search itself asks for no length: "be" is a word of this dictionary
    assert_eq!(puzzle.search(&dict), strings(&["bad", "be"]));
}

#[test]
fn a_grid_without_columns_has_no_word() {
    let puzzle = Puzzle::from_str("");
    let mut dict = Dict::new();
    dict.insert("".to_string());
    dict.insert("abc".to_string());
    assert_eq!(puzzle.search(&dict), Vec::<String>::new());
}
