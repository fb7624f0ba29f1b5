use boggle::puzzle::Puzzle;

#[test]
fn reads_the_rows_between_spaces() {
    let puzzle = Puzzle::from_str("abc def");
    assert_eq!(puzzle.row_size(), 2);
    assert_eq!(puzzle.col_size(), 3);
    assert_eq!(puzzle.letter(0, 0), 'a');
    assert_eq!(puzzle.letter(0, 2), 'c');
    assert_eq!(puzzle.letter(1, 0), 'd');
    assert_eq!(puzzle.letter(1, 1), 'e');
    assert_eq!(puzzle.letter(1, 2), 'f');
}

#[test]
fn reads_a_square_grid() {
    let puzzle = Puzzle::from_str("adut qsoa iism irta");
    assert_eq!(puzzle.row_size(), 4);
    assert_eq!(puzzle.col_size(), 4);
    let rows = ["adut", "qsoa", "iism", "irta"];
    for (r, row) in rows.iter().enumerate() {
        for (c, letter) in row.chars().enumerate() {
            assert_eq!(puzzle.letter(r, c), letter);
        }
    }
}

#[test]
fn a_string_without_a_space_is_one_row() {
    let puzzle = Puzzle::from_str("abcd");
    assert_eq!(puzzle.row_size(), 1);
    assert_eq!(puzzle.col_size(), 4);
    assert_eq!(puzzle.letter(0, 3), 'd');
}

#[test]
fn the_empty_string_is_one_empty_row() {
    let puzzle = Puzzle::from_str("");
    assert_eq!(puzzle.row_size(), 1);
    assert_eq!(puzzle.col_size(), 0);
    assert!(!puzzle.contains('a'));
}

#[test]
fn spaces_alone_are_empty_rows() {
    let puzzle = Puzzle::from_str("  ");
    assert_eq!(puzzle.row_size(), 3);
    assert_eq!(puzzle.col_size(), 0);
}

#[test]
fn contains_the_letters_of_the_grid_and_no_others() {
    let puzzle = Puzzle::from_str("abc def ghi");
    for letter in "abcdefghi".chars() {
        assert!(puzzle.contains(letter));
    }
    for letter in "jz AB09".chars() {
        assert!(!puzzle.contains(letter));
    }
}

#[test]
fn parse_takes_rows_of_one_length() {
    let puzzle = Puzzle::parse("ab cd ef").unwrap();
    assert_eq!(puzzle.row_size(), 3);
    assert_eq!(puzzle.col_size(), 2);
    assert_eq!(puzzle.letter(2, 1), 'f');
    assert!(Puzzle::parse("").is_some());
    assert!(Puzzle::parse("a").is_some());
    assert!(Puzzle::parse("a b c").is_some());
}

#[test]
fn parse_refuses_rows_of_different_lengths() {
    assert!(Puzzle::parse("ab c").is_none());
    assert!(Puzzle::parse("a bc").is_none());
    assert!(Puzzle::parse("abc def gh").is_none());
    // two spaces in a row enclose an empty row; a space at either end opens one
    assert!(Puzzle::parse("ab  cd").is_none());
    assert!(Puzzle::parse(" ab").is_none());
    assert!(Puzzle::parse("ab ").is_none());
}

#[test]
fn a_cell_holds_one_character_whatever_its_size_in_bytes() {
    let puzzle = Puzzle::parse("é\u{4e2d} ab").unwrap();
    assert_eq!(puzzle.row_size(), 2);
    assert_eq!(puzzle.col_size(), 2);
    assert_eq!(puzzle.letter(0, 0), 'é');
    assert_eq!(puzzle.letter(0, 1), '\u{4e2d}');
    assert!(puzzle.contains('é'));
    assert!(!puzzle.contains('e'));
    assert!(Puzzle::parse("é ab").is_none());
}
