use boggle::search::insert_sorted;
use boggle::text::lex_less;

fn strings(words: &[&str]) -> Vec<String> {
    words.iter().map(|w| w.to_string()).collect()
}

#[test]
fn lex_less_orders_by_the_first_difference() {
    assert!(lex_less("abc", "abd"));
    assert!(!lex_less("abd", "abc"));
    assert!(lex_less("abz", "b"));
    assert!(!lex_less("b", "abz"));
    assert!(lex_less("Zebra", "apple"));
}

#[test]
fn lex_less_puts_a_word_before_the_words_that_it_begins() {
    assert!(lex_less("cat", "cats"));
    assert!(!lex_less("cats", "cat"));
    assert!(lex_less("", "a"));
    assert!(!lex_less("a", ""));
}

#[test]
fn lex_less_is_false_of_equal_words() {
    assert!(!lex_less("", ""));
    assert!(!lex_less("cat", "cat"));
}

#[test]
fn lex_less_orders_as_strings_compare() {
    let words = ["", "a", "ab", "abc", "b", "ba", "B", "é", "éa", "z", "\u{4e2d}", "zz", "e", "f\u{e9}"];
    for a in words {
        for b in words {
            assert_eq!(lex_less(a, b), a < b);
        }
    }
}

#[test]
fn insert_sorted_keeps_the_order() {
    let mut list: Vec<String> = Vec::new();
    for word in ["dog", "cat", "eel", "ant", "cow", "bee"] {
        insert_sorted(&mut list, word.to_string());
    }
    assert_eq!(list, strings(&["ant", "bee", "cat", "cow", "dog", "eel"]));
}

#[test]
fn insert_sorted_takes_a_word_once() {
    let mut list = strings(&["ant", "cat"]);
    insert_sorted(&mut list, "cat".to_string());
    insert_sorted(&mut list, "ant".to_string());
    assert_eq!(list, strings(&["ant", "cat"]));
    insert_sorted(&mut list, "bat".to_string());
    insert_sorted(&mut list, "bat".to_string());
    assert_eq!(list, strings(&["ant", "bat", "cat"]));
}

#[test]
fn insert_sorted_reaches_both_ends() {
    let mut list = strings(&["m"]);
    insert_sorted(&mut list, "a".to_string());
    insert_sorted(&mut list, "z".to_string());
    insert_sorted(&mut list, "".to_string());
    assert_eq!(list, strings(&["", "a", "m", "z"]));
}
