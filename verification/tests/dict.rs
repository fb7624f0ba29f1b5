use boggle::dict::{Dict, DictBuilder, MIN_WORD_LEN};
use boggle::puzzle::Puzzle;

fn strings(words: &[&str]) -> Vec<String> {
    words.iter().map(|w| w.to_string()).collect()
}

#[test]
fn a_new_dictionary_is_empty() {
    let dict = Dict::new();
    assert!(!dict.contains(&"cat".to_string()));
    assert!(!dict.is_prefix(&"c".to_string()));
    assert!(!dict.contains(&"".to_string()));
    assert!(!dict.is_prefix(&"".to_string()));
}

#[test]
fn insert_adds_the_word_and_its_prefixes() {
    let mut dict = Dict::new();
    dict.insert("cats".to_string());
    assert!(dict.contains(&"cats".to_string()));
    assert!(!dict.contains(&"cat".to_string()));
    assert!(!dict.contains(&"c".to_string()));
    for prefix in ["c", "ca", "cat", "cats"] {
        assert!(dict.is_prefix(&prefix.to_string()));
    }
    for other in ["", "a", "at", "ats", "catsx", "cab", "C"] {
        assert!(!dict.is_prefix(&other.to_string()));
    }
}

#[test]
fn insert_goes_on_after_words_that_share_a_beginning() {
    let mut dict = Dict::new();
    dict.insert("cat".to_string());
    dict.insert("car".to_string());
    dict.insert("cattle".to_string());
    dict.insert("ca".to_string());
    dict.insert("dog".to_string());
    for word in ["cat", "car", "cattle", "ca", "dog"] {
        assert!(dict.contains(&word.to_string()));
    }
    for prefix in ["c", "ca", "cat", "car", "catt", "cattl", "cattle", "d", "do", "dog"] {
        assert!(dict.is_prefix(&prefix.to_string()));
    }
    for other in ["", "cattles", "cas", "o", "og", "dot", "catl"] {
        assert!(!dict.is_prefix(&other.to_string()));
    }
    for other in ["c", "catt", "do", "d"] {
        assert!(!dict.contains(&other.to_string()));
    }
}

#[test]
fn a_word_inserted_twice_is_one_word() {
    let mut dict = Dict::new();
    dict.insert("cat".to_string());
    dict.insert("cat".to_string());
    assert!(dict.contains(&"cat".to_string()));
    assert!(dict.is_prefix(&"ca".to_string()));
    assert!(!dict.is_prefix(&"cata".to_string()));
}

#[test]
fn the_empty_word_is_a_word_and_no_prefix() {
    let mut dict = Dict::new();
    dict.insert("".to_string());
    assert!(dict.contains(&"".to_string()));
    assert!(!dict.is_prefix(&"".to_string()));
    dict.insert("ab".to_string());
    assert!(dict.contains(&"".to_string()));
    assert!(!dict.is_prefix(&"".to_string()));
    assert!(dict.is_prefix(&"a".to_string()));
    assert!(dict.is_prefix(&"ab".to_string()));
    dict.insert("".to_string());
    assert!(!dict.is_prefix(&"".to_string()));
}

#[test]
fn every_prefix_of_every_word_is_a_prefix_and_nothing_else_is() {
    let words = ["cat", "cats", "dog", "do", "abcde"];
    let mut dict = Dict::new();
    for word in words {
        dict.insert(word.to_string());
    }
    let probes = [
        "", "a", "ab", "abc", "abcd", "abcde", "abcdef", "b", "bc", "c", "ca", "cat", "cats", "catss",
        "d", "do", "dog", "dogs", "g", "og", "s", "ts", "e",
    ];
    for probe in probes {
        let begins_a_word = !probe.is_empty() && words.iter().any(|w| w.starts_with(probe));
        assert_eq!(dict.is_prefix(&probe.to_string()), begins_a_word);
        assert_eq!(dict.contains(&probe.to_string()), words.contains(&probe));
    }
}

#[test]
fn the_least_length_of_a_word_is_three() {
    assert_eq!(MIN_WORD_LEN, 3);
}

#[test]
fn accepts_long_enough_words_made_of_letters_of_the_grid() {
    let puzzle = Puzzle::from_str("abc def ghi");
    assert!(DictBuilder::accepts("bad", &puzzle));
    assert!(DictBuilder::accepts("aaa", &puzzle));
    assert!(DictBuilder::accepts("abcdefghi", &puzzle));
    assert!(DictBuilder::accepts("ihgfedcbaabc", &puzzle));
    assert!(!DictBuilder::accepts("ba", &puzzle));
    assert!(!DictBuilder::accepts("", &puzzle));
    assert!(!DictBuilder::accepts("baz", &puzzle));
    assert!(!DictBuilder::accepts("zab", &puzzle));
    assert!(!DictBuilder::accepts("bza", &puzzle));
    assert!(!DictBuilder::accepts("BAD", &puzzle));
    assert!(!DictBuilder::accepts("ba d", &puzzle));
}

#[test]
fn accepts_counts_letters_and_not_bytes() {
    let puzzle = Puzzle::from_str("éa");
    // two letters in three bytes
    assert!(!DictBuilder::accepts("éa", &puzzle));
    assert!(DictBuilder::accepts("éaé", &puzzle));
}

#[test]
fn filter_keeps_the_playable_candidates_in_lowercase() {
    let puzzle = Puzzle::from_str("abc def ghi");
    let words = strings(&["Bad", "FED", "be", "zebra", "bad", "heads", "", "a b", "abc"]);
    let dict = DictBuilder::new(words).filter(&puzzle);
    for word in ["bad", "fed", "abc"] {
        assert!(dict.contains(&word.to_string()));
    }
    for word in ["Bad", "FED", "be", "zebra", "heads", "", "a b", "ab"] {
        assert!(!dict.contains(&word.to_string()));
    }
    for prefix in ["b", "ba", "bad", "f", "fe", "fed", "a", "ab", "abc"] {
        assert!(dict.is_prefix(&prefix.to_string()));
    }
    for other in ["", "z", "ze", "h", "he", "be", "B", "F"] {
        assert!(!dict.is_prefix(&other.to_string()));
    }
}

#[test]
fn filter_lowers_ascii_letters_only() {
    let puzzle = Puzzle::from_str("éab");
    let dict = DictBuilder::new(strings(&["ÉAB", "éAB", "ABÉ"])).filter(&puzzle);
    assert!(dict.contains(&"éab".to_string()));
    assert!(!dict.contains(&"abé".to_string()));
    assert!(!dict.contains(&"Éab".to_string()));
    assert!(!dict.is_prefix(&"É".to_string()));
}

#[test]
fn filter_of_no_candidates_is_the_empty_dictionary() {
    let puzzle = Puzzle::from_str("abc def ghi");
    let dict = DictBuilder::new(Vec::new()).filter(&puzzle);
    assert!(!dict.contains(&"abc".to_string()));
    assert!(!dict.is_prefix(&"a".to_string()));
}
