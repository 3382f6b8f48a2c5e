use wordpiece_utils::vocabulary::{Vocabulary, VocabularyError};
use wordpieces::{WordPiecesBuilder, WordPiecesError};

fn entries(list: &[&str]) -> Vec<String> {
    list.iter().map(|entry| entry.to_string()).collect()
}

#[test]
fn build_accepts_an_empty_list() {
    let vocabulary = Vocabulary::build(&Vec::new()).unwrap();
    assert!(!vocabulary.contains("a"));
    assert!(!vocabulary.contains(""));
}

#[test]
fn build_rejects_an_empty_entry() {
    let result = Vocabulary::build(&entries(&["voor", "", "tie"]));
    assert_eq!(result.err(), Some(VocabularyError::MalformedVocabulary));
}

#[test]
fn build_rejects_an_empty_entry_at_either_end() {
    assert_eq!(
        Vocabulary::build(&entries(&["", "voor"])).err(),
        Some(VocabularyError::MalformedVocabulary)
    );
    assert_eq!(
        Vocabulary::build(&entries(&["voor", ""])).err(),
        Some(VocabularyError::MalformedVocabulary)
    );
}

#[test]
fn contains_is_exact() {
    let vocabulary = Vocabulary::build(&entries(&["voor", "coördina"])).unwrap();
    assert!(vocabulary.contains("voor"));
    assert!(vocabulary.contains("coördina"));
    assert!(!vocabulary.contains("Voor"));
    assert!(!vocabulary.contains("voo"));
    assert!(!vocabulary.contains("voor "));
    assert!(!vocabulary.contains("coordina"));
    assert!(!vocabulary.contains(""));
}

#[test]
fn entries_with_marker_are_stored_without_it() {
    let vocabulary = Vocabulary::build(&entries(&["un", "##able"])).unwrap();
    assert!(vocabulary.contains("un"));
    assert!(vocabulary.contains("able"));
    assert!(!vocabulary.contains("##able"));
    assert!(!vocabulary.contains("##un"));
}

#[test]
fn only_one_marker_is_taken_off() {
    let vocabulary = Vocabulary::build(&entries(&["####", "###"])).unwrap();
    assert!(vocabulary.contains("##"));
    assert!(vocabulary.contains("#"));
    assert!(!vocabulary.contains("####"));
    assert!(!vocabulary.contains("###"));
}

#[test]
fn a_single_hash_is_no_marker() {
    let vocabulary = Vocabulary::build(&entries(&["#a", "#"])).unwrap();
    assert!(vocabulary.contains("#a"));
    assert!(vocabulary.contains("#"));
    assert!(!vocabulary.contains("a"));
}

#[test]
fn repeated_entries_collapse() {
    let once = Vocabulary::build(&entries(&["a", "ab"])).unwrap();
    let twice = Vocabulary::build(&entries(&["ab", "a", "ab", "a", "##a"])).unwrap();
    for candidate in ["a", "ab", "b", "aba", ""] {
        assert_eq!(once.contains(candidate), twice.contains(candidate));
    }
}

#[test]
fn order_of_entries_does_not_matter() {
    let forward = Vocabulary::build(&entries(&["a", "b", "##c"])).unwrap();
    let backward = Vocabulary::build(&entries(&["##c", "b", "a"])).unwrap();
    for candidate in ["a", "b", "c", "##c", "d"] {
        assert_eq!(forward.contains(candidate), backward.contains(candidate));
    }
}

#[test]
fn from_index_wraps_a_built_index() {
    let mut builder = WordPiecesBuilder::new();
    builder.insert("voor", 0);
    builder.insert("##tie", 1);
    let vocabulary = Vocabulary::from_index(builder.build()).unwrap();
    assert!(vocabulary.contains("voor"));
    assert!(vocabulary.contains("tie"));
    assert!(!vocabulary.contains("##tie"));
}

#[test]
fn from_index_reports_a_rejected_index() {
    let failure = WordPiecesError::IOError(std::io::Error::new(
        std::io::ErrorKind::Other,
        "no index",
    ));
    let result = Vocabulary::from_index(Err(failure));
    assert_eq!(result.err(), Some(VocabularyError::IndexRejected));
}

#[test]
fn vocabulary_errors_have_messages() {
    assert_eq!(
        VocabularyError::MalformedVocabulary.message(),
        "malformed vocabulary: empty piece"
    );
    assert_eq!(VocabularyError::IndexRejected.message(), "the lookup index could not be built");
}

#[test]
fn entries_are_taken_as_written() {
    let vocabulary = Vocabulary::build(&entries(&[" a", "b ", "C"])).unwrap();
    assert!(vocabulary.contains(" a"));
    assert!(vocabulary.contains("b "));
    assert!(vocabulary.contains("C"));
    assert!(!vocabulary.contains("a"));
    assert!(!vocabulary.contains("b"));
    assert!(!vocabulary.contains("c"));
}

#[test]
fn every_list_without_an_empty_entry_is_built() {
    let lists: [&[&str]; 8] = [
        &[],
        &["##"],
        &["##", "##", "a"],
        &["b", "a", "b", "a"],
        &["zebra", "##zebra", "apple", "##apple"],
        &["é", "e", "##é", "\u{10FFFF}", "\u{0}"],
        &["ab", "a", "abc", "", "abcd"],
        &[" ", "\t", "a b"],
    ];
    for list in lists {
        let result = Vocabulary::build(&entries(list));
        if list.iter().any(|entry| entry.is_empty()) {
            assert_eq!(result.err(), Some(VocabularyError::MalformedVocabulary));
        } else {
            let vocabulary = result.ok().unwrap();
            for entry in list {
                let stored = entry.strip_prefix("##").unwrap_or(entry);
                assert!(vocabulary.contains(stored));
            }
        }
    }
}

#[test]
fn a_long_list_is_built() {
    let list: Vec<String> = (0..5000).rev().map(|i| format!("piece{}", i)).collect();
    let vocabulary = Vocabulary::build(&list).ok().unwrap();
    assert!(vocabulary.contains("piece0"));
    assert!(vocabulary.contains("piece4999"));
    assert!(!vocabulary.contains("piece5000"));
}
