use wordpiece_utils::piece::PieceResult;
use wordpiece_utils::stats::{PieceStats, Ratio, StatsApp, StatsError};
use wordpiece_utils::vocabulary::Vocabulary;

fn stats_vocabulary(list: &[&str]) -> Vocabulary {
    let entries: Vec<String> = list.iter().map(|entry| entry.to_string()).collect();
    Vocabulary::build(&entries).unwrap()
}

fn known(n: usize) -> Vec<PieceResult> {
    (0..n).map(|_| PieceResult::Piece("a".to_string())).collect()
}

fn stats_of_counts(counts: &[usize]) -> PieceStats {
    let mut stats = PieceStats::new();
    for &count in counts {
        stats.record(&known(count));
    }
    stats
}

#[test]
fn median_of_even_number_is_the_lower_middle() {
    assert_eq!(stats_of_counts(&[1, 2, 2, 3]).median_length(), Ok(2));
    assert_eq!(stats_of_counts(&[1, 2, 3, 4]).median_length(), Ok(2));
    assert_eq!(stats_of_counts(&[5, 7]).median_length(), Ok(5));
}

#[test]
fn median_of_odd_number_is_the_middle() {
    assert_eq!(stats_of_counts(&[1, 2, 3]).median_length(), Ok(2));
    assert_eq!(stats_of_counts(&[4]).median_length(), Ok(4));
}

#[test]
fn median_does_not_depend_on_the_order() {
    assert_eq!(stats_of_counts(&[3, 1, 2]).median_length(), Ok(2));
    assert_eq!(stats_of_counts(&[3, 2, 2, 1]).median_length(), Ok(2));
    assert_eq!(stats_of_counts(&[9, 1, 8, 2, 7]).median_length(), Ok(7));
}

#[test]
fn median_leaves_the_counters_alone() {
    let stats = stats_of_counts(&[3, 1, 2]);
    assert_eq!(stats.median_length(), Ok(2));
    assert_eq!(stats.median_length(), Ok(2));
    assert_eq!(stats.average_length(), Ok(Ratio { numerator: 6, denominator: 3 }));
}

#[test]
fn average_is_the_sum_over_the_number() {
    assert_eq!(
        stats_of_counts(&[1, 2, 2, 3]).average_length(),
        Ok(Ratio { numerator: 8, denominator: 4 })
    );
    assert_eq!(
        stats_of_counts(&[1, 2]).average_length(),
        Ok(Ratio { numerator: 3, denominator: 2 })
    );
}

#[test]
fn new_counters_have_no_data() {
    let stats = PieceStats::new();
    assert_eq!(stats.tokens(), 0);
    assert_eq!(stats.unknowns(), 0);
    assert_eq!(stats.suffix_unknowns(), 0);
    assert_eq!(stats.unknown_rate(), Err(StatsError::NoData));
    assert_eq!(stats.suffix_unknown_rate(), Err(StatsError::NoData));
    assert_eq!(stats.average_length(), Err(StatsError::NoData));
    assert_eq!(stats.median_length(), Err(StatsError::NoData));
}

#[test]
fn lengths_have_no_data_without_a_known_word() {
    let mut stats = PieceStats::new();
    stats.record(&vec![PieceResult::Missing]);
    stats.record(&vec![PieceResult::Piece("un".to_string()), PieceResult::Missing]);
    assert_eq!(stats.average_length(), Err(StatsError::NoData));
    assert_eq!(stats.median_length(), Err(StatsError::NoData));
    assert_eq!(stats.unknown_rate(), Ok(Ratio { numerator: 1, denominator: 2 }));
    assert_eq!(stats.suffix_unknown_rate(), Ok(Ratio { numerator: 1, denominator: 2 }));
}

#[test]
fn each_shape_is_counted_in_its_class() {
    let mut stats = PieceStats::new();
    stats.record(&vec![PieceResult::Missing]);
    assert_eq!((stats.tokens(), stats.unknowns(), stats.suffix_unknowns()), (1, 1, 0));
    stats.record(&vec![PieceResult::Piece("un".to_string()), PieceResult::Missing]);
    assert_eq!((stats.tokens(), stats.unknowns(), stats.suffix_unknowns()), (2, 1, 1));
    stats.record(&known(3));
    assert_eq!((stats.tokens(), stats.unknowns(), stats.suffix_unknowns()), (3, 1, 1));
    assert_eq!(stats.average_length(), Ok(Ratio { numerator: 3, denominator: 1 }));
    stats.record(&Vec::new());
    assert_eq!((stats.tokens(), stats.unknowns(), stats.suffix_unknowns()), (4, 1, 1));
    assert_eq!(stats.average_length(), Ok(Ratio { numerator: 3, denominator: 1 }));
    assert_eq!(stats.unknown_rate(), Ok(Ratio { numerator: 1, denominator: 4 }));
}

#[test]
fn suffix_unknown_word_is_counted_as_such() {
    let app = StatsApp::parse("pieces.txt", "corpus.conll");
    let vocabulary = stats_vocabulary(&["un", "##able"]);
    let mut stats = PieceStats::new();
    app.record_sentence(&mut stats, &vocabulary, &vec!["unworkable".to_string()]);
    assert_eq!(stats.suffix_unknowns(), 1);
    assert_eq!(stats.unknowns(), 0);
    assert_eq!(stats.tokens(), 1);
    assert_eq!(stats.suffix_unknown_rate(), Ok(Ratio { numerator: 1, denominator: 1 }));
}

#[test]
fn sentences_are_counted_word_by_word() {
    let app = StatsApp::parse("pieces.txt", "corpus.conll");
    let vocabulary = stats_vocabulary(&["un", "##able", "work", "##s", "a"]);
    let mut stats = PieceStats::new();
    let first: Vec<String> =
        ["unable", "works", "dog"].iter().map(|form| form.to_string()).collect();
    let second: Vec<String> =
        ["unworkable", "a", "unworks"].iter().map(|form| form.to_string()).collect();
    app.record_sentence(&mut stats, &vocabulary, &first);
    app.record_sentence(&mut stats, &vocabulary, &second);
    app.record_sentence(&mut stats, &vocabulary, &Vec::new());
    assert_eq!(stats.tokens(), 6);
    assert_eq!(stats.unknowns(), 1);
    assert_eq!(stats.suffix_unknowns(), 0);
    // unable: 2, works: 2, unworkable: 3, a: 1, unworks: 3
    assert_eq!(stats.average_length(), Ok(Ratio { numerator: 11, denominator: 5 }));
    assert_eq!(stats.median_length(), Ok(2));
    assert_eq!(stats.unknown_rate(), Ok(Ratio { numerator: 1, denominator: 6 }));
    assert_eq!(stats.suffix_unknown_rate(), Ok(Ratio { numerator: 0, denominator: 6 }));
}

#[test]
fn stats_app_keeps_its_paths() {
    let app = StatsApp::parse("pieces.txt", "corpus.conll");
    assert_eq!(app.wordpieces(), "pieces.txt");
    assert_eq!(app.corpus(), "corpus.conll");
}

#[test]
fn no_data_has_a_message() {
    assert_eq!(StatsError::NoData.message(), "no data");
}
