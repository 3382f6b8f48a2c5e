use wordpiece_utils::piece::PieceResult;
use wordpiece_utils::print::{
    add_continuation_markers, join_tokens, mark_piece, render_word, PrintApp,
};
use wordpiece_utils::vocabulary::Vocabulary;

fn print_vocabulary(list: &[&str]) -> Vocabulary {
    let entries: Vec<String> = list.iter().map(|entry| entry.to_string()).collect();
    Vocabulary::build(&entries).unwrap()
}

fn found(text: &str) -> PieceResult {
    PieceResult::Piece(text.to_string())
}

fn words(list: &[&str]) -> Vec<String> {
    list.iter().map(|word| word.to_string()).collect()
}

#[test]
fn first_piece_gets_no_marker() {
    assert_eq!(mark_piece(&found("un"), true, "##"), Some("un".to_string()));
}

#[test]
fn later_piece_gets_the_marker() {
    assert_eq!(mark_piece(&found("able"), false, "##"), Some("##able".to_string()));
    assert_eq!(mark_piece(&found("able"), false, "@@"), Some("@@able".to_string()));
    assert_eq!(mark_piece(&found("able"), false, ""), Some("able".to_string()));
}

#[test]
fn sentinel_is_marked_as_nothing() {
    assert_eq!(mark_piece(&PieceResult::Missing, true, "##"), None);
    assert_eq!(mark_piece(&PieceResult::Missing, false, "##"), None);
}

#[test]
fn markers_go_before_all_pieces_but_the_first() {
    let pieces = vec![found("voor"), found("kom"), found("en")];
    assert_eq!(
        add_continuation_markers(&pieces, "##"),
        vec![Some("voor".to_string()), Some("##kom".to_string()), Some("##en".to_string())]
    );
}

#[test]
fn markers_keep_the_place_of_the_sentinel() {
    let pieces = vec![found("voor"), PieceResult::Missing];
    assert_eq!(add_continuation_markers(&pieces, "##"), vec![Some("voor".to_string()), None]);
    assert_eq!(add_continuation_markers(&Vec::new(), "##"), Vec::new());
}

#[test]
fn known_word_is_rendered_as_its_pieces() {
    let pieces = vec![found("un"), found("able")];
    assert_eq!(render_word(&pieces, "##", "[UNK]"), words(&["un", "##able"]));
    assert_eq!(render_word(&vec![found("un")], "##", "[UNK]"), words(&["un"]));
}

#[test]
fn word_with_unknown_suffix_is_replaced() {
    let pieces = vec![found("un"), PieceResult::Missing];
    assert_eq!(render_word(&pieces, "##", "[UNK]"), words(&["[UNK]"]));
}

#[test]
fn fully_unknown_word_is_replaced() {
    assert_eq!(render_word(&vec![PieceResult::Missing], "##", "[UNK]"), words(&["[UNK]"]));
    assert_eq!(render_word(&vec![PieceResult::Missing], "##", "?"), words(&["?"]));
}

#[test]
fn empty_segmentation_renders_no_token() {
    assert_eq!(render_word(&Vec::new(), "##", "[UNK]"), Vec::<String>::new());
}

#[test]
fn tokens_are_joined_with_the_separator() {
    assert_eq!(join_tokens(&words(&["un", "##able", "[UNK]"]), " "), "un ##able [UNK]");
    assert_eq!(join_tokens(&words(&["a", "b"]), ", "), "a, b");
    assert_eq!(join_tokens(&words(&["a"]), " "), "a");
    assert_eq!(join_tokens(&Vec::new(), " "), "");
    assert_eq!(join_tokens(&words(&["", ""]), "-"), "-");
}

#[test]
fn sentence_is_rendered_word_by_word() {
    let app = PrintApp::parse("pieces.txt", "corpus.conll");
    let vocabulary = print_vocabulary(&["un", "##able", "work", "##s"]);
    let line = app.render_sentence(&vocabulary, &words(&["unable", "works", "dog", "unworkable"]));
    assert_eq!(line, "un ##able work ##s [UNK] un ##work ##able");
    let line = app.render_sentence(&vocabulary, &words(&["work", "unxable", "s"]));
    assert_eq!(line, "work [UNK] s");
}

#[test]
fn suffix_unknown_word_prints_the_placeholder() {
    let app = PrintApp::parse("pieces.txt", "corpus.conll");
    let vocabulary = print_vocabulary(&["un", "##able"]);
    assert_eq!(app.render_sentence(&vocabulary, &words(&["unworkable"])), "[UNK]");
}

#[test]
fn empty_sentence_is_an_empty_line() {
    let app = PrintApp::parse("pieces.txt", "corpus.conll");
    let vocabulary = print_vocabulary(&["un"]);
    assert_eq!(app.render_sentence(&vocabulary, &Vec::new()), "");
}

#[test]
fn empty_form_adds_no_token_to_the_line() {
    let app = PrintApp::parse("pieces.txt", "corpus.conll");
    let vocabulary = print_vocabulary(&["un", "##able"]);
    assert_eq!(app.render_sentence(&vocabulary, &words(&["un", "", "unable"])), "un un ##able");
}

#[test]
fn print_app_keeps_its_paths() {
    let app = PrintApp::parse("pieces.txt", "corpus.conll");
    assert_eq!(app.wordpieces(), "pieces.txt");
    assert_eq!(app.corpus(), "corpus.conll");
}
