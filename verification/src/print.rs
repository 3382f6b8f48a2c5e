//! Printing a corpus as word pieces: continuation markers, the token for
//! unknown words, and the line of a sentence.

use crate::piece::{PieceResult, PieceView};
use crate::segment::{fully_matched, segment};
use crate::shape::{lemma_segment_shape, shape_of, Shape};
use crate::vocabulary::Vocabulary;
use vstd::prelude::*;

verus! {

/// The marker that is put before every piece of a word but the first.
pub open spec fn continuation_marker() -> Seq<char> {
    seq!['#', '#']
}

/// The token that stands for a word that could not be segmented in full.
pub open spec fn unknown_token() -> Seq<char> {
    seq!['[', 'U', 'N', 'K', ']']
}

/// The text between the tokens of a line.
pub open spec fn token_separator() -> Seq<char> {
    seq![' ']
}

/// What is printed for item `i` of a segmentation: the text of a piece, with
/// the marker before it unless it is the first item, and nothing for the
/// sentinel.
pub open spec fn marked_text(pieces: Seq<PieceView>, i: int, marker: Seq<char>) -> Option<
    Seq<char>,
> {
    match pieces[i] {
        PieceView::Piece(text) => Some(
            if i == 0 {
                text
            } else {
                marker + text
            },
        ),
        PieceView::Missing => None,
    }
}

/// The items of a segmentation with continuation markers added.
pub open spec fn with_markers(pieces: Seq<PieceView>, marker: Seq<char>) -> Seq<
    Option<Seq<char>>,
> {
    Seq::new(pieces.len(), |i: int| marked_text(pieces, i, marker))
}

/// The tokens printed for one word: its marked pieces where every item is a
/// piece, else the token for an unknown word alone.
pub open spec fn word_tokens(pieces: Seq<PieceView>, marker: Seq<char>, unknown: Seq<char>) -> Seq<
    Seq<char>,
> {
    if fully_matched(pieces) {
        Seq::new(pieces.len(), |i: int| marked_text(pieces, i, marker).unwrap())
    } else {
        seq![unknown]
    }
}

/// The tokens printed for the words of a sentence, in their order.
pub open spec fn sentence_tokens(
    vocabulary: Set<Seq<char>>,
    forms: Seq<Seq<char>>,
    marker: Seq<char>,
    unknown: Seq<char>,
) -> Seq<Seq<char>>
    decreases forms.len(),
{
    if forms.len() == 0 {
        Seq::empty()
    } else {
        sentence_tokens(vocabulary, forms.drop_last(), marker, unknown) + word_tokens(
            segment(vocabulary, forms.last()),
            marker,
            unknown,
        )
    }
}

/// The tokens in one text, with the separator between neighbours.
pub open spec fn joined(tokens: Seq<Seq<char>>, separator: Seq<char>) -> Seq<char>
    decreases tokens.len(),
{
    if tokens.len() == 0 {
        Seq::empty()
    } else if tokens.len() == 1 {
        tokens[0]
    } else {
        joined(tokens.drop_last(), separator) + separator + tokens.last()
    }
}

/// Marks one item of a segmentation; `initial` says whether it is the first.
pub fn mark_piece(piece: &PieceResult, initial: bool, marker: &str) -> (marked: Option<String>)
    ensures
        marked.deep_view() == match piece@ {
            PieceView::Piece(text) => Some(
                if initial {
                    text
                } else {
                    marker@ + text
                },
            ),
            PieceView::Missing => None,
        },
{
    match piece {
        PieceResult::Piece(text) => {
            if initial {
                Some(text.clone())
            } else {
                Some(String::from_str(marker).concat(text.as_str()))
            }
        },
        PieceResult::Missing => None,
    }
}

/// Adds the continuation marker to every piece of a word except the first.
pub fn add_continuation_markers(pieces: &Vec<PieceResult>, marker: &str) -> (marked: Vec<
    Option<String>,
>)
    ensures
        marked.deep_view() == with_markers(pieces.deep_view(), marker@),
{
    let mut marked: Vec<Option<String>> = Vec::new();
    let mut i: usize = 0;
    while i < pieces.len()
        invariant
            i <= pieces.len(),
            marked.deep_view() == with_markers(pieces.deep_view(), marker@).take(i as int),
        decreases pieces.len() - i,
    {
        let item = mark_piece(&pieces[i], i == 0, marker);
        let ghost before = marked.deep_view();
        marked.push(item);
        assert(marked.deep_view() =~= before.push(item.deep_view()));
        assert(pieces.deep_view()[i as int] == pieces[i as int]@);
        assert(marked.deep_view() =~= with_markers(pieces.deep_view(), marker@).take(i + 1));
        i += 1;
    }
    assert(marked.deep_view() =~= with_markers(pieces.deep_view(), marker@));
    marked
}

/// The tokens of one word: its marked pieces, or `unknown` alone where some
/// item of the segmentation is the sentinel.
pub fn render_word(pieces: &Vec<PieceResult>, marker: &str, unknown: &str) -> (tokens: Vec<String>)
    ensures
        tokens.deep_view() == word_tokens(pieces.deep_view(), marker@, unknown@),
{
    let marked = add_continuation_markers(pieces, marker);
    let ghost items = pieces.deep_view();
    let mut tokens: Vec<String> = Vec::new();
    let mut i: usize = 0;
    assert(marked.deep_view().len() == marked.len());
    assert(items.take(0).len() == 0);
    while i < marked.len()
        invariant
            i <= marked.len() == items.len(),
            items == pieces.deep_view(),
            marked.deep_view() == with_markers(items, marker@),
            fully_matched(items.take(i as int)),
            tokens.deep_view() == word_tokens(items.take(i as int), marker@, unknown@),
        decreases marked.len() - i,
    {
        assert(marked.deep_view()[i as int] == marked[i as int].deep_view());
        match &marked[i] {
            Some(token) => {
                let ghost before = tokens.deep_view();
                tokens.push(token.clone());
                assert(tokens.deep_view() =~= before.push(token@));
                assert(items.take(i + 1) =~= items.take(i as int).push(items[i as int]));
                assert(fully_matched(items.take(i + 1)));
                assert(tokens.deep_view() =~= word_tokens(items.take(i + 1), marker@, unknown@));
            },
            None => {
                assert(items[i as int] is Missing);
                assert(!fully_matched(items));
                let mut replaced: Vec<String> = Vec::new();
                replaced.push(String::from_str(unknown));
                assert(replaced.deep_view() =~= seq![unknown@]);
                return replaced;
            },
        }
        i += 1;
    }
    assert(items.take(i as int) =~= items);
    tokens
}

/// A word form whose segmentation is fully unknown or has an unknown
/// suffix is printed as the unknown token alone, whatever pieces were
/// matched; any other is printed piece by piece, the first piece as it is
/// and every later one behind the marker.
pub proof fn lemma_unknown_words_are_replaced(
    vocabulary: Set<Seq<char>>,
    form: Seq<char>,
    marker: Seq<char>,
    unknown: Seq<char>,
)
    ensures
        ({
            let pieces = segment(vocabulary, form);
            let tokens = word_tokens(pieces, marker, unknown);
            match shape_of(pieces) {
                Shape::FullyUnknown | Shape::SuffixUnknown => tokens == seq![unknown],
                Shape::FullyKnown | Shape::Empty => {
                    &&& tokens.len() == pieces.len()
                    &&& forall|i: int|
                        0 <= i < pieces.len() ==> (#[trigger] pieces[i] matches PieceView::Piece(
                            text,
                        ) && tokens[i] == if i == 0 {
                            text
                        } else {
                            marker + text
                        })
                },
            }
        }),
{
    let pieces = segment(vocabulary, form);
    lemma_segment_shape(vocabulary, form);
    match shape_of(pieces) {
        Shape::FullyUnknown => {
            assert(pieces[0] is Missing);
        },
        Shape::SuffixUnknown => {
            assert(pieces[pieces.len() - 1] is Missing);
        },
        Shape::FullyKnown => {},
        Shape::Empty => {},
    }
}

/// Joins tokens into one line, with the separator between neighbours.
pub fn join_tokens(tokens: &Vec<String>, separator: &str) -> (line: String)
    ensures
        line@ == joined(tokens.deep_view(), separator@),
{
    let ghost texts = tokens.deep_view();
    let mut line = String::new();
    let mut i: usize = 0;
    while i < tokens.len()
        invariant
            i <= tokens.len(),
            texts == tokens.deep_view(),
            line@ == joined(texts.take(i as int), separator@),
        decreases tokens.len() - i,
    {
        assert(texts.take(i + 1).drop_last() =~= texts.take(i as int));
        assert(texts.take(i + 1).last() == tokens[i as int]@);
        if i > 0 {
            line.append(separator);
        }
        line.append(tokens[i].as_str());
        assert(line@ =~= joined(texts.take(i + 1), separator@));
        i += 1;
    }
    assert(texts.take(i as int) =~= texts);
    line
}

/// The subcommand that prints a corpus as word pieces, one line per
/// sentence.
pub struct PrintApp {
    wordpieces: String,
    corpus: String,
}

impl PrintApp {
    /// The subcommand for a vocabulary file and a corpus file.
    pub fn parse(wordpieces: &str, corpus: &str) -> (app: PrintApp)
        ensures
            app.wordpieces_path() == wordpieces@,
            app.corpus_path() == corpus@,
    {
        PrintApp { wordpieces: String::from_str(wordpieces), corpus: String::from_str(corpus) }
    }

    /// The path of the vocabulary file, as a text.
    pub closed spec fn wordpieces_path(&self) -> Seq<char> {
        self.wordpieces@
    }

    /// The path of the corpus file, as a text.
    pub closed spec fn corpus_path(&self) -> Seq<char> {
        self.corpus@
    }

    /// The path of the vocabulary file.
    pub fn wordpieces(&self) -> (path: &str)
        ensures
            path@ == self.wordpieces_path(),
    {
        self.wordpieces.as_str()
    }

    /// The path of the corpus file.
    pub fn corpus(&self) -> (path: &str)
        ensures
            path@ == self.corpus_path(),
    {
        self.corpus.as_str()
    }

    /// The line printed for one sentence: the tokens of its words, in
    /// their order, with one space between neighbours.
    pub fn render_sentence(&self, vocabulary: &Vocabulary, forms: &Vec<String>) -> (line: String)
        ensures
            line@ == joined(
                sentence_tokens(
                    vocabulary@,
                    forms.deep_view(),
                    continuation_marker(),
                    unknown_token(),
                ),
                token_separator(),
            ),
    {
        proof {
            reveal_strlit("##");
            reveal_strlit("[UNK]");
            reveal_strlit(" ");
            assert("##"@ =~= continuation_marker());
            assert("[UNK]"@ =~= unknown_token());
            assert(" "@ =~= token_separator());
        }
        let ghost texts = forms.deep_view();
        let mut tokens: Vec<String> = Vec::new();
        let mut i: usize = 0;
        while i < forms.len()
            invariant
                i <= forms.len(),
                texts == forms.deep_view(),
                "##"@ == continuation_marker(),
                "[UNK]"@ == unknown_token(),
                tokens.deep_view() == sentence_tokens(
                    vocabulary@,
                    texts.take(i as int),
                    continuation_marker(),
                    unknown_token(),
                ),
            decreases forms.len() - i,
        {
            let pieces = vocabulary.split(forms[i].as_str());
            let mut word = render_word(&pieces, "##", "[UNK]");
            let ghost before = tokens.deep_view();
            let ghost added = word.deep_view();
            tokens.append(&mut word);
            proof {
                assert(tokens.deep_view() =~= before + added);
                assert(texts.take(i + 1).drop_last() =~= texts.take(i as int));
                assert(texts.take(i + 1).last() == forms[i as int]@);
            }
            i += 1;
        }
        assert(texts.take(i as int) =~= texts);
        join_tokens(&tokens, " ")
    }
}

} // verus!
