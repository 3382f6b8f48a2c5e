//! The vocabulary: a closed set of piece texts, kept in a lookup index of
//! the `wordpieces` crate. What is taken on trust of that crate is stated
//! at the head of this module; the rest is proved from it.

use vstd::prelude::*;
use wordpieces::{WordPieces, WordPiecesBuilder, WordPiecesError};

verus! {

/// `wordpieces::WordPieces`, the finished lookup index: two sets of pieces,
/// the word-initial ones and the continuation ones. Nothing inside it is
/// visible here; [`initial_pieces`] and [`continuation_pieces`] name what it
/// holds.
#[verifier::external_type_specification]
#[verifier::external_body]
pub struct ExWordPieces(wordpieces::WordPieces);

/// `wordpieces::WordPiecesBuilder`, which collects the pieces of an index.
/// [`pending_initial`] and [`pending_continuation`] name what it holds.
#[verifier::external_type_specification]
#[verifier::external_body]
pub struct ExWordPiecesBuilder(wordpieces::WordPiecesBuilder);

/// `wordpieces::WordPiecesError`, the error of building an index. It is
/// only passed on, never looked into.
#[verifier::external_type_specification]
#[verifier::external_body]
pub struct ExWordPiecesError(wordpieces::WordPiecesError);

/// The word-initial pieces that a finished index holds.
pub uninterp spec fn initial_pieces(index: WordPieces) -> Set<Seq<char>>;

/// The continuation pieces that a finished index holds, each without its marker.
pub uninterp spec fn continuation_pieces(index: WordPieces) -> Set<Seq<char>>;

/// The word-initial pieces inserted into a builder so far.
pub uninterp spec fn pending_initial(builder: WordPiecesBuilder) -> Set<Seq<char>>;

/// The continuation pieces inserted into a builder so far, each without its marker.
pub uninterp spec fn pending_continuation(builder: WordPiecesBuilder) -> Set<Seq<char>>;

/// Whether a vocabulary entry starts with the continuation marker `##`.
pub open spec fn has_marker(entry: Seq<char>) -> bool {
    entry.len() >= 2 && entry[0] == '#' && entry[1] == '#'
}

/// The text under which a vocabulary entry is stored: the entry without a
/// leading continuation marker.
pub open spec fn stored_text(entry: Seq<char>) -> Seq<char> {
    if has_marker(entry) {
        entry.skip(2)
    } else {
        entry
    }
}

/// `WordPiecesBuilder::new`: a fresh builder holds no piece of either kind.
pub assume_specification[ WordPiecesBuilder::new ]() -> (builder: WordPiecesBuilder)
    ensures
        pending_initial(builder) == Set::<Seq<char>>::empty(),
        pending_continuation(builder) == Set::<Seq<char>>::empty(),
;

/// `WordPiecesBuilder::insert`: an entry that starts with `##` is added to the
/// continuation pieces without that marker, any other entry is added to the
/// word-initial pieces as it is; the other kind is left alone. Nothing is
/// claimed about the index number.
pub assume_specification[ WordPiecesBuilder::insert ](
    builder: &mut WordPiecesBuilder,
    piece: &str,
    idx: u64,
)
    ensures
        pending_initial(*final(builder)) == if has_marker(piece@) {
            pending_initial(*old(builder))
        } else {
            pending_initial(*old(builder)).insert(piece@)
        },
        pending_continuation(*final(builder)) == if has_marker(piece@) {
            pending_continuation(*old(builder)).insert(piece@.skip(2))
        } else {
            pending_continuation(*old(builder))
        },
;

/// `WordPiecesBuilder::build`: it succeeds, and the index holds exactly the
/// pieces that were inserted.
///
/// Success is claimed on these grounds. The builder hands the keys of each of
/// its two `BTreeMap`s, which come in strictly ascending byte order, to an
/// in-memory `fst` builder. That builder fails only on a repeated or
/// descending key and on a failed write, and it writes to a `Vec`. The bytes
/// it leaves are then read back by `fst::Map::new`, which fails only on bytes
/// of another version or size; `fst` itself unwraps this very sequence in
/// `Builder::into_fst`.
pub assume_specification[ WordPiecesBuilder::build ](builder: WordPiecesBuilder) -> (outcome:
    Result<WordPieces, WordPiecesError>)
    ensures
        outcome is Ok,
        outcome matches Ok(index) ==> initial_pieces(index) == pending_initial(builder)
            && continuation_pieces(index) == pending_continuation(builder),
;

/// `WordPieces::get_initial`: a number is returned exactly for the texts
/// among the word-initial pieces.
pub assume_specification[ WordPieces::get_initial ](index: &WordPieces, piece: &str) -> (idx:
    Option<u64>)
    ensures
        idx is Some <==> initial_pieces(*index).contains(piece@),
;

/// `WordPieces::get_continuation`: a number is returned exactly for the texts
/// among the continuation pieces.
pub assume_specification[ WordPieces::get_continuation ](index: &WordPieces, piece: &str) -> (idx:
    Option<u64>)
    ensures
        idx is Some <==> continuation_pieces(*index).contains(piece@),
;

/// Why a vocabulary could not be constructed.
#[derive(Clone, Copy, Debug, PartialEq, Eq)]
pub enum VocabularyError {
    /// The list of pieces holds an empty string.
    MalformedVocabulary,
    /// A lookup index was handed over that could not be built.
    IndexRejected,
}

impl VocabularyError {
    /// What the error says, in words.
    pub open spec fn description(self) -> Seq<char> {
        match self {
            VocabularyError::MalformedVocabulary => "malformed vocabulary: empty piece"@,
            VocabularyError::IndexRejected => "the lookup index could not be built"@,
        }
    }

    /// The error as a message for a reader.
    pub fn message(&self) -> (text: String)
        ensures
            text@ == self.description(),
    {
        match self {
            VocabularyError::MalformedVocabulary => String::from_str(
                "malformed vocabulary: empty piece",
            ),
            VocabularyError::IndexRejected => String::from_str(
                "the lookup index could not be built",
            ),
        }
    }
}

/// A closed set of piece texts with an exact membership test.
///
/// The texts are kept in a `wordpieces::WordPieces` index. The index keeps
/// word-initial and continuation pieces apart; the vocabulary is both kinds
/// together, so a piece is known at every position of a word form.
pub struct Vocabulary {
    index: WordPieces,
}

/// Whether some entry of the list is the empty string.
pub open spec fn has_empty_entry(entries: Seq<Seq<char>>) -> bool {
    exists|i: int| 0 <= i < entries.len() && #[trigger] entries[i].len() == 0
}

/// The piece texts that a list of entries stands for.
pub open spec fn stored_pieces(entries: Seq<Seq<char>>) -> Set<Seq<char>> {
    entries.map_values(|entry: Seq<char>| stored_text(entry)).to_set()
}

/// Appending an entry adds its stored text to the pieces, and an empty
/// entry only if the appended one is empty.
proof fn lemma_stored_pieces_push(entries: Seq<Seq<char>>, entry: Seq<char>)
    ensures
        stored_pieces(entries.push(entry)) == stored_pieces(entries).insert(stored_text(entry)),
        has_empty_entry(entries.push(entry)) <==> has_empty_entry(entries) || entry.len() == 0,
{
    let longer = entries.push(entry);
    let texts = entries.map_values(|e: Seq<char>| stored_text(e));
    let longer_texts = longer.map_values(|e: Seq<char>| stored_text(e));
    assert(longer_texts =~= texts.push(stored_text(entry)));
    assert forall|t: Seq<char>| longer_texts.contains(t) <==> texts.contains(t) || t
        == stored_text(entry) by {
        if longer_texts.contains(t) {
            let j = choose|j: int| 0 <= j < longer_texts.len() && longer_texts[j] == t;
            if j < texts.len() {
                assert(texts[j] == t);
            }
        }
        if texts.contains(t) {
            let j = choose|j: int| 0 <= j < texts.len() && texts[j] == t;
            assert(longer_texts[j] == t);
        }
        if t == stored_text(entry) {
            assert(longer_texts[entries.len() as int] == t);
        }
    }
    assert(longer_texts.to_set() =~= texts.to_set().insert(stored_text(entry)));
    if has_empty_entry(entries) {
        let j = choose|j: int| 0 <= j < entries.len() && #[trigger] entries[j].len() == 0;
        assert(longer[j].len() == 0);
    }
    if entry.len() == 0 {
        assert(longer[entries.len() as int].len() == 0);
    }
}

/// A text is a stored piece exactly if it is the stored text of some entry.
pub proof fn lemma_stored_pieces_contains(entries: Seq<Seq<char>>, text: Seq<char>)
    ensures
        stored_pieces(entries).contains(text) <==> exists|i: int|
            0 <= i < entries.len() && stored_text(#[trigger] entries[i]) == text,
{
    let texts = entries.map_values(|entry: Seq<char>| stored_text(entry));
    if stored_pieces(entries).contains(text) {
        let i = choose|i: int| 0 <= i < texts.len() && texts[i] == text;
        assert(stored_text(entries[i]) == text);
    }
    if exists|i: int| 0 <= i < entries.len() && stored_text(#[trigger] entries[i]) == text {
        let i = choose|i: int| 0 <= i < entries.len() && stored_text(#[trigger] entries[i]) == text;
        assert(texts[i] == text);
    }
}

/// Neither the order of the entries nor their repetition matters: two lists
/// that hold the same entries stand for the same pieces, and either both
/// hold an empty entry or neither does.
pub proof fn lemma_same_entries_same_pieces(first: Seq<Seq<char>>, second: Seq<Seq<char>>)
    requires
        first.to_set() == second.to_set(),
    ensures
        stored_pieces(first) == stored_pieces(second),
        has_empty_entry(first) == has_empty_entry(second),
{
    assert forall|text: Seq<char>|
        stored_pieces(first).contains(text) == stored_pieces(second).contains(text) by {
        lemma_stored_pieces_contains(first, text);
        lemma_stored_pieces_contains(second, text);
        lemma_same_entries_cover(first, second, text);
        lemma_same_entries_cover(second, first, text);
    }
    assert(stored_pieces(first) =~= stored_pieces(second));
    lemma_same_entries_empty(first, second);
    lemma_same_entries_empty(second, first);
}

/// A text that some entry of `first` stands for is one that some entry of
/// `second` stands for, where `second` holds every entry of `first`.
proof fn lemma_same_entries_cover(first: Seq<Seq<char>>, second: Seq<Seq<char>>, text: Seq<char>)
    requires
        first.to_set() == second.to_set(),
    ensures
        (exists|i: int| 0 <= i < first.len() && stored_text(#[trigger] first[i]) == text)
            ==> exists|j: int| 0 <= j < second.len() && stored_text(#[trigger] second[j]) == text,
{
    if exists|i: int| 0 <= i < first.len() && stored_text(#[trigger] first[i]) == text {
        let i = choose|i: int| 0 <= i < first.len() && stored_text(#[trigger] first[i]) == text;
        assert(first.to_set().contains(first[i]));
        assert(second.contains(first[i]));
        let j = choose|j: int| 0 <= j < second.len() && second[j] == first[i];
        assert(stored_text(second[j]) == text);
    }
}

/// An empty entry of `first` is one of `second`, where `second` holds
/// every entry of `first`.
proof fn lemma_same_entries_empty(first: Seq<Seq<char>>, second: Seq<Seq<char>>)
    requires
        first.to_set() == second.to_set(),
    ensures
        has_empty_entry(first) ==> has_empty_entry(second),
{
    if has_empty_entry(first) {
        let i = choose|i: int| 0 <= i < first.len() && #[trigger] first[i].len() == 0;
        assert(first.to_set().contains(first[i]));
        assert(second.contains(first[i]));
        let j = choose|j: int| 0 <= j < second.len() && second[j] == first[i];
        assert(second[j].len() == 0);
    }
}

impl View for Vocabulary {
    type V = Set<Seq<char>>;

    closed spec fn view(&self) -> Set<Seq<char>> {
        initial_pieces(self.index).union(continuation_pieces(self.index))
    }
}

impl Vocabulary {
    /// The vocabulary of a lookup index that was built elsewhere, or the
    /// error that stands for the failure to build one.
    pub fn from_index(outcome: Result<WordPieces, WordPiecesError>) -> (result: Result<
        Vocabulary,
        VocabularyError,
    >)
        ensures
            match outcome {
                Ok(index) => result matches Ok(vocabulary) && vocabulary@ == initial_pieces(
                    index,
                ).union(continuation_pieces(index)),
                Err(_) => result matches Err(VocabularyError::IndexRejected),
            },
    {
        match outcome {
            Ok(index) => Ok(Vocabulary { index }),
            Err(_) => Err(VocabularyError::IndexRejected),
        }
    }

    /// Constructs the vocabulary from a list of entries, in any order and
    /// with repetitions. An entry is taken as it is written, with its case
    /// and its white space, but for the continuation marker: an entry that
    /// starts with `##` is stored without it. A list with an empty entry is
    /// malformed; every other list gives the vocabulary of exactly its
    /// stored texts.
    pub fn build(pieces: &Vec<String>) -> (result: Result<Vocabulary, VocabularyError>)
        ensures
            has_empty_entry(pieces.deep_view()) ==> result matches Err(
                VocabularyError::MalformedVocabulary,
            ),
            !has_empty_entry(pieces.deep_view()) ==> (result matches Ok(vocabulary) && vocabulary@
                == stored_pieces(pieces.deep_view())),
    {
        let mut builder = WordPiecesBuilder::new();
        let mut i: usize = 0;
        while i < pieces.len()
            invariant
                i <= pieces.len(),
                !has_empty_entry(pieces.deep_view().take(i as int)),
                pending_initial(builder).union(pending_continuation(builder)) == stored_pieces(
                    pieces.deep_view().take(i as int),
                ),
            decreases pieces.len() - i,
        {
            let piece = pieces[i].as_str();
            let ghost entries = pieces.deep_view();
            assert(entries[i as int] == piece@);
            if piece.is_empty() {
                return Err(VocabularyError::MalformedVocabulary);
            }
            builder.insert(piece, i as u64);
            proof {
                assert(entries.take(i + 1) =~= entries.take(i as int).push(piece@));
                lemma_stored_pieces_push(entries.take(i as int), piece@);
            }
            i += 1;
        }
        assert(pieces.deep_view().take(i as int) =~= pieces.deep_view());
        Vocabulary::from_index(builder.build())
    }

    /// Exact membership of a text among the stored pieces.
    pub fn contains(&self, candidate: &str) -> (found: bool)
        ensures
            found == self@.contains(candidate@),
    {
        self.index.get_initial(candidate).is_some() || self.index.get_continuation(
            candidate,
        ).is_some()
    }
}

} // verus!
