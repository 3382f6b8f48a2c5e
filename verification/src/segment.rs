//! Greedy longest-match segmentation of a word form, what it is and what
//! holds of it.

use crate::piece::{PieceResult, PieceView};
use crate::vocabulary::Vocabulary;
use vstd::prelude::*;

verus! {

/// The length of the longest prefix of `form`, of at most `limit` characters
/// and at least one, that is a piece of the vocabulary; 0 if there is none.
pub open spec fn longest_match(vocabulary: Set<Seq<char>>, form: Seq<char>, limit: nat) -> nat
    decreases limit,
{
    if limit == 0 {
        0
    } else if vocabulary.contains(form.take(limit as int)) {
        limit
    } else {
        longest_match(vocabulary, form, (limit - 1) as nat)
    }
}

/// The greedy longest-match segmentation of a word form: at each position the
/// longest piece that starts there, and after the first position without a
/// piece the sentinel and nothing more.
pub open spec fn segment(vocabulary: Set<Seq<char>>, form: Seq<char>) -> Seq<PieceView>
    decreases form.len(),
    via segment_decreases
{
    if form.len() == 0 {
        Seq::empty()
    } else {
        let len = longest_match(vocabulary, form, form.len());
        if len == 0 {
            seq![PieceView::Missing]
        } else {
            seq![PieceView::Piece(form.take(len as int))] + segment(
                vocabulary,
                form.skip(len as int),
            )
        }
    }
}

#[via_fn]
proof fn segment_decreases(vocabulary: Set<Seq<char>>, form: Seq<char>) {
    lemma_longest_match_bounds(vocabulary, form, form.len());
}

/// A reported match is a piece of the vocabulary, within the limit, and no
/// longer prefix within the limit is a piece; 0 is reported only when no
/// prefix within the limit is a piece.
pub proof fn lemma_longest_match_bounds(vocabulary: Set<Seq<char>>, form: Seq<char>, limit: nat)
    ensures
        longest_match(vocabulary, form, limit) <= limit,
        longest_match(vocabulary, form, limit) > 0 ==> vocabulary.contains(
            form.take(longest_match(vocabulary, form, limit) as int),
        ),
        forall|len: int|
            longest_match(vocabulary, form, limit) < len <= limit ==> !vocabulary.contains(
                #[trigger] form.take(len),
            ),
    decreases limit,
{
    if limit > 0 && !vocabulary.contains(form.take(limit as int)) {
        lemma_longest_match_bounds(vocabulary, form, (limit - 1) as nat);
    }
}

/// The number of characters that an item of a segmentation covers.
pub open spec fn covered(item: PieceView) -> nat {
    match item {
        PieceView::Piece(text) => text.len(),
        PieceView::Missing => 0,
    }
}

/// The position in the word form at which item `i` of a segmentation
/// starts: the number of characters that the items before it cover.
pub open spec fn cursor_at(pieces: Seq<PieceView>, i: int) -> nat
    decreases i,
{
    if i <= 0 {
        0
    } else {
        cursor_at(pieces, i - 1) + covered(pieces[i - 1])
    }
}

/// Whether no item of a segmentation is the sentinel.
pub open spec fn fully_matched(pieces: Seq<PieceView>) -> bool {
    forall|i: int| 0 <= i < pieces.len() ==> #[trigger] pieces[i] is Piece
}

/// An empty word form has the empty segmentation, and only an empty form
/// has it.
pub proof fn lemma_empty_form(vocabulary: Set<Seq<char>>, form: Seq<char>)
    ensures
        form.len() == 0 <==> segment(vocabulary, form).len() == 0,
{
}

/// The sentinel occurs nowhere in a segmentation but as its last item.
pub proof fn lemma_missing_only_last(vocabulary: Set<Seq<char>>, form: Seq<char>)
    ensures
        forall|i: int|
            0 <= i < segment(vocabulary, form).len() - 1 ==> #[trigger] segment(
                vocabulary,
                form,
            )[i] is Piece,
    decreases form.len(),
{
    if form.len() > 0 {
        let len = longest_match(vocabulary, form, form.len());
        lemma_longest_match_bounds(vocabulary, form, form.len());
        if len > 0 {
            lemma_missing_only_last(vocabulary, form.skip(len as int));
        }
    }
}

/// Where every single character of a word form is a piece of the
/// vocabulary, the segmentation holds no sentinel, and its pieces cover the
/// form. Longer pieces are still preferred where the vocabulary has them.
pub proof fn lemma_single_characters_suffice(vocabulary: Set<Seq<char>>, form: Seq<char>)
    requires
        forall|i: int| 0 <= i < form.len() ==> vocabulary.contains(seq![#[trigger] form[i]]),
    ensures
        fully_matched(segment(vocabulary, form)),
        covered_text(segment(vocabulary, form)) == form,
    decreases form.len(),
{
    lemma_segment_covers(vocabulary, form);
    if form.len() > 0 {
        let len = longest_match(vocabulary, form, form.len());
        lemma_longest_match_bounds(vocabulary, form, form.len());
        assert(form.take(1) =~= seq![form[0]]);
        let rest = form.skip(len as int);
        assert forall|i: int| 0 <= i < rest.len() implies vocabulary.contains(
            seq![#[trigger] rest[i]],
        ) by {
            assert(rest[i] == form[i + len]);
        }
        lemma_single_characters_suffice(vocabulary, rest);
    }
}

/// Of the prefixes of a word form that are pieces of the vocabulary, the
/// segmentation starts with the longest.
pub proof fn lemma_longest_match_wins(vocabulary: Set<Seq<char>>, form: Seq<char>, len: int)
    requires
        0 < len <= form.len(),
        vocabulary.contains(form.take(len)),
    ensures
        segment(vocabulary, form).len() > 0,
        segment(vocabulary, form)[0] matches PieceView::Piece(text) && len <= text.len()
            <= form.len() && text == form.take(text.len() as int) && vocabulary.contains(text),
{
    lemma_longest_match_bounds(vocabulary, form, form.len());
}

/// Item `i` of a segmentation starts `offset` characters later in the word
/// form than the item before it in the segmentation of the rest.
proof fn lemma_cursor_shift(first: PieceView, tail: Seq<PieceView>, i: int)
    requires
        0 <= i <= tail.len(),
    ensures
        cursor_at(seq![first] + tail, i + 1) == covered(first) + cursor_at(tail, i),
    decreases i,
{
    let pieces = seq![first] + tail;
    if i == 0 {
        assert(cursor_at(pieces, 0) == 0);
        assert(pieces[0] == first);
    } else {
        lemma_cursor_shift(first, tail, i - 1);
        assert(pieces[i] == tail[i - 1]);
    }
}

/// Every item of a segmentation is the greedy choice at its position: a
/// piece is the longest prefix of the remaining form that the vocabulary
/// holds, it is not empty, and the last one ends the form; the sentinel
/// stands where no prefix of the remaining form is in the vocabulary.
pub proof fn lemma_segment_is_greedy(vocabulary: Set<Seq<char>>, form: Seq<char>, i: int)
    requires
        0 <= i < segment(vocabulary, form).len(),
    ensures
        ({
            let pieces = segment(vocabulary, form);
            let start = cursor_at(pieces, i) as int;
            &&& start < form.len()
            &&& match pieces[i] {
                PieceView::Piece(text) => {
                    let end = start + text.len();
                    &&& start < end <= form.len()
                    &&& text == form.subrange(start, end)
                    &&& vocabulary.contains(text)
                    &&& forall|longer: int|
                        end < longer <= form.len() ==> !vocabulary.contains(
                            #[trigger] form.subrange(start, longer),
                        )
                    &&& i == pieces.len() - 1 ==> end == form.len()
                },
                PieceView::Missing => {
                    &&& i == pieces.len() - 1
                    &&& forall|end: int|
                        start < end <= form.len() ==> !vocabulary.contains(
                            #[trigger] form.subrange(start, end),
                        )
                },
            }
        }),
    decreases form.len(),
{
    let pieces = segment(vocabulary, form);
    let len = longest_match(vocabulary, form, form.len()) as int;
    lemma_longest_match_bounds(vocabulary, form, form.len());
    assert forall|end: int| len < end <= form.len() implies !vocabulary.contains(
        #[trigger] form.subrange(0, end),
    ) by {
        assert(form.subrange(0, end) =~= form.take(end));
    }
    if len == 0 {
        assert(cursor_at(pieces, 0) == 0);
    } else {
        let first = PieceView::Piece(form.take(len));
        let rest = form.skip(len);
        let tail = segment(vocabulary, rest);
        assert(pieces == seq![first] + tail);
        assert(form.take(len) =~= form.subrange(0, len));
        if i == 0 {
            assert(cursor_at(pieces, 0) == 0);
            lemma_empty_form(vocabulary, rest);
        } else {
            lemma_segment_is_greedy(vocabulary, rest, i - 1);
            lemma_cursor_shift(first, tail, i - 1);
            let start = cursor_at(pieces, i) as int;
            assert(start == len + cursor_at(tail, i - 1));
            assert(pieces[i] == tail[i - 1]);
            assert forall|end: int| start <= end <= form.len() implies #[trigger] form.subrange(
                start,
                end,
            ) == rest.subrange(start - len, end - len) by {
                assert(form.subrange(start, end) =~= rest.subrange(start - len, end - len));
            }
        }
    }
}

/// The characters that the items of a segmentation cover, in their order.
pub open spec fn covered_text(pieces: Seq<PieceView>) -> Seq<char>
    decreases pieces.len(),
{
    if pieces.len() == 0 {
        Seq::empty()
    } else {
        let rest = covered_text(pieces.drop_first());
        match pieces.first() {
            PieceView::Piece(text) => text + rest,
            PieceView::Missing => rest,
        }
    }
}

/// The pieces of a segmentation cover the word form from its start, up to
/// the first position without a piece: all of it where no item is the
/// sentinel, and less than all of it where one is.
pub proof fn lemma_segment_covers(vocabulary: Set<Seq<char>>, form: Seq<char>)
    ensures
        ({
            let covered = covered_text(segment(vocabulary, form));
            &&& covered.len() <= form.len()
            &&& covered == form.take(covered.len() as int)
            &&& fully_matched(segment(vocabulary, form)) <==> covered == form
        }),
    decreases form.len(),
{
    let pieces = segment(vocabulary, form);
    if form.len() > 0 {
        let len = longest_match(vocabulary, form, form.len()) as int;
        lemma_longest_match_bounds(vocabulary, form, form.len());
        if len == 0 {
            assert(pieces.drop_first() =~= Seq::<PieceView>::empty());
            assert(covered_text(pieces.drop_first()) =~= Seq::<char>::empty());
            assert(covered_text(pieces) =~= Seq::<char>::empty());
            assert(pieces[0] is Missing);
        } else {
            let rest = form.skip(len);
            let tail = segment(vocabulary, rest);
            lemma_segment_covers(vocabulary, rest);
            assert(pieces.drop_first() =~= tail);
            let covered = covered_text(pieces);
            assert(covered == form.take(len) + covered_text(tail));
            assert(covered =~= form.take(covered.len() as int));
            assert(form =~= form.take(len) + rest);
            if fully_matched(pieces) {
                assert forall|i: int| 0 <= i < tail.len() implies #[trigger] tail[i] is Piece by {
                    assert(tail[i] == pieces[i + 1]);
                }
            }
            if covered == form {
                assert(covered_text(tail) =~= rest) by {
                    assert(covered.skip(len) =~= covered_text(tail));
                }
                assert forall|i: int| 0 <= i < pieces.len() implies #[trigger] pieces[i] is Piece by {
                    if i > 0 {
                        assert(pieces[i] == tail[i - 1]);
                    }
                }
            }
        }
    } else {
        assert(covered_text(pieces) =~= form);
    }
}

/// With an empty vocabulary every word form but the empty one is
/// segmented into the sentinel alone.
pub proof fn lemma_empty_vocabulary(form: Seq<char>)
    requires
        form.len() > 0,
    ensures
        segment(Set::empty(), form) == seq![PieceView::Missing],
{
    lemma_longest_match_bounds(Set::empty(), form, form.len());
}

/// Segmentation has no hidden state: two runs on equal vocabularies and
/// equal word forms yield equal sequences.
pub proof fn lemma_split_repeatable(
    first_vocabulary: Vocabulary,
    second_vocabulary: Vocabulary,
    first_word: &str,
    second_word: &str,
    first_run: Vec<PieceResult>,
    second_run: Vec<PieceResult>,
)
    requires
        first_vocabulary@ == second_vocabulary@,
        first_word@ == second_word@,
        first_run.deep_view() == segment(first_vocabulary@, first_word@),
        second_run.deep_view() == segment(second_vocabulary@, second_word@),
    ensures
        first_run.deep_view() == second_run.deep_view(),
{
}

/// What the segmentation laws say of the items of a finished run.
proof fn lemma_split_shape(vocabulary: Set<Seq<char>>, form: Seq<char>, pieces: Vec<PieceResult>)
    requires
        pieces.deep_view() == segment(vocabulary, form),
    ensures
        form.len() == 0 ==> pieces@.len() == 0,
        forall|i: int| 0 <= i < pieces@.len() - 1 ==> #[trigger] pieces@[i]@ is Piece,
        forall|i: int|
            0 <= i < pieces@.len() ==> (#[trigger] pieces@[i]@ matches PieceView::Piece(text)
                ==> text.len() > 0 && vocabulary.contains(text)),
{
    lemma_empty_form(vocabulary, form);
    lemma_missing_only_last(vocabulary, form);
    assert forall|i: int| 0 <= i < pieces@.len() - 1 implies #[trigger] pieces@[i]@ is Piece by {
        assert(pieces.deep_view()[i] == pieces@[i]@);
    }
    assert forall|i: int| 0 <= i < pieces@.len() implies (#[trigger] pieces@[i]@ matches PieceView::Piece(
        text,
    ) ==> text.len() > 0 && vocabulary.contains(text)) by {
        assert(pieces.deep_view()[i] == pieces@[i]@);
        lemma_segment_is_greedy(vocabulary, form, i);
    }
}

impl Vocabulary {
    /// The number of characters of the longest piece that `rest` starts
    /// with, 0 if it starts with none.
    fn longest_prefix(&self, rest: &str) -> (len: usize)
        ensures
            len == longest_match(self@, rest@, rest@.len()),
    {
        let mut len = rest.unicode_len();
        while len > 0
            invariant
                len <= rest@.len(),
                longest_match(self@, rest@, len as nat) == longest_match(
                    self@,
                    rest@,
                    rest@.len(),
                ),
            decreases len,
        {
            let candidate = rest.substring_char(0, len);
            assert(candidate@ == rest@.take(len as int));
            if self.contains(candidate) {
                return len;
            }
            len -= 1;
        }
        0
    }

    /// Splits a word form into pieces, greedily and from left to right: at
    /// each position the longest piece of the vocabulary that starts there
    /// is taken; at the first position where none starts the sentinel is
    /// given and the rest of the form is left alone. Forms are cut between
    /// characters, never inside one. The empty form has no items.
    pub fn split(&self, word: &str) -> (pieces: Vec<PieceResult>)
        ensures
            pieces.deep_view() == segment(self@, word@),
            word@.len() == 0 ==> pieces@.len() == 0,
            forall|i: int| 0 <= i < pieces@.len() - 1 ==> #[trigger] pieces@[i]@ is Piece,
            forall|i: int|
                0 <= i < pieces@.len() ==> (#[trigger] pieces@[i]@ matches PieceView::Piece(text)
                    ==> text.len() > 0 && self@.contains(text)),
    {
        let total = word.unicode_len();
        let mut pieces: Vec<PieceResult> = Vec::new();
        let mut cursor: usize = 0;
        assert(word@.skip(0) =~= word@);
        while cursor < total
            invariant
                cursor <= total == word@.len(),
                segment(self@, word@) == pieces.deep_view() + segment(
                    self@,
                    word@.skip(cursor as int),
                ),
            decreases total - cursor,
        {
            let rest = word.substring_char(cursor, total);
            let ghost done = pieces.deep_view();
            assert(rest@ =~= word@.skip(cursor as int));
            let len = self.longest_prefix(rest);
            proof {
                lemma_longest_match_bounds(self@, rest@, rest@.len());
            }
            if len == 0 {
                pieces.push(PieceResult::Missing);
                assert(pieces.deep_view() =~= done + seq![PieceView::Missing]);
                proof {
                    lemma_split_shape(self@, word@, pieces);
                }
                return pieces;
            }
            let text = String::from_str(rest.substring_char(0, len));
            pieces.push(PieceResult::Piece(text));
            assert(pieces.deep_view() =~= done + seq![PieceView::Piece(rest@.take(len as int))]);
            assert(rest@.skip(len as int) =~= word@.skip(cursor + len));
            cursor += len;
        }
        assert(pieces.deep_view() + Seq::<PieceView>::empty() =~= pieces.deep_view());
        proof {
            lemma_split_shape(self@, word@, pieces);
        }
        pieces
    }
}

} // verus!
