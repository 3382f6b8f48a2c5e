//! The shapes that a segmentation can have.

use crate::piece::{PieceResult, PieceView};
use crate::segment::{fully_matched, lemma_empty_form, lemma_missing_only_last, segment};
use vstd::prelude::*;

verus! {

/// The shape of the segmentation of one word form.
#[derive(Clone, Copy, Debug, PartialEq, Eq, Structural)]
pub enum Shape {
    /// No item at all: the form was empty.
    Empty,
    /// The sentinel comes first: no piece matches at the start of the form.
    FullyUnknown,
    /// Pieces only: the form is covered by pieces.
    FullyKnown,
    /// Pieces and then the sentinel: only a prefix of the form is covered.
    SuffixUnknown,
}

/// The shape of a sequence of items, told by its first and its last item.
pub open spec fn shape_of(pieces: Seq<PieceView>) -> Shape {
    if pieces.len() == 0 {
        Shape::Empty
    } else if pieces.first() is Missing {
        Shape::FullyUnknown
    } else if pieces.last() is Missing {
        Shape::SuffixUnknown
    } else {
        Shape::FullyKnown
    }
}

/// Tells the shape of a segmentation.
pub fn classify(pieces: &Vec<PieceResult>) -> (shape: Shape)
    ensures
        shape == shape_of(pieces.deep_view()),
{
    let n = pieces.len();
    if n == 0 {
        return Shape::Empty;
    }
    assert(pieces.deep_view().first() == pieces[0]@);
    assert(pieces.deep_view().last() == pieces[n - 1]@);
    if pieces[0].is_missing() {
        Shape::FullyUnknown
    } else if pieces[n - 1].is_missing() {
        Shape::SuffixUnknown
    } else {
        Shape::FullyKnown
    }
}

/// The segmentation of a word form has the empty shape only for the empty
/// form. A fully unknown form has the sentinel alone, a fully known one has
/// pieces only, and one with an unknown suffix has at least one piece and
/// the sentinel after the pieces.
pub proof fn lemma_segment_shape(vocabulary: Set<Seq<char>>, form: Seq<char>)
    ensures
        ({
            let pieces = segment(vocabulary, form);
            match shape_of(pieces) {
                Shape::Empty => form.len() == 0,
                Shape::FullyUnknown => form.len() > 0 && pieces == seq![PieceView::Missing],
                Shape::FullyKnown => form.len() > 0 && fully_matched(pieces),
                Shape::SuffixUnknown => {
                    &&& form.len() > 0
                    &&& pieces.len() >= 2
                    &&& fully_matched(pieces.drop_last())
                    &&& pieces.last() is Missing
                },
            }
        }),
{
    let pieces = segment(vocabulary, form);
    lemma_empty_form(vocabulary, form);
    lemma_missing_only_last(vocabulary, form);
    match shape_of(pieces) {
        Shape::Empty => {},
        Shape::FullyUnknown => {
            if pieces.len() > 1 {
                assert(pieces[0] is Piece);
            }
            assert(pieces =~= seq![PieceView::Missing]);
        },
        Shape::FullyKnown => {
            assert forall|i: int| 0 <= i < pieces.len() implies #[trigger] pieces[i] is Piece by {
                if i == pieces.len() - 1 {
                    assert(pieces[i] == pieces.last());
                }
            }
        },
        Shape::SuffixUnknown => {
            assert forall|i: int| 0 <= i < pieces.drop_last().len() implies #[trigger] pieces.drop_last()[i] is Piece by {
                assert(pieces.drop_last()[i] == pieces[i]);
            }
        },
    }
}

} // verus!
