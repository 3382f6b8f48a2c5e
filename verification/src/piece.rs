//! The items of a segmentation: a matched piece, or the sentinel for a
//! position at which no piece matches.

use vstd::prelude::*;

verus! {

/// What the segmentation yields at one position of a word form.
#[derive(Debug, PartialEq, Eq)]
pub enum PieceResult {
    /// A vocabulary piece was matched; this is its text.
    Piece(String),
    /// No vocabulary piece matches at this position.
    Missing,
}

/// The mathematical value of a [`PieceResult`].
pub ghost enum PieceView {
    Piece(Seq<char>),
    Missing,
}

impl View for PieceResult {
    type V = PieceView;

    open spec fn view(&self) -> PieceView {
        match self {
            PieceResult::Piece(text) => PieceView::Piece(text@),
            PieceResult::Missing => PieceView::Missing,
        }
    }
}

impl DeepView for PieceResult {
    type V = PieceView;

    open spec fn deep_view(&self) -> PieceView {
        self.view()
    }
}

impl Clone for PieceResult {
    fn clone(&self) -> (copy: Self)
        ensures
            copy == *self,
    {
        match self {
            PieceResult::Piece(text) => PieceResult::Piece(text.clone()),
            PieceResult::Missing => PieceResult::Missing,
        }
    }
}

impl PieceResult {
    /// The text of a matched piece, `None` for the sentinel.
    pub fn piece(&self) -> (text: Option<&str>)
        ensures
            match self@ {
                PieceView::Piece(t) => text matches Some(s) && s@ == t,
                PieceView::Missing => text is None,
            },
    {
        match self {
            PieceResult::Piece(text) => Some(text.as_str()),
            PieceResult::Missing => None,
        }
    }

    /// Whether this is the sentinel.
    pub fn is_missing(&self) -> (missing: bool)
        ensures
            missing == (self@ is Missing),
    {
        match self {
            PieceResult::Piece(_) => false,
            PieceResult::Missing => true,
        }
    }
}

} // verus!
