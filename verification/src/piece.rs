//! The piece model: the owning side and the piece class, with the history
//! flags that movement legality depends on embedded in the class.

use vstd::prelude::*;

verus! {

/// One of the two sides. Exactly one side is to move at any time.
#[derive(Copy, Clone, PartialEq, Eq, Structural, Debug)]
pub enum Colour {
    Black,
    White,
}

/// The class of a piece, carrying the history flags that gate the special
/// moves:
/// - `Pawn(has_moved, just_double_stepped)`: `has_moved` gates the initial
///   two-square advance; `just_double_stepped` marks the pawn as capturable
///   en passant during the single opponent turn after its double step.
/// - `Rook(unmoved_for_castling)`: whether this rook retains castling rights
///   (`true` for the rooks of the initial setup; a rook created by promotion
///   is never castling-eligible).
/// - `King(has_moved)`: gates castling eligibility for this king.
#[derive(Copy, Clone, PartialEq, Eq, Structural, Debug)]
pub enum PieceClass {
    Pawn(bool, bool),
    Rook(bool),
    Knight,
    Bishop,
    Queen,
    King(bool),
}

/// A piece: the owning side and the class. A copyable value with structural
/// equality.
#[derive(Copy, Clone, PartialEq, Eq, Structural, Debug)]
pub struct Piece {
    pub owner: Colour,
    pub class: PieceClass,
}

impl Piece {
    pub fn new(owner: Colour, class: PieceClass) -> (p: Self)
        ensures
            p == (Piece { owner, class }),
    {
        Self { owner, class }
    }
}

} // verus!
