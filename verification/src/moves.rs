//! The move representation: a source square, a destination square, and an
//! optional promotion class. A move is both the engine's output and the
//! player-submitted candidate to validate; equality is structural.

use vstd::prelude::*;

use crate::piece::PieceClass;

verus! {

/// A board square as zero-based indices: rows 0–7 top to bottom, columns 0–7
/// left to right (column 0 is file 'a'). The coordinate codec maps a square
/// to and from its two-character algebraic form.
#[derive(Copy, Clone, PartialEq, Eq, Structural, Debug)]
pub struct Square {
    pub row: usize,
    pub col: usize,
}

/// A move: source, destination, and the class a pawn promotes to, if any.
/// Two moves are identical iff source, destination and promotion match.
#[derive(Copy, Clone, PartialEq, Eq, Structural, Debug)]
pub struct Move {
    pub src: Square,
    pub dst: Square,
    pub promotion: Option<PieceClass>,
}

impl Move {
    /// A plain move with no promotion.
    pub fn new(src: Square, dst: Square) -> (m: Move)
        ensures
            m == (Move { src, dst, promotion: None }),
    {
        Self { src, dst, promotion: None }
    }

    /// A promoting move: the pawn that reaches the far rank becomes
    /// `promote_to`.
    pub fn promotion(src: Square, dst: Square, promote_to: PieceClass) -> (m: Move)
        ensures
            m == (Move { src, dst, promotion: Some(promote_to) }),
    {
        Self { src, dst, promotion: Some(promote_to) }
    }
}

} // verus!
