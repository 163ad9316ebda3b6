//! The board: an 8×8 grid of optional pieces, the sole positional state.
//! Rows 0–7 run top to bottom and columns 0–7 left to right, so the Black
//! back rank is row 0 and the White back rank is row 7.

use vstd::prelude::*;

use crate::piece::Colour;
use crate::piece::Piece;
use crate::piece::PieceClass;

verus! {

broadcast use vstd::array::group_array_axioms;

/// An 8×8 grid of cells, each holding at most one piece.
pub type Board = [[Option<Piece>; 8]; 8];

/// Whether `(r, c)` indexes a cell of the 8×8 board.
pub open spec fn in_bounds(r: int, c: int) -> bool {
    0 <= r < 8 && 0 <= c < 8
}

/// The content of cell `(r, c)`.
pub open spec fn cell(b: Board, r: int, c: int) -> Option<Piece>
    recommends
        in_bounds(r, c),
{
    b[r][c]
}

/// The back-rank class for column `c` in the initial setup: rooks in the
/// corners, then knights, then bishops, the queen on column 3 and the king
/// on column 4. The rooks start castling-eligible and the king unmoved.
pub open spec fn start_back_rank(c: int) -> PieceClass {
    if c == 0 || c == 7 {
        PieceClass::Rook(true)
    } else if c == 1 || c == 6 {
        PieceClass::Knight
    } else if c == 2 || c == 5 {
        PieceClass::Bishop
    } else if c == 3 {
        PieceClass::Queen
    } else {
        PieceClass::King(false)
    }
}

/// The content of cell `(r, c)` in the standard starting position: Black's
/// back rank and pawns on rows 0 and 1, White's on rows 7 and 6.
pub open spec fn start_cell(r: int, c: int) -> Option<Piece> {
    if r == 0 {
        Some(Piece { owner: Colour::Black, class: start_back_rank(c) })
    } else if r == 1 {
        Some(Piece { owner: Colour::Black, class: PieceClass::Pawn(false, false) })
    } else if r == 6 {
        Some(Piece { owner: Colour::White, class: PieceClass::Pawn(false, false) })
    } else if r == 7 {
        Some(Piece { owner: Colour::White, class: start_back_rank(c) })
    } else {
        None
    }
}

/// Builds the standard starting position.
pub fn new_board() -> (b: Board)
    ensures
        forall|r: int, c: int| in_bounds(r, c) ==> #[trigger] cell(b, r, c) == start_cell(r, c),
{
    let black_back: [Option<Piece>; 8] = [
        Some(Piece::new(Colour::Black, PieceClass::Rook(true))),
        Some(Piece::new(Colour::Black, PieceClass::Knight)),
        Some(Piece::new(Colour::Black, PieceClass::Bishop)),
        Some(Piece::new(Colour::Black, PieceClass::Queen)),
        Some(Piece::new(Colour::Black, PieceClass::King(false))),
        Some(Piece::new(Colour::Black, PieceClass::Bishop)),
        Some(Piece::new(Colour::Black, PieceClass::Knight)),
        Some(Piece::new(Colour::Black, PieceClass::Rook(true))),
    ];
    let black_pawns: [Option<Piece>; 8] =
        [Some(Piece::new(Colour::Black, PieceClass::Pawn(false, false))); 8];
    let empty_row: [Option<Piece>; 8] = [None; 8];
    let white_pawns: [Option<Piece>; 8] =
        [Some(Piece::new(Colour::White, PieceClass::Pawn(false, false))); 8];
    let white_back: [Option<Piece>; 8] = [
        Some(Piece::new(Colour::White, PieceClass::Rook(true))),
        Some(Piece::new(Colour::White, PieceClass::Knight)),
        Some(Piece::new(Colour::White, PieceClass::Bishop)),
        Some(Piece::new(Colour::White, PieceClass::Queen)),
        Some(Piece::new(Colour::White, PieceClass::King(false))),
        Some(Piece::new(Colour::White, PieceClass::Bishop)),
        Some(Piece::new(Colour::White, PieceClass::Knight)),
        Some(Piece::new(Colour::White, PieceClass::Rook(true))),
    ];
    let b: Board = [
        black_back,
        black_pawns,
        empty_row,
        empty_row,
        empty_row,
        empty_row,
        white_pawns,
        white_back,
    ];
    b
}

} // verus!
