//! The rules of movement, as specification predicates. `pseudo_legal` says
//! exactly when a move obeys piece geometry, sliding-piece blocking, capture
//! rules and the special moves' eligibility conditions; the generation
//! engine's contract is stated against it. Pseudo-legal moves are not
//! filtered for leaving the mover's own king attacked — that is out of scope.

use vstd::prelude::*;

use crate::board::cell;
use crate::board::in_bounds;
use crate::board::Board;
use crate::moves::Move;
use crate::piece::Colour;
use crate::piece::Piece;
use crate::piece::PieceClass;

verus! {

/// A product with a factor from {-1, 0, 1} — the step counts and unit
/// directions of the sliding moves — collapses to a sum-friendly form.
pub broadcast proof fn lemma_mul_unit(a: int, d: int)
    requires
        -1 <= d <= 1,
    ensures
        #[trigger] (a * d) == if d == 1 {
            a
        } else if d == 0 {
            0int
        } else {
            -a
        },
{
    assert(a * d == if d == 1 {
        a
    } else if d == 0 {
        0int
    } else {
        -a
    }) by (nonlinear_arith)
        requires
            -1 <= d <= 1,
    ;
}

/// The cell `(r, c)` is on the board and empty.
pub open spec fn empty_at(b: Board, r: int, c: int) -> bool {
    in_bounds(r, c) && cell(b, r, c) is None
}

/// The cell `(r, c)` is on the board and holds a piece of the side opposing
/// `colour`.
pub open spec fn enemy_at(b: Board, colour: Colour, r: int, c: int) -> bool {
    in_bounds(r, c) && match cell(b, r, c) {
        Some(p) => p.owner != colour,
        None => false,
    }
}

/// The cell `(r, c)` is on the board and holds a piece of `colour` itself.
pub open spec fn friend_at(b: Board, colour: Colour, r: int, c: int) -> bool {
    in_bounds(r, c) && match cell(b, r, c) {
        Some(p) => p.owner == colour,
        None => false,
    }
}

/// `m` goes from `(r, c)` to `(nr, nc)` with promotion `promo`.
pub open spec fn move_is(m: Move, r: int, c: int, nr: int, nc: int, promo: Option<
    PieceClass,
>) -> bool {
    m.src.row == r && m.src.col == c && m.dst.row == nr && m.dst.col == nc && m.promotion == promo
}

/// A single bounded step by `(dr, dc)`: the target is on the board and does
/// not hold a friendly piece (it is empty, a quiet move, or holds an enemy
/// piece, a capture).
pub open spec fn step_ok(b: Board, colour: Colour, r: int, c: int, dr: int, dc: int, m: Move) -> bool {
    &&& in_bounds(r + dr, c + dc)
    &&& !friend_at(b, colour, r + dr, c + dc)
    &&& move_is(m, r, c, r + dr, c + dc, None)
}

/// The 8 L-shaped knight offsets.
pub open spec fn knight_offset(dr: int, dc: int) -> bool {
    ||| (dr == -2 && dc == -1)
    ||| (dr == -2 && dc == 1)
    ||| (dr == 2 && dc == -1)
    ||| (dr == 2 && dc == 1)
    ||| (dr == -1 && dc == -2)
    ||| (dr == -1 && dc == 2)
    ||| (dr == 1 && dc == -2)
    ||| (dr == 1 && dc == 2)
}

/// The 8 adjacent king offsets.
pub open spec fn king_offset(dr: int, dc: int) -> bool {
    -1 <= dr <= 1 && -1 <= dc <= 1 && !(dr == 0 && dc == 0)
}

/// The 4 orthogonal directions (rook lines).
pub open spec fn ortho_dir(dr: int, dc: int) -> bool {
    ||| (dr == 1 && dc == 0)
    ||| (dr == -1 && dc == 0)
    ||| (dr == 0 && dc == 1)
    ||| (dr == 0 && dc == -1)
}

/// The 4 diagonal directions (bishop lines).
pub open spec fn diag_dir(dr: int, dc: int) -> bool {
    ||| (dr == 1 && dc == 1)
    ||| (dr == -1 && dc == -1)
    ||| (dr == -1 && dc == 1)
    ||| (dr == 1 && dc == -1)
}

/// A slide of `k` steps along direction `(dr, dc)`: every strictly
/// intermediate cell is empty and the target cell is a legal step target.
pub open spec fn slide_ok(
    b: Board,
    colour: Colour,
    r: int,
    c: int,
    dr: int,
    dc: int,
    k: int,
    m: Move,
) -> bool {
    &&& 1 <= k
    &&& (forall|j: int| 1 <= j < k ==> #[trigger] empty_at(b, r + j * dr, c + j * dc))
    &&& in_bounds(r + k * dr, c + k * dc)
    &&& !friend_at(b, colour, r + k * dr, c + k * dc)
    &&& move_is(m, r, c, r + k * dr, c + k * dc, None)
}

/// The number of steps a slide `m` takes along the unit direction
/// `(dr, dc)`: the signed travel of whichever coordinate the direction
/// moves. For a move produced by a slide of `k` steps this recovers `k`.
pub open spec fn slide_dist(m: Move, dr: int, dc: int) -> int {
    if dr != 0 {
        (m.dst.row - m.src.row) * dr
    } else {
        (m.dst.col - m.src.col) * dc
    }
}

/// The sign of `x`: -1, 0 or 1.
pub open spec fn sign(x: int) -> int {
    if x > 0 {
        1
    } else if x < 0 {
        -1
    } else {
        0
    }
}

/// The row direction a move travels in, as a unit step.
pub open spec fn move_dr(m: Move) -> int {
    sign(m.dst.row - m.src.row)
}

/// The column direction a move travels in, as a unit step.
pub open spec fn move_dc(m: Move) -> int {
    sign(m.dst.col - m.src.col)
}

/// A knight move: one of the 8 L-shaped offsets, filtered only by board
/// bounds and friendly occupancy — never blocked by intervening pieces.
pub open spec fn knight_move(b: Board, colour: Colour, r: int, c: int, m: Move) -> bool {
    let dr = m.dst.row - m.src.row;
    let dc = m.dst.col - m.src.col;
    knight_offset(dr, dc) && step_ok(b, colour, r, c, dr, dc, m)
}

/// A slide along the move's own direction for its own distance: the shared
/// shape of rook, bishop and queen moves.
pub open spec fn line_move(b: Board, colour: Colour, r: int, c: int, m: Move) -> bool {
    slide_ok(b, colour, r, c, move_dr(m), move_dc(m), slide_dist(m, move_dr(m), move_dc(m)), m)
}

/// A rook move: a slide along one of the orthogonal directions.
pub open spec fn rook_move(b: Board, colour: Colour, r: int, c: int, m: Move) -> bool {
    ortho_dir(move_dr(m), move_dc(m)) && line_move(b, colour, r, c, m)
}

/// A bishop move: a slide along one of the diagonal directions.
pub open spec fn bishop_move(b: Board, colour: Colour, r: int, c: int, m: Move) -> bool {
    diag_dir(move_dr(m), move_dc(m)) && line_move(b, colour, r, c, m)
}

/// A queen move: a slide along any of the 8 directions.
pub open spec fn queen_move(b: Board, colour: Colour, r: int, c: int, m: Move) -> bool {
    (ortho_dir(move_dr(m), move_dc(m)) || diag_dir(move_dr(m), move_dc(m))) && line_move(
        b,
        colour,
        r,
        c,
        m,
    )
}

/// The board admits queenside castling for a king on `(r, c)`: the
/// queenside rook sits in its home cell still castling-eligible, and every
/// cell strictly between it and the king is empty.
pub open spec fn castle_queenside_ready(b: Board, colour: Colour, r: int, c: int) -> bool {
    &&& c >= 2
    &&& cell(b, r, 0) == Some(Piece { owner: colour, class: PieceClass::Rook(true) })
    &&& (forall|j: int| 1 <= j < c ==> #[trigger] cell(b, r, j) is None)
}

/// The board admits kingside castling: symmetric to queenside, toward the
/// rook on column 7.
pub open spec fn castle_kingside_ready(b: Board, colour: Colour, r: int, c: int) -> bool {
    &&& c + 2 <= 7
    &&& cell(b, r, 7) == Some(Piece { owner: colour, class: PieceClass::Rook(true) })
    &&& (forall|j: int| c + 1 <= j < 7 ==> #[trigger] cell(b, r, j) is None)
}

/// Queenside castling from `(r, c)`: the board admits it and the king
/// travels two columns toward the rook. The king's path is not checked for
/// attacks: generation is pseudo-legal.
pub open spec fn castle_queenside(b: Board, colour: Colour, r: int, c: int, m: Move) -> bool {
    castle_queenside_ready(b, colour, r, c) && move_is(m, r, c, r, c - 2, None)
}

/// Kingside castling: the board admits it and the king travels two columns
/// toward the rook on column 7.
pub open spec fn castle_kingside(b: Board, colour: Colour, r: int, c: int, m: Move) -> bool {
    castle_kingside_ready(b, colour, r, c) && move_is(m, r, c, r, c + 2, None)
}

/// A king step to one of the 8 adjacent cells.
pub open spec fn king_step(b: Board, colour: Colour, r: int, c: int, m: Move) -> bool {
    let dr = m.dst.row - m.src.row;
    let dc = m.dst.col - m.src.col;
    king_offset(dr, dc) && step_ok(b, colour, r, c, dr, dc, m)
}

/// A king move: a single step to any of the 8 adjacent cells, or — for a
/// king that has not moved — a castle to either side.
pub open spec fn king_move(b: Board, colour: Colour, r: int, c: int, moved: bool, m: Move) -> bool {
    ||| king_step(b, colour, r, c, m)
    ||| (!moved && castle_queenside(b, colour, r, c, m))
    ||| (!moved && castle_kingside(b, colour, r, c, m))
}

/// The row direction a pawn of `colour` advances in: Black advances toward
/// higher row indices, White toward lower ones.
pub open spec fn pawn_dir(colour: Colour) -> int {
    match colour {
        Colour::Black => 1,
        Colour::White => -1,
    }
}

/// Whether `r` is a far edge of the board, where a pawn promotes.
pub open spec fn final_rank(r: int) -> bool {
    r == 0 || r == 7
}

/// The classes a pawn may promote to. A rook created by promotion is never
/// castling-eligible.
pub open spec fn promo_class(cl: PieceClass) -> bool {
    ||| cl == PieceClass::Queen
    ||| cl == PieceClass::Knight
    ||| cl == PieceClass::Rook(false)
    ||| cl == PieceClass::Bishop
}

/// The promotion field a pawn move reaching row `nr` must carry: one of the
/// four promotable classes on a far edge, and nothing elsewhere.
pub open spec fn promo_field(nr: int, promo: Option<PieceClass>) -> bool {
    match promo {
        Some(cl) => final_rank(nr) && promo_class(cl),
        None => !final_rank(nr),
    }
}

/// A single pawn advance: one row forward onto an empty cell, promoting
/// exactly on the far edge.
pub open spec fn pawn_advance(b: Board, colour: Colour, r: int, c: int, m: Move) -> bool {
    let nr = r + pawn_dir(colour);
    &&& empty_at(b, nr, c)
    &&& m.src.row == r && m.src.col == c && m.dst.row == nr && m.dst.col == c
    &&& promo_field(nr, m.promotion)
}

/// The initial double advance: only for a pawn that has not moved, and only
/// when both the intermediate cell and the destination are empty, so a pawn
/// cannot jump over a blocker.
pub open spec fn pawn_double(b: Board, colour: Colour, r: int, c: int, moved: bool, m: Move) -> bool {
    let nr = r + pawn_dir(colour);
    let nr2 = r + 2 * pawn_dir(colour);
    &&& !moved
    &&& empty_at(b, nr, c)
    &&& empty_at(b, nr2, c)
    &&& move_is(m, r, c, nr2, c, None)
}

/// A diagonal pawn capture to column `c + dc` (`dc` is 1 or -1): the target
/// holds an enemy piece, promoting exactly on the far edge.
pub open spec fn pawn_capture(b: Board, colour: Colour, r: int, c: int, dc: int, m: Move) -> bool {
    let nr = r + pawn_dir(colour);
    &&& enemy_at(b, colour, nr, c + dc)
    &&& m.src.row == r && m.src.col == c && m.dst.row == nr && m.dst.col == c + dc
    &&& promo_field(nr, m.promotion)
}

/// An en passant capture toward column `c + dc`: the cell beside the pawn
/// holds an enemy pawn flagged as having just double-stepped, and the
/// capture is played as a diagonal move behind it. The captured pawn stands
/// on the adjacent cell, not on the destination.
pub open spec fn pawn_en_passant(b: Board, colour: Colour, r: int, c: int, dc: int, m: Move) -> bool {
    let nr = r + pawn_dir(colour);
    &&& in_bounds(nr, c + dc)
    &&& match cell(b, r, c + dc) {
        Some(p) => p.owner != colour && p.class matches PieceClass::Pawn(_, true),
        None => false,
    }
    &&& move_is(m, r, c, nr, c + dc, None)
}

/// A pawn move: advance, double advance, capture to either side, or en
/// passant to either side.
pub open spec fn pawn_move(b: Board, colour: Colour, r: int, c: int, moved: bool, m: Move) -> bool {
    ||| pawn_advance(b, colour, r, c, m)
    ||| pawn_double(b, colour, r, c, moved, m)
    ||| pawn_capture(b, colour, r, c, 1, m)
    ||| pawn_capture(b, colour, r, c, -1, m)
    ||| pawn_en_passant(b, colour, r, c, 1, m)
    ||| pawn_en_passant(b, colour, r, c, -1, m)
}

/// The moves a piece of class `cl` standing on `(r, c)` may make.
pub open spec fn class_move(
    b: Board,
    colour: Colour,
    r: int,
    c: int,
    cl: PieceClass,
    m: Move,
) -> bool {
    match cl {
        PieceClass::Pawn(moved, _) => pawn_move(b, colour, r, c, moved, m),
        PieceClass::Rook(_) => rook_move(b, colour, r, c, m),
        PieceClass::Knight => knight_move(b, colour, r, c, m),
        PieceClass::Bishop => bishop_move(b, colour, r, c, m),
        PieceClass::Queen => queen_move(b, colour, r, c, m),
        PieceClass::King(moved) => king_move(b, colour, r, c, moved, m),
    }
}

/// A slide of `k` steps along a given unit direction travels in that
/// direction and for that distance by the move's own reckoning, so it is a
/// `line_move`.
pub proof fn lemma_slide_canonical(
    b: Board,
    colour: Colour,
    r: int,
    c: int,
    dr: int,
    dc: int,
    k: int,
    m: Move,
)
    requires
        -1 <= dr <= 1,
        -1 <= dc <= 1,
        !(dr == 0 && dc == 0),
        slide_ok(b, colour, r, c, dr, dc, k, m),
    ensures
        move_dr(m) == dr,
        move_dc(m) == dc,
        slide_dist(m, dr, dc) == k,
        line_move(b, colour, r, c, m),
{
    broadcast use lemma_mul_unit;

    assert(m.dst.row - m.src.row == k * dr);
    assert(m.dst.col - m.src.col == k * dc);
}

/// The engine's central predicate: `m` is a pseudo-legal move for `colour`
/// on `b` — its source cell holds a piece of `colour` whose movement rules
/// permit exactly this move.
pub open spec fn pseudo_legal(b: Board, colour: Colour, m: Move) -> bool {
    &&& m.src.row < 8 && m.src.col < 8
    &&& match cell(b, m.src.row as int, m.src.col as int) {
        Some(p) => p.owner == colour && class_move(
            b,
            colour,
            m.src.row as int,
            m.src.col as int,
            p.class,
            m,
        ),
        None => false,
    }
}

} // verus!
