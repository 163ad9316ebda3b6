//! Laws of the move generation rules, each proved once and for all boards:
//! no move stays on its source square, sliders never jump over occupied
//! cells, knight moves are exactly the L-shaped jumps, castling is
//! generated exactly under its eligibility conditions, en passant follows
//! the double-step flag, and promotion expands exactly into the four
//! promotable classes.

use vstd::prelude::*;

use crate::board::cell;
use crate::board::in_bounds;
use crate::board::Board;
use crate::moves::Move;
use crate::piece::Colour;
use crate::piece::Piece;
use crate::piece::PieceClass;
use crate::rules::castle_kingside;
use crate::rules::castle_kingside_ready;
use crate::rules::castle_queenside;
use crate::rules::castle_queenside_ready;
use crate::rules::empty_at;
use crate::rules::enemy_at;
use crate::rules::final_rank;
use crate::rules::friend_at;
use crate::rules::king_step;
use crate::rules::knight_offset;
use crate::rules::lemma_mul_unit;
use crate::rules::line_move;
use crate::rules::move_dc;
use crate::rules::move_dr;
use crate::rules::move_is;
use crate::rules::pawn_advance;
use crate::rules::pawn_capture;
use crate::rules::pawn_dir;
use crate::rules::pawn_double;
use crate::rules::pawn_en_passant;
use crate::rules::promo_class;
use crate::rules::pseudo_legal;
use crate::rules::slide_dist;
use crate::rules::slide_ok;

verus! {

/// No piece stands still: every pseudo-legal move has a destination
/// different from its source.
pub proof fn lemma_src_ne_dst(b: Board, colour: Colour, m: Move)
    requires
        pseudo_legal(b, colour, m),
    ensures
        m.src != m.dst,
{
    broadcast use lemma_mul_unit;

    let r = m.src.row as int;
    let c = m.src.col as int;
    if m.src == m.dst {
        match cell(b, r, c) {
            Some(p) => {
                match p.class {
                    PieceClass::Rook(_) => {
                        assert(slide_dist(m, move_dr(m), move_dc(m)) >= 1);
                        assert(false);
                    },
                    PieceClass::Bishop => {
                        assert(slide_dist(m, move_dr(m), move_dc(m)) >= 1);
                        assert(false);
                    },
                    PieceClass::Queen => {
                        assert(slide_dist(m, move_dr(m), move_dc(m)) >= 1);
                        assert(false);
                    },
                    _ => {
                        assert(false);
                    },
                }
            },
            None => {},
        }
    }
}

/// The cell `(x, y)` lies strictly between the source and the destination
/// of `m` on a shared rank, file, or diagonal.
pub open spec fn strictly_between(m: Move, x: int, y: int) -> bool {
    let sr = m.src.row as int;
    let sc = m.src.col as int;
    let tr = m.dst.row as int;
    let tc = m.dst.col as int;
    ||| (sr == tr && x == sr && (sc < y < tc || tc < y < sc))
    ||| (sc == tc && y == sc && (sr < x < tr || tr < x < sr))
    ||| (tr - sr == tc - sc && x - sr == y - sc && (sr < x < tr || tr < x < sr))
    ||| (tr - sr == -(tc - sc) && x - sr == -(y - sc) && (sr < x < tr || tr < x < sr))
}

/// Sliding pieces never jump: every cell strictly between the source and
/// the destination of a generated rook, bishop or queen move is empty at
/// generation time.
pub proof fn lemma_slider_path_clear(b: Board, colour: Colour, m: Move, x: int, y: int)
    requires
        pseudo_legal(b, colour, m),
        ({
            let p = cell(b, m.src.row as int, m.src.col as int);
            ||| p == Some(Piece { owner: colour, class: PieceClass::Rook(true) })
            ||| p == Some(Piece { owner: colour, class: PieceClass::Rook(false) })
            ||| p == Some(Piece { owner: colour, class: PieceClass::Bishop })
            ||| p == Some(Piece { owner: colour, class: PieceClass::Queen })
        }),
        strictly_between(m, x, y),
    ensures
        cell(b, x, y) is None,
{
    broadcast use lemma_mul_unit;

    let sr = m.src.row as int;
    let sc = m.src.col as int;
    let tr = m.dst.row as int;
    let tc = m.dst.col as int;
    let dr0 = move_dr(m);
    let dc0 = move_dc(m);
    let k0 = slide_dist(m, dr0, dc0);
    assert(line_move(b, colour, sr, sc, m));
    assert(slide_ok(b, colour, sr, sc, dr0, dc0, k0, m));
    assert(tr == sr + k0 * dr0 && tc == sc + k0 * dc0);
    let j: int = if dr0 != 0 {
        (x - sr) * dr0
    } else {
        (y - sc) * dc0
    };
    assert(1 <= j < k0 && x == sr + j * dr0 && y == sc + j * dc0) by {
        broadcast use lemma_mul_unit;

        if sr == tr && x == sr && (sc < y < tc || tc < y < sc) {
            assert(dr0 == 0);
        } else if sc == tc && y == sc && (sr < x < tr || tr < x < sr) {
            assert(dc0 == 0);
        }
    }
    assert(empty_at(b, sr + j * dr0, sc + j * dc0));
}

/// Knight moves are exactly the 8-offset L-shapes, filtered only by board
/// bounds and friendly occupancy — never by intervening pieces.
pub proof fn lemma_knight_moves(b: Board, colour: Colour, m: Move)
    requires
        m.src.row < 8,
        m.src.col < 8,
        cell(b, m.src.row as int, m.src.col as int) == Some(
            Piece { owner: colour, class: PieceClass::Knight },
        ),
    ensures
        pseudo_legal(b, colour, m) <==> {
            let dr = m.dst.row - m.src.row;
            let dc = m.dst.col - m.src.col;
            &&& knight_offset(dr, dc)
            &&& in_bounds(m.dst.row as int, m.dst.col as int)
            &&& !friend_at(b, colour, m.dst.row as int, m.dst.col as int)
            &&& m.promotion is None
        },
{
}

/// Queenside castling is generated exactly when the king is unmoved, the
/// queenside rook is castling-eligible in its home cell, and the cells
/// between them are empty; in particular a king that has moved has no
/// castle moves.
pub proof fn lemma_castle_queenside_moves(
    b: Board,
    colour: Colour,
    r: int,
    c: int,
    moved: bool,
    m: Move,
)
    requires
        in_bounds(r, c),
        cell(b, r, c) == Some(Piece { owner: colour, class: PieceClass::King(moved) }),
        move_is(m, r, c, r, c - 2, None),
    ensures
        pseudo_legal(b, colour, m) <==> (!moved && castle_queenside_ready(b, colour, r, c)),
{
    if pseudo_legal(b, colour, m) {
        assert(!king_step(b, colour, r, c, m));
        assert(!castle_kingside(b, colour, r, c, m));
    }
}

/// Kingside castling, symmetrically.
pub proof fn lemma_castle_kingside_moves(
    b: Board,
    colour: Colour,
    r: int,
    c: int,
    moved: bool,
    m: Move,
)
    requires
        in_bounds(r, c),
        cell(b, r, c) == Some(Piece { owner: colour, class: PieceClass::King(moved) }),
        move_is(m, r, c, r, c + 2, None),
    ensures
        pseudo_legal(b, colour, m) <==> (!moved && castle_kingside_ready(b, colour, r, c)),
{
    if pseudo_legal(b, colour, m) {
        assert(!king_step(b, colour, r, c, m));
        assert(!castle_queenside(b, colour, r, c, m));
    }
}

/// A pawn standing beside an enemy pawn that has just double-stepped can
/// capture it en passant, from either adjacent file.
pub proof fn lemma_en_passant_available(
    b: Board,
    colour: Colour,
    r: int,
    c: int,
    s: int,
    m: Move,
)
    requires
        in_bounds(r, c),
        cell(b, r, c) matches Some(p) && p.owner == colour && p.class matches PieceClass::Pawn(
            _,
            _,
        ),
        s == 1 || s == -1,
        in_bounds(r + pawn_dir(colour), c + s),
        cell(b, r, c + s) matches Some(q) && q.owner != colour && q.class
            matches PieceClass::Pawn(_, true),
        move_is(m, r, c, r + pawn_dir(colour), c + s, None),
    ensures
        pseudo_legal(b, colour, m),
{
    assert(pawn_en_passant(b, colour, r, c, s, m));
}

/// Once the double-step flag is cleared the en passant move disappears: a
/// diagonal pawn move to a cell holding no enemy piece, with no freshly
/// double-stepped enemy pawn beside the mover, is not generated.
pub proof fn lemma_en_passant_gone(b: Board, colour: Colour, r: int, c: int, s: int, m: Move)
    requires
        in_bounds(r, c),
        cell(b, r, c) matches Some(p) && p.owner == colour && p.class matches PieceClass::Pawn(
            _,
            _,
        ),
        s == 1 || s == -1,
        !(cell(b, r, c + s) matches Some(q) && q.owner != colour && q.class
            matches PieceClass::Pawn(_, true)),
        !enemy_at(b, colour, r + pawn_dir(colour), c + s),
        move_is(m, r, c, r + pawn_dir(colour), c + s, None),
    ensures
        !pseudo_legal(b, colour, m),
{
    if pseudo_legal(b, colour, m) {
        assert(!pawn_advance(b, colour, r, c, m));
        assert(!pawn_double(b, colour, r, c, true, m) && !pawn_double(b, colour, r, c, false, m));
        assert(!pawn_capture(b, colour, r, c, s, m));
        assert(!pawn_capture(b, colour, r, c, -s, m));
        assert(!pawn_en_passant(b, colour, r, c, s, m));
        assert(!pawn_en_passant(b, colour, r, c, -s, m));
        assert(false);
    }
}

/// A pawn advancing from its penultimate rank onto the far edge promotes:
/// exactly the moves carrying one of the four promotable classes are
/// generated, and never a non-promoting move to that rank.
pub proof fn lemma_promotion_advance(b: Board, colour: Colour, r: int, c: int, m: Move)
    requires
        in_bounds(r, c),
        cell(b, r, c) matches Some(p) && p.owner == colour && p.class matches PieceClass::Pawn(
            _,
            _,
        ),
        final_rank(r + pawn_dir(colour)),
        empty_at(b, r + pawn_dir(colour), c),
        m.src.row == r && m.src.col == c && m.dst.row == r + pawn_dir(colour) && m.dst.col == c,
    ensures
        pseudo_legal(b, colour, m) <==> (m.promotion matches Some(cl) && promo_class(cl)),
{
    if pseudo_legal(b, colour, m) {
        assert(pawn_advance(b, colour, r, c, m));
    }
}

/// A pawn capturing from its penultimate rank onto the far edge promotes
/// likewise — provided the cell beside the pawn holds no freshly
/// double-stepped enemy pawn, which would admit the separate non-promoting
/// en passant capture to the same destination.
pub proof fn lemma_promotion_capture(b: Board, colour: Colour, r: int, c: int, s: int, m: Move)
    requires
        in_bounds(r, c),
        cell(b, r, c) matches Some(p) && p.owner == colour && p.class matches PieceClass::Pawn(
            _,
            _,
        ),
        s == 1 || s == -1,
        final_rank(r + pawn_dir(colour)),
        enemy_at(b, colour, r + pawn_dir(colour), c + s),
        !(cell(b, r, c + s) matches Some(q) && q.owner != colour && q.class
            matches PieceClass::Pawn(_, true)),
        m.src.row == r && m.src.col == c && m.dst.row == r + pawn_dir(colour) && m.dst.col == c
            + s,
    ensures
        pseudo_legal(b, colour, m) <==> (m.promotion matches Some(cl) && promo_class(cl)),
{
    if pseudo_legal(b, colour, m) {
        assert(pawn_capture(b, colour, r, c, s, m));
    }
}

} // verus!
