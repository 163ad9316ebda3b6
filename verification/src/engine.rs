//! The move generation engine. `Game` owns the board; `get_available_moves`
//! enumerates every pseudo-legal move for one side, and `is_valid_move`
//! decides membership in that set. The generators are built from two shared
//! primitives: a single bounded step, and a repeated step in a direction
//! until blocked.

use vstd::prelude::*;

use crate::board::cell;
use crate::board::in_bounds;
use crate::board::new_board;
use crate::board::start_cell;
use crate::board::Board;
use crate::moves::Move;
use crate::moves::Square;
use crate::piece::Colour;
use crate::piece::PieceClass;
use crate::rules::bishop_move;
use crate::rules::castle_kingside;
use crate::rules::castle_kingside_ready;
use crate::rules::castle_queenside;
use crate::rules::castle_queenside_ready;
use crate::rules::empty_at;
use crate::rules::enemy_at;
use crate::rules::king_move;
use crate::rules::king_step;
use crate::rules::knight_move;
use crate::rules::step_ok;
use crate::rules::friend_at;
use crate::rules::lemma_mul_unit;
use crate::rules::lemma_slide_canonical;
use crate::rules::move_dc;
use crate::rules::move_dr;
use crate::rules::final_rank;
use crate::rules::ortho_dir;
use crate::rules::pawn_advance;
use crate::rules::pawn_capture;
use crate::rules::pawn_dir;
use crate::rules::pawn_double;
use crate::rules::pawn_en_passant;
use crate::rules::pawn_move;
use crate::rules::pseudo_legal;
use crate::rules::queen_move;
use crate::rules::rook_move;
use crate::rules::slide_dist;
use crate::rules::slide_ok;

verus! {

/// A move contained in a sequence is still contained after the sequence has
/// grown at the end.
proof fn lemma_contains_preserved(s1: Seq<Move>, s2: Seq<Move>, m: Move)
    requires
        s2.len() >= s1.len(),
        forall|i: int| 0 <= i < s1.len() ==> s2[i] == s1[i],
        s1.contains(m),
    ensures
        s2.contains(m),
{
    let idx = choose|i: int| 0 <= i < s1.len() && s1[i] == m;
    assert(s2[idx] == m);
}

/// What one call of the single-step probe did to the move list, by the
/// content of the probed cell: at most one move is appended, an appended
/// move is a legal step, and every legal step by this offset is appended.
proof fn lemma_step_outcome(
    b: Board,
    colour: Colour,
    r: int,
    c: int,
    a: int,
    d: int,
    pre: Seq<Move>,
    post: Seq<Move>,
)
    requires
        0 <= r < 8,
        0 <= c < 8,
        !in_bounds(r + a, c + d) ==> post == pre,
        empty_at(b, r + a, c + d) ==> post == pre.push(plain_move(r, c, r + a, c + d)),
        enemy_at(b, colour, r + a, c + d) ==> post == pre.push(plain_move(r, c, r + a, c + d)),
        friend_at(b, colour, r + a, c + d) ==> post == pre,
    ensures
        pre.len() <= post.len() <= pre.len() + 1,
        forall|i: int| 0 <= i < pre.len() ==> post[i] == pre[i],
        forall|i: int|
            pre.len() <= i < post.len() ==> step_ok(b, colour, r, c, a, d, #[trigger] post[i]),
        forall|m: Move| #[trigger] step_ok(b, colour, r, c, a, d, m) ==> post.contains(m),
{
    if in_bounds(r + a, c + d) && !friend_at(b, colour, r + a, c + d) {
        assert(empty_at(b, r + a, c + d) || enemy_at(b, colour, r + a, c + d));
        assert(post == pre.push(plain_move(r, c, r + a, c + d)));
        assert forall|m: Move| #[trigger] step_ok(b, colour, r, c, a, d, m) implies post.contains(
            m,
        ) by {
            assert(m == plain_move(r, c, r + a, c + d));
            assert(post[pre.len() as int] == m);
        }
    } else {
        assert(post == pre);
        assert forall|i: int|
            pre.len() <= i < post.len() implies step_ok(b, colour, r, c, a, d, #[trigger] post[i]) by {
            assert(false);
        }
    }
}

/// The quiet or capturing move from `(r, c)` to `(nr, nc)`, no promotion.
pub open spec fn plain_move(r: int, c: int, nr: int, nc: int) -> Move {
    Move {
        src: Square { row: r as usize, col: c as usize },
        dst: Square { row: nr as usize, col: nc as usize },
        promotion: None,
    }
}

/// The promoting move from `(r, c)` to `(nr, nc)`, becoming `cl`.
pub open spec fn promo_move(r: int, c: int, nr: int, nc: int, cl: PieceClass) -> Move {
    Move {
        src: Square { row: r as usize, col: c as usize },
        dst: Square { row: nr as usize, col: nc as usize },
        promotion: Some(cl),
    }
}

/// The game state the engine reads: the board. The surrounding turn loop and
/// the players live outside the engine.
pub struct Game {
    pub board: Board,
}

impl Game {
    /// A game over the standard starting position.
    pub fn new() -> (g: Game)
        ensures
            forall|r: int, c: int|
                in_bounds(r, c) ==> #[trigger] cell(g.board, r, c) == start_cell(r, c),
    {
        Game { board: new_board() }
    }

    /// The piece standing on `(r, c)`, if any.
    pub fn piece_at(&self, r: usize, c: usize) -> (p: Option<crate::piece::Piece>)
        requires
            r < 8,
            c < 8,
        ensures
            p == cell(self.board, r as int, c as int),
    {
        self.board[r][c]
    }

    /// Whether the game has ended. Game-end detection (checkmate, stalemate)
    /// is out of the engine's scope, so this is constantly false.
    pub fn is_finished(&self) -> (finished: bool)
        ensures
            !finished,
    {
        false
    }

    /// The single bounded step shared by every generator. Probes the cell
    /// `(dr, dc)` away from `(r, c)`: off the board it records nothing and
    /// does not block a slider; an empty cell records a quiet move and lets
    /// a slider continue; an enemy piece records a capture and blocks; a
    /// friendly piece records nothing and blocks.
    fn get_stepwise_move(
        &self,
        colour: Colour,
        moves: &mut Vec<Move>,
        r: usize,
        c: usize,
        r_dir: isize,
        c_dir: isize,
    ) -> (terminated: bool)
        requires
            r < 8,
            c < 8,
            -14 <= r_dir <= 14,
            -14 <= c_dir <= 14,
        ensures
            ({
                let nr = r as int + r_dir as int;
                let nc = c as int + c_dir as int;
                &&& (!in_bounds(nr, nc) ==> !terminated && final(moves)@ == old(moves)@)
                &&& (empty_at(self.board, nr, nc) ==> !terminated && final(moves)@ == old(
                    moves,
                )@.push(plain_move(r as int, c as int, nr, nc)))
                &&& (enemy_at(self.board, colour, nr, nc) ==> terminated && final(moves)@ == old(
                    moves,
                )@.push(plain_move(r as int, c as int, nr, nc)))
                &&& (friend_at(self.board, colour, nr, nc) ==> terminated && final(moves)@ == old(
                    moves,
                )@)
            }),
    {
        let new_r: isize = r as isize + r_dir;
        let new_c: isize = c as isize + c_dir;
        if new_r < 0 || new_r >= 8 || new_c < 0 || new_c >= 8 {
            return false;
        }
        match self.board[new_r as usize][new_c as usize] {
            None => {
                moves.push(
                    Move::new(
                        Square { row: r, col: c },
                        Square { row: new_r as usize, col: new_c as usize },
                    ),
                );
                false
            },
            Some(other) => {
                if other.owner != colour {
                    moves.push(
                        Move::new(
                            Square { row: r, col: c },
                            Square { row: new_r as usize, col: new_c as usize },
                        ),
                    );
                }
                true
            },
        }
    }

    /// The sliding probe shared by rook, bishop and queen: repeats the
    /// single step along one direction, stopping at the first blocked probe.
    /// Appends exactly the slides along `(r_dir, c_dir)` that `slide_ok`
    /// admits.
    fn get_linear_moves(
        &self,
        colour: Colour,
        moves: &mut Vec<Move>,
        r: usize,
        c: usize,
        r_dir: isize,
        c_dir: isize,
    )
        requires
            r < 8,
            c < 8,
            -1 <= r_dir <= 1,
            -1 <= c_dir <= 1,
            !(r_dir == 0 && c_dir == 0),
        ensures
            final(moves)@.len() >= old(moves)@.len(),
            forall|i: int| 0 <= i < old(moves)@.len() ==> final(moves)@[i] == old(moves)@[i],
            forall|i: int|
                old(moves)@.len() <= i < final(moves)@.len() ==> slide_ok(
                    self.board,
                    colour,
                    r as int,
                    c as int,
                    r_dir as int,
                    c_dir as int,
                    slide_dist(#[trigger] final(moves)@[i], r_dir as int, c_dir as int),
                    final(moves)@[i],
                ),
            forall|m: Move, k: int|
                #[trigger] slide_ok(
                    self.board,
                    colour,
                    r as int,
                    c as int,
                    r_dir as int,
                    c_dir as int,
                    k,
                    m,
                ) ==> final(moves)@.contains(m),
    {
        broadcast use lemma_mul_unit;

        let ghost br = r as int;
        let ghost bc = c as int;
        let ghost dr = r_dir as int;
        let ghost dc = c_dir as int;
        let mut i: isize = 1;
        let mut terminated: bool = false;
        let ghost mut oob_at: Option<int> = None;
        while i < 8 && !terminated
            invariant
                1 <= i <= 8,
                r < 8,
                c < 8,
                -1 <= r_dir <= 1,
                -1 <= c_dir <= 1,
                !(r_dir == 0 && c_dir == 0),
                br == r as int && bc == c as int && dr == r_dir as int && dc == c_dir as int,
                moves@.len() >= old(moves)@.len(),
                forall|ii: int| 0 <= ii < old(moves)@.len() ==> moves@[ii] == old(moves)@[ii],
                forall|ii: int|
                    old(moves)@.len() <= ii < moves@.len() ==> slide_ok(
                        self.board,
                        colour,
                        br,
                        bc,
                        dr,
                        dc,
                        slide_dist(#[trigger] moves@[ii], dr, dc),
                        moves@[ii],
                    ),
                forall|m: Move, k: int|
                    1 <= k < i && #[trigger] slide_ok(self.board, colour, br, bc, dr, dc, k, m)
                        ==> moves@.contains(m),
                !terminated && oob_at is None ==> forall|j: int|
                    1 <= j < i ==> #[trigger] empty_at(self.board, br + j * dr, bc + j * dc),
                oob_at matches Some(t) ==> 1 <= t < i && !in_bounds(br + t * dr, bc + t * dc)
                    && !terminated,
                terminated ==> forall|m: Move, k: int|
                    k >= i ==> !#[trigger] slide_ok(self.board, colour, br, bc, dr, dc, k, m),
            decreases 8 - i,
        {
            broadcast use lemma_mul_unit;

            proof {
                assert(-7 <= i as int * dr <= 7);
                assert(-7 <= i as int * dc <= 7);
            }
            let step_r: isize = i * r_dir;
            let step_c: isize = i * c_dir;
            let ghost prev = moves@;
            let ghost ki = i as int;
            let t = self.get_stepwise_move(colour, moves, r, c, step_r, step_c);
            proof {
                let nr = br + ki * dr;
                let nc = bc + ki * dc;
                if !in_bounds(nr, nc) {
                    // off the board: nothing recorded, the probe goes on
                    if oob_at is None {
                        oob_at = Some(ki);
                    }
                    assert forall|ii: int|
                        old(moves)@.len() <= ii < moves@.len() implies slide_ok(
                            self.board,
                            colour,
                            br,
                            bc,
                            dr,
                            dc,
                            slide_dist(#[trigger] moves@[ii], dr, dc),
                            moves@[ii],
                        ) by {
                        assert(moves@[ii] == prev[ii]);
                    }
                    assert forall|m: Move, k: int|
                        1 <= k < ki + 1 && #[trigger] slide_ok(
                            self.board,
                            colour,
                            br,
                            bc,
                            dr,
                            dc,
                            k,
                            m,
                        ) implies moves@.contains(m) by {
                        assert(k != ki);  // the target of a slide is on the board
                    }
                } else {
                    // on the board: a slide of exactly i steps ends here
                    match oob_at {
                        Some(t0) => {
                            // an earlier probe left the board, and leaving is
                            // monotone along a ray, contradicting in-bounds now
                            assert(!in_bounds(br + t0 * dr, bc + t0 * dc));
                            assert(false);
                        },
                        None => {},
                    }
                    if cell(self.board, nr, nc) is None {
                        assert(slide_ok(self.board, colour, br, bc, dr, dc, ki, moves@[prev.len() as int]));
                        assert forall|ii: int|
                            old(moves)@.len() <= ii < moves@.len() implies slide_ok(
                                self.board,
                                colour,
                                br,
                                bc,
                                dr,
                                dc,
                                slide_dist(#[trigger] moves@[ii], dr, dc),
                                moves@[ii],
                            ) by {
                            if ii < prev.len() {
                                assert(moves@[ii] == prev[ii]);
                            } else {
                                assert(slide_ok(self.board, colour, br, bc, dr, dc, ki, moves@[ii]));
                                assert(slide_dist(moves@[ii], dr, dc) == ki);
                            }
                        }
                        assert forall|m: Move, k: int|
                            1 <= k < ki + 1 && #[trigger] slide_ok(
                                self.board,
                                colour,
                                br,
                                bc,
                                dr,
                                dc,
                                k,
                                m,
                            ) implies moves@.contains(m) by {
                            if k < ki {
                                let idx = choose|idx: int|
                                    0 <= idx < prev.len() && prev[idx] == m;
                                assert(moves@[idx] == m);
                            } else {
                                assert(moves@[prev.len() as int] == m);
                            }
                        }
                    } else if enemy_at(self.board, colour, nr, nc) {
                        assert(slide_ok(self.board, colour, br, bc, dr, dc, ki, moves@[prev.len() as int]));
                        assert forall|ii: int|
                            old(moves)@.len() <= ii < moves@.len() implies slide_ok(
                                self.board,
                                colour,
                                br,
                                bc,
                                dr,
                                dc,
                                slide_dist(#[trigger] moves@[ii], dr, dc),
                                moves@[ii],
                            ) by {
                            if ii < prev.len() {
                                assert(moves@[ii] == prev[ii]);
                            } else {
                                assert(slide_ok(self.board, colour, br, bc, dr, dc, ki, moves@[ii]));
                                assert(slide_dist(moves@[ii], dr, dc) == ki);
                            }
                        }
                        assert forall|m: Move, k: int|
                            1 <= k < ki + 1 && #[trigger] slide_ok(
                                self.board,
                                colour,
                                br,
                                bc,
                                dr,
                                dc,
                                k,
                                m,
                            ) implies moves@.contains(m) by {
                            if k < ki {
                                let idx = choose|idx: int|
                                    0 <= idx < prev.len() && prev[idx] == m;
                                assert(moves@[idx] == m);
                            } else {
                                assert(moves@[prev.len() as int] == m);
                            }
                        }
                        assert forall|m: Move, k: int| k >= ki + 1 implies !#[trigger] slide_ok(
                            self.board,
                            colour,
                            br,
                            bc,
                            dr,
                            dc,
                            k,
                            m,
                        ) by {
                            if slide_ok(self.board, colour, br, bc, dr, dc, k, m) {
                                assert(empty_at(self.board, br + ki * dr, bc + ki * dc));
                            }
                        }
                    } else {
                        // a friendly piece blocks: nothing recorded
                        assert(friend_at(self.board, colour, nr, nc));
                        assert forall|ii: int|
                            old(moves)@.len() <= ii < moves@.len() implies slide_ok(
                                self.board,
                                colour,
                                br,
                                bc,
                                dr,
                                dc,
                                slide_dist(#[trigger] moves@[ii], dr, dc),
                                moves@[ii],
                            ) by {
                            assert(moves@[ii] == prev[ii]);
                        }
                        assert forall|m: Move, k: int| k >= ki implies !#[trigger] slide_ok(
                            self.board,
                            colour,
                            br,
                            bc,
                            dr,
                            dc,
                            k,
                            m,
                        ) by {
                            if slide_ok(self.board, colour, br, bc, dr, dc, k, m) {
                                if k > ki {
                                    assert(empty_at(self.board, br + ki * dr, bc + ki * dc));
                                }
                            }
                        }
                    }
                }
            }
            terminated = t;
            i = i + 1;
        }
        proof {
            if !terminated {
                if oob_at is Some {
                    let t0 = choose|t0: int|
                        oob_at == Some(t0) && 1 <= t0 < i && !in_bounds(br + t0 * dr, bc + t0 * dc);
                    assert forall|m: Move, k: int|
                        #[trigger] slide_ok(self.board, colour, br, bc, dr, dc, k, m) implies moves@
                        .contains(m) by {
                        if k >= i {
                            // the ray left the board at step t0 < i <= k
                            if slide_ok(self.board, colour, br, bc, dr, dc, k, m) {
                                assert(empty_at(self.board, br + t0 * dr, bc + t0 * dc));
                            }
                        }
                    }
                } else {
                    assert(i == 8);
                    assert forall|m: Move, k: int|
                        #[trigger] slide_ok(self.board, colour, br, bc, dr, dc, k, m) implies moves@
                        .contains(m) by {
                        if k >= 8 {
                            // eight or more unit steps always leave the board
                            assert(!in_bounds(br + k * dr, bc + k * dc));
                        }
                    }
                }
            }
        }
    }
    /// Rook moves: the sliding probe along the 4 orthogonal directions.
    fn get_rook_moves(&self, colour: Colour, moves: &mut Vec<Move>, r: usize, c: usize)
        requires
            r < 8,
            c < 8,
        ensures
            final(moves)@.len() >= old(moves)@.len(),
            forall|i: int| 0 <= i < old(moves)@.len() ==> final(moves)@[i] == old(moves)@[i],
            forall|i: int|
                old(moves)@.len() <= i < final(moves)@.len() ==> rook_move(
                    self.board,
                    colour,
                    r as int,
                    c as int,
                    #[trigger] final(moves)@[i],
                ),
            forall|m: Move|
                #[trigger] rook_move(self.board, colour, r as int, c as int, m)
                    ==> final(moves)@.contains(m),
    {
        let ghost br = r as int;
        let ghost bc = c as int;
        let ghost s0 = moves@;
        self.get_linear_moves(colour, moves, r, c, 1, 0);
        let ghost s1 = moves@;
        self.get_linear_moves(colour, moves, r, c, -1, 0);
        let ghost s2 = moves@;
        self.get_linear_moves(colour, moves, r, c, 0, 1);
        let ghost s3 = moves@;
        self.get_linear_moves(colour, moves, r, c, 0, -1);
        proof {
            assert forall|i: int|
                s0.len() <= i < moves@.len() implies rook_move(
                self.board,
                colour,
                br,
                bc,
                #[trigger] moves@[i],
            ) by {
                let m = moves@[i];
                if i < s1.len() {
                    assert(m == s1[i]);
                    lemma_slide_canonical(self.board, colour, br, bc, 1, 0, slide_dist(s1[i], 1, 0), m);
                } else if i < s2.len() {
                    assert(m == s2[i]);
                    lemma_slide_canonical(self.board, colour, br, bc, -1, 0, slide_dist(s2[i], -1, 0), m);
                } else if i < s3.len() {
                    assert(m == s3[i]);
                    lemma_slide_canonical(self.board, colour, br, bc, 0, 1, slide_dist(s3[i], 0, 1), m);
                } else {
                    lemma_slide_canonical(self.board, colour, br, bc, 0, -1, slide_dist(moves@[i], 0, -1), m);
                }
            }
            assert forall|m: Move|
                #[trigger] rook_move(self.board, colour, br, bc, m) implies moves@.contains(m) by {
                let dr0 = move_dr(m);
                let dc0 = move_dc(m);
                let k0 = slide_dist(m, dr0, dc0);
                assert(slide_ok(self.board, colour, br, bc, dr0, dc0, k0, m));
                if dr0 == 1 && dc0 == 0 {
                    assert(slide_ok(self.board, colour, br, bc, 1, 0, k0, m));
                    lemma_contains_preserved(s1, s2, m);
                    lemma_contains_preserved(s2, s3, m);
                    lemma_contains_preserved(s3, moves@, m);
                } else if dr0 == -1 && dc0 == 0 {
                    assert(slide_ok(self.board, colour, br, bc, -1, 0, k0, m));
                    lemma_contains_preserved(s2, s3, m);
                    lemma_contains_preserved(s3, moves@, m);
                } else if dr0 == 0 && dc0 == 1 {
                    assert(slide_ok(self.board, colour, br, bc, 0, 1, k0, m));
                    lemma_contains_preserved(s3, moves@, m);
                } else {
                    assert(slide_ok(self.board, colour, br, bc, 0, -1, k0, m));
                }
            }
        }
    }

    /// Bishop moves: the sliding probe along the 4 diagonal directions.
    fn get_bishop_moves(&self, colour: Colour, moves: &mut Vec<Move>, r: usize, c: usize)
        requires
            r < 8,
            c < 8,
        ensures
            final(moves)@.len() >= old(moves)@.len(),
            forall|i: int| 0 <= i < old(moves)@.len() ==> final(moves)@[i] == old(moves)@[i],
            forall|i: int|
                old(moves)@.len() <= i < final(moves)@.len() ==> bishop_move(
                    self.board,
                    colour,
                    r as int,
                    c as int,
                    #[trigger] final(moves)@[i],
                ),
            forall|m: Move|
                #[trigger] bishop_move(self.board, colour, r as int, c as int, m)
                    ==> final(moves)@.contains(m),
    {
        let ghost br = r as int;
        let ghost bc = c as int;
        let ghost s0 = moves@;
        self.get_linear_moves(colour, moves, r, c, 1, 1);
        let ghost s1 = moves@;
        self.get_linear_moves(colour, moves, r, c, -1, -1);
        let ghost s2 = moves@;
        self.get_linear_moves(colour, moves, r, c, -1, 1);
        let ghost s3 = moves@;
        self.get_linear_moves(colour, moves, r, c, 1, -1);
        proof {
            assert forall|i: int|
                s0.len() <= i < moves@.len() implies bishop_move(
                self.board,
                colour,
                br,
                bc,
                #[trigger] moves@[i],
            ) by {
                let m = moves@[i];
                if i < s1.len() {
                    assert(m == s1[i]);
                    lemma_slide_canonical(self.board, colour, br, bc, 1, 1, slide_dist(s1[i], 1, 1), m);
                } else if i < s2.len() {
                    assert(m == s2[i]);
                    lemma_slide_canonical(self.board, colour, br, bc, -1, -1, slide_dist(s2[i], -1, -1), m);
                } else if i < s3.len() {
                    assert(m == s3[i]);
                    lemma_slide_canonical(self.board, colour, br, bc, -1, 1, slide_dist(s3[i], -1, 1), m);
                } else {
                    lemma_slide_canonical(self.board, colour, br, bc, 1, -1, slide_dist(moves@[i], 1, -1), m);
                }
            }
            assert forall|m: Move|
                #[trigger] bishop_move(self.board, colour, br, bc, m) implies moves@.contains(m) by {
                let dr0 = move_dr(m);
                let dc0 = move_dc(m);
                let k0 = slide_dist(m, dr0, dc0);
                assert(slide_ok(self.board, colour, br, bc, dr0, dc0, k0, m));
                if dr0 == 1 && dc0 == 1 {
                    assert(slide_ok(self.board, colour, br, bc, 1, 1, k0, m));
                    lemma_contains_preserved(s1, s2, m);
                    lemma_contains_preserved(s2, s3, m);
                    lemma_contains_preserved(s3, moves@, m);
                } else if dr0 == -1 && dc0 == -1 {
                    assert(slide_ok(self.board, colour, br, bc, -1, -1, k0, m));
                    lemma_contains_preserved(s2, s3, m);
                    lemma_contains_preserved(s3, moves@, m);
                } else if dr0 == -1 && dc0 == 1 {
                    assert(slide_ok(self.board, colour, br, bc, -1, 1, k0, m));
                    lemma_contains_preserved(s3, moves@, m);
                } else {
                    assert(slide_ok(self.board, colour, br, bc, 1, -1, k0, m));
                }
            }
        }
    }

    /// Queen moves: the sliding probe along all 8 directions.
    fn get_queen_moves(&self, colour: Colour, moves: &mut Vec<Move>, r: usize, c: usize)
        requires
            r < 8,
            c < 8,
        ensures
            final(moves)@.len() >= old(moves)@.len(),
            forall|i: int| 0 <= i < old(moves)@.len() ==> final(moves)@[i] == old(moves)@[i],
            forall|i: int|
                old(moves)@.len() <= i < final(moves)@.len() ==> queen_move(
                    self.board,
                    colour,
                    r as int,
                    c as int,
                    #[trigger] final(moves)@[i],
                ),
            forall|m: Move|
                #[trigger] queen_move(self.board, colour, r as int, c as int, m)
                    ==> final(moves)@.contains(m),
    {
        let ghost br = r as int;
        let ghost bc = c as int;
        let ghost s0 = moves@;
        self.get_rook_moves(colour, moves, r, c);
        let ghost s1 = moves@;
        self.get_bishop_moves(colour, moves, r, c);
        proof {
            assert forall|i: int|
                s0.len() <= i < moves@.len() implies queen_move(
                self.board,
                colour,
                br,
                bc,
                #[trigger] moves@[i],
            ) by {
                let m = moves@[i];
                if i < s1.len() {
                    assert(m == s1[i]);
                    assert(rook_move(self.board, colour, br, bc, m));
                } else {
                    assert(bishop_move(self.board, colour, br, bc, m));
                }
            }
            assert forall|m: Move|
                #[trigger] queen_move(self.board, colour, br, bc, m) implies moves@.contains(m) by {
                if ortho_dir(move_dr(m), move_dc(m)) {
                    assert(rook_move(self.board, colour, br, bc, m));
                    lemma_contains_preserved(s1, moves@, m);
                } else {
                    assert(bishop_move(self.board, colour, br, bc, m));
                }
            }
        }
    }

    /// Knight moves: the single-step probe at each of the 8 L-shaped
    /// offsets; each offset is independent, with no blocking semantics.
    fn get_knight_moves(&self, colour: Colour, moves: &mut Vec<Move>, r: usize, c: usize)
        requires
            r < 8,
            c < 8,
        ensures
            final(moves)@.len() >= old(moves)@.len(),
            forall|i: int| 0 <= i < old(moves)@.len() ==> final(moves)@[i] == old(moves)@[i],
            forall|i: int|
                old(moves)@.len() <= i < final(moves)@.len() ==> knight_move(
                    self.board,
                    colour,
                    r as int,
                    c as int,
                    #[trigger] final(moves)@[i],
                ),
            forall|m: Move|
                #[trigger] knight_move(self.board, colour, r as int, c as int, m)
                    ==> final(moves)@.contains(m),
    {
        let ghost br = r as int;
        let ghost bc = c as int;
        let ghost s0 = moves@;
        self.get_stepwise_move(colour, moves, r, c, -2, -1);
        let ghost s1 = moves@;
        proof { lemma_step_outcome(self.board, colour, br, bc, -2, -1, s0, s1); }
        self.get_stepwise_move(colour, moves, r, c, -2, 1);
        let ghost s2 = moves@;
        proof { lemma_step_outcome(self.board, colour, br, bc, -2, 1, s1, s2); }
        self.get_stepwise_move(colour, moves, r, c, 2, -1);
        let ghost s3 = moves@;
        proof { lemma_step_outcome(self.board, colour, br, bc, 2, -1, s2, s3); }
        self.get_stepwise_move(colour, moves, r, c, 2, 1);
        let ghost s4 = moves@;
        proof { lemma_step_outcome(self.board, colour, br, bc, 2, 1, s3, s4); }
        self.get_stepwise_move(colour, moves, r, c, -1, -2);
        let ghost s5 = moves@;
        proof { lemma_step_outcome(self.board, colour, br, bc, -1, -2, s4, s5); }
        self.get_stepwise_move(colour, moves, r, c, -1, 2);
        let ghost s6 = moves@;
        proof { lemma_step_outcome(self.board, colour, br, bc, -1, 2, s5, s6); }
        self.get_stepwise_move(colour, moves, r, c, 1, -2);
        let ghost s7 = moves@;
        proof { lemma_step_outcome(self.board, colour, br, bc, 1, -2, s6, s7); }
        self.get_stepwise_move(colour, moves, r, c, 1, 2);
        let ghost s8 = moves@;
        proof { lemma_step_outcome(self.board, colour, br, bc, 1, 2, s7, s8); }
        proof {
            assert forall|i: int|
                s0.len() <= i < moves@.len() implies knight_move(
                self.board,
                colour,
                br,
                bc,
                #[trigger] moves@[i],
            ) by {
                let m = moves@[i];
                if i < s1.len() {
                    assert(m == s1[i]);
                    assert(step_ok(self.board, colour, br, bc, -2, -1, m));
                } else if i < s2.len() {
                    assert(m == s2[i]);
                    assert(step_ok(self.board, colour, br, bc, -2, 1, m));
                } else if i < s3.len() {
                    assert(m == s3[i]);
                    assert(step_ok(self.board, colour, br, bc, 2, -1, m));
                } else if i < s4.len() {
                    assert(m == s4[i]);
                    assert(step_ok(self.board, colour, br, bc, 2, 1, m));
                } else if i < s5.len() {
                    assert(m == s5[i]);
                    assert(step_ok(self.board, colour, br, bc, -1, -2, m));
                } else if i < s6.len() {
                    assert(m == s6[i]);
                    assert(step_ok(self.board, colour, br, bc, -1, 2, m));
                } else if i < s7.len() {
                    assert(m == s7[i]);
                    assert(step_ok(self.board, colour, br, bc, 1, -2, m));
                } else {
                    assert(step_ok(self.board, colour, br, bc, 1, 2, m));
                }
            }
            assert forall|m: Move|
                #[trigger] knight_move(self.board, colour, br, bc, m) implies moves@.contains(
                m,
            ) by {
                let a = m.dst.row - m.src.row;
                let d = m.dst.col - m.src.col;
                if a == -2 && d == -1 {
                    assert(step_ok(self.board, colour, br, bc, -2, -1, m));
                    assert(s1.contains(m));
                    lemma_contains_preserved(s1, s2, m);
                    lemma_contains_preserved(s2, s3, m);
                    lemma_contains_preserved(s3, s4, m);
                    lemma_contains_preserved(s4, s5, m);
                    lemma_contains_preserved(s5, s6, m);
                    lemma_contains_preserved(s6, s7, m);
                    lemma_contains_preserved(s7, s8, m);
                } else if a == -2 && d == 1 {
                    assert(step_ok(self.board, colour, br, bc, -2, 1, m));
                    assert(s2.contains(m));
                    lemma_contains_preserved(s2, s3, m);
                    lemma_contains_preserved(s3, s4, m);
                    lemma_contains_preserved(s4, s5, m);
                    lemma_contains_preserved(s5, s6, m);
                    lemma_contains_preserved(s6, s7, m);
                    lemma_contains_preserved(s7, s8, m);
                } else if a == 2 && d == -1 {
                    assert(step_ok(self.board, colour, br, bc, 2, -1, m));
                    assert(s3.contains(m));
                    lemma_contains_preserved(s3, s4, m);
                    lemma_contains_preserved(s4, s5, m);
                    lemma_contains_preserved(s5, s6, m);
                    lemma_contains_preserved(s6, s7, m);
                    lemma_contains_preserved(s7, s8, m);
                } else if a == 2 && d == 1 {
                    assert(step_ok(self.board, colour, br, bc, 2, 1, m));
                    assert(s4.contains(m));
                    lemma_contains_preserved(s4, s5, m);
                    lemma_contains_preserved(s5, s6, m);
                    lemma_contains_preserved(s6, s7, m);
                    lemma_contains_preserved(s7, s8, m);
                } else if a == -1 && d == -2 {
                    assert(step_ok(self.board, colour, br, bc, -1, -2, m));
                    assert(s5.contains(m));
                    lemma_contains_preserved(s5, s6, m);
                    lemma_contains_preserved(s6, s7, m);
                    lemma_contains_preserved(s7, s8, m);
                } else if a == -1 && d == 2 {
                    assert(step_ok(self.board, colour, br, bc, -1, 2, m));
                    assert(s6.contains(m));
                    lemma_contains_preserved(s6, s7, m);
                    lemma_contains_preserved(s7, s8, m);
                } else if a == 1 && d == -2 {
                    assert(step_ok(self.board, colour, br, bc, 1, -2, m));
                    assert(s7.contains(m));
                    lemma_contains_preserved(s7, s8, m);
                } else if a == 1 && d == 2 {
                    assert(step_ok(self.board, colour, br, bc, 1, 2, m));
                    assert(s8.contains(m));
                } else {
                    assert(false);
                }
            }
        }
    }

    /// King moves: the single-step probe at the 8 adjacent offsets, plus a
    /// castle to either side when the king is unmoved, the matching rook is
    /// castling-eligible in its home cell, and the cells between them are
    /// empty. The king's path is not checked for attacks: generation is
    /// pseudo-legal.
    fn get_king_moves(
        &self,
        colour: Colour,
        moves: &mut Vec<Move>,
        r: usize,
        c: usize,
        moved: bool,
    )
        requires
            r < 8,
            c < 8,
        ensures
            final(moves)@.len() >= old(moves)@.len(),
            forall|i: int| 0 <= i < old(moves)@.len() ==> final(moves)@[i] == old(moves)@[i],
            forall|i: int|
                old(moves)@.len() <= i < final(moves)@.len() ==> king_move(
                    self.board,
                    colour,
                    r as int,
                    c as int,
                    moved,
                    #[trigger] final(moves)@[i],
                ),
            forall|m: Move|
                #[trigger] king_move(self.board, colour, r as int, c as int, moved, m)
                    ==> final(moves)@.contains(m),
    {
        let ghost br = r as int;
        let ghost bc = c as int;
        let ghost s0 = moves@;
        self.get_stepwise_move(colour, moves, r, c, 1, 0);
        let ghost s1 = moves@;
        proof { lemma_step_outcome(self.board, colour, br, bc, 1, 0, s0, s1); }
        self.get_stepwise_move(colour, moves, r, c, -1, 0);
        let ghost s2 = moves@;
        proof { lemma_step_outcome(self.board, colour, br, bc, -1, 0, s1, s2); }
        self.get_stepwise_move(colour, moves, r, c, 0, 1);
        let ghost s3 = moves@;
        proof { lemma_step_outcome(self.board, colour, br, bc, 0, 1, s2, s3); }
        self.get_stepwise_move(colour, moves, r, c, 0, -1);
        let ghost s4 = moves@;
        proof { lemma_step_outcome(self.board, colour, br, bc, 0, -1, s3, s4); }
        self.get_stepwise_move(colour, moves, r, c, 1, 1);
        let ghost s5 = moves@;
        proof { lemma_step_outcome(self.board, colour, br, bc, 1, 1, s4, s5); }
        self.get_stepwise_move(colour, moves, r, c, -1, -1);
        let ghost s6 = moves@;
        proof { lemma_step_outcome(self.board, colour, br, bc, -1, -1, s5, s6); }
        self.get_stepwise_move(colour, moves, r, c, -1, 1);
        let ghost s7 = moves@;
        proof { lemma_step_outcome(self.board, colour, br, bc, -1, 1, s6, s7); }
        self.get_stepwise_move(colour, moves, r, c, 1, -1);
        let ghost s8 = moves@;
        proof { lemma_step_outcome(self.board, colour, br, bc, 1, -1, s7, s8); }
        // Castle left, toward the rook on column 0
        let mut can_castle_q: bool = false;
        if !moved && c >= 2 {
            let rook_home = match self.board[r][0] {
                Some(p) => p.owner == colour && matches!(p.class, PieceClass::Rook(true)),
                None => false,
            };
            if rook_home {
                let mut path_clear: bool = true;
                let mut j: usize = 1;
                while j < c
                    invariant
                        1 <= j <= c,
                        c < 8,
                        r < 8,
                        br == r as int,
                        path_clear == (forall|jj: int|
                            1 <= jj < j ==> #[trigger] cell(self.board, br, jj) is None),
                    decreases c - j,
                {
                    let ghost was_clear = path_clear;
                    let ghost old_j = j as int;
                    if self.board[r][j].is_some() {
                        path_clear = false;
                    }
                    j += 1;
                    proof {
                        if was_clear {
                            if cell(self.board, br, old_j) is Some {
                                assert(!(forall|jj: int|
                                    1 <= jj < j ==> #[trigger] cell(self.board, br, jj)
                                        is None));
                            } else {
                                assert forall|jj: int|
                                    1 <= jj < j implies #[trigger] cell(self.board, br, jj)
                                    is None by {
                                    if jj == old_j {
                                        assert(cell(self.board, br, jj) is None);
                                    }
                                }
                            }
                        } else {
                            let w = choose|jj: int|
                                1 <= jj < old_j && !(#[trigger] cell(self.board, br, jj)
                                    is None);
                            assert(!(forall|jj: int|
                                1 <= jj < j ==> #[trigger] cell(self.board, br, jj) is None));
                        }
                    }
                }
                can_castle_q = path_clear;
            }
        }
        proof {
            assert(can_castle_q == (!moved && castle_queenside_ready(self.board, colour, br, bc)));
        }
        if can_castle_q {
            moves.push(Move::new(Square { row: r, col: c }, Square { row: r, col: c - 2 }));
        }
        let ghost s9 = moves@;
        // Castle right, toward the rook on column 7
        let mut can_castle_k: bool = false;
        if !moved && c + 2 <= 7 {
            let rook_home = match self.board[r][7] {
                Some(p) => p.owner == colour && matches!(p.class, PieceClass::Rook(true)),
                None => false,
            };
            if rook_home {
                let mut path_clear: bool = true;
                let mut j: usize = c + 1;
                while j < 7
                    invariant
                        c + 1 <= j <= 7,
                        c < 8,
                        r < 8,
                        br == r as int,
                        bc == c as int,
                        path_clear == (forall|jj: int|
                            c + 1 <= jj < j ==> #[trigger] cell(self.board, br, jj) is None),
                    decreases 7 - j,
                {
                    let ghost was_clear = path_clear;
                    let ghost old_j = j as int;
                    if self.board[r][j].is_some() {
                        path_clear = false;
                    }
                    j += 1;
                    proof {
                        if was_clear {
                            if cell(self.board, br, old_j) is Some {
                                assert(!(forall|jj: int|
                                    c + 1 <= jj < j ==> #[trigger] cell(self.board, br, jj)
                                        is None));
                            } else {
                                assert forall|jj: int|
                                    c + 1 <= jj < j implies #[trigger] cell(self.board, br, jj)
                                    is None by {
                                    if jj == old_j {
                                        assert(cell(self.board, br, jj) is None);
                                    }
                                }
                            }
                        } else {
                            let w = choose|jj: int|
                                c + 1 <= jj < old_j && !(#[trigger] cell(self.board, br, jj)
                                    is None);
                            assert(!(forall|jj: int|
                                c + 1 <= jj < j ==> #[trigger] cell(self.board, br, jj) is None));
                        }
                    }
                }
                can_castle_k = path_clear;
            }
        }
        proof {
            assert(can_castle_k == (!moved && castle_kingside_ready(self.board, colour, br, bc)));
        }
        if can_castle_k {
            moves.push(Move::new(Square { row: r, col: c }, Square { row: r, col: c + 2 }));
        }
        proof {
            let ghost s10 = moves@;
            assert forall|i: int|
                s0.len() <= i < moves@.len() implies king_move(
                self.board,
                colour,
                br,
                bc,
                moved,
                #[trigger] moves@[i],
            ) by {
                let m = moves@[i];
                if i < s1.len() {
                    assert(m == s1[i]);
                    assert(step_ok(self.board, colour, br, bc, 1, 0, m));
                    assert(king_step(self.board, colour, br, bc, m));
                } else if i < s2.len() {
                    assert(m == s2[i]);
                    assert(step_ok(self.board, colour, br, bc, -1, 0, m));
                    assert(king_step(self.board, colour, br, bc, m));
                } else if i < s3.len() {
                    assert(m == s3[i]);
                    assert(step_ok(self.board, colour, br, bc, 0, 1, m));
                    assert(king_step(self.board, colour, br, bc, m));
                } else if i < s4.len() {
                    assert(m == s4[i]);
                    assert(step_ok(self.board, colour, br, bc, 0, -1, m));
                    assert(king_step(self.board, colour, br, bc, m));
                } else if i < s5.len() {
                    assert(m == s5[i]);
                    assert(step_ok(self.board, colour, br, bc, 1, 1, m));
                    assert(king_step(self.board, colour, br, bc, m));
                } else if i < s6.len() {
                    assert(m == s6[i]);
                    assert(step_ok(self.board, colour, br, bc, -1, -1, m));
                    assert(king_step(self.board, colour, br, bc, m));
                } else if i < s7.len() {
                    assert(m == s7[i]);
                    assert(step_ok(self.board, colour, br, bc, -1, 1, m));
                    assert(king_step(self.board, colour, br, bc, m));
                } else if i < s8.len() {
                    assert(m == s8[i]);
                    assert(step_ok(self.board, colour, br, bc, 1, -1, m));
                    assert(king_step(self.board, colour, br, bc, m));
                } else if i < s9.len() {
                    assert(m == s9[i]);
                    assert(m == plain_move(br, bc, br, bc - 2));
                    assert(castle_queenside(self.board, colour, br, bc, m));
                } else {
                    assert(m == plain_move(br, bc, br, bc + 2));
                    assert(castle_kingside(self.board, colour, br, bc, m));
                }
            }
            assert forall|m: Move|
                #[trigger] king_move(self.board, colour, br, bc, moved, m) implies moves@.contains(
                m,
            ) by {
                if king_step(self.board, colour, br, bc, m) {
                    let a = m.dst.row - m.src.row;
                    let d = m.dst.col - m.src.col;
                    if a == 1 && d == 0 {
                        assert(step_ok(self.board, colour, br, bc, 1, 0, m));
                        assert(s1.contains(m));
                        lemma_contains_preserved(s1, s2, m);
                        lemma_contains_preserved(s2, s3, m);
                        lemma_contains_preserved(s3, s4, m);
                        lemma_contains_preserved(s4, s5, m);
                        lemma_contains_preserved(s5, s6, m);
                        lemma_contains_preserved(s6, s7, m);
                        lemma_contains_preserved(s7, s8, m);
                        lemma_contains_preserved(s8, s9, m);
                        lemma_contains_preserved(s9, moves@, m);
                    } else if a == -1 && d == 0 {
                        assert(step_ok(self.board, colour, br, bc, -1, 0, m));
                        assert(s2.contains(m));
                        lemma_contains_preserved(s2, s3, m);
                        lemma_contains_preserved(s3, s4, m);
                        lemma_contains_preserved(s4, s5, m);
                        lemma_contains_preserved(s5, s6, m);
                        lemma_contains_preserved(s6, s7, m);
                        lemma_contains_preserved(s7, s8, m);
                        lemma_contains_preserved(s8, s9, m);
                        lemma_contains_preserved(s9, moves@, m);
                    } else if a == 0 && d == 1 {
                        assert(step_ok(self.board, colour, br, bc, 0, 1, m));
                        assert(s3.contains(m));
                        lemma_contains_preserved(s3, s4, m);
                        lemma_contains_preserved(s4, s5, m);
                        lemma_contains_preserved(s5, s6, m);
                        lemma_contains_preserved(s6, s7, m);
                        lemma_contains_preserved(s7, s8, m);
                        lemma_contains_preserved(s8, s9, m);
                        lemma_contains_preserved(s9, moves@, m);
                    } else if a == 0 && d == -1 {
                        assert(step_ok(self.board, colour, br, bc, 0, -1, m));
                        assert(s4.contains(m));
                        lemma_contains_preserved(s4, s5, m);
                        lemma_contains_preserved(s5, s6, m);
                        lemma_contains_preserved(s6, s7, m);
                        lemma_contains_preserved(s7, s8, m);
                        lemma_contains_preserved(s8, s9, m);
                        lemma_contains_preserved(s9, moves@, m);
                    } else if a == 1 && d == 1 {
                        assert(step_ok(self.board, colour, br, bc, 1, 1, m));
                        assert(s5.contains(m));
                        lemma_contains_preserved(s5, s6, m);
                        lemma_contains_preserved(s6, s7, m);
                        lemma_contains_preserved(s7, s8, m);
                        lemma_contains_preserved(s8, s9, m);
                        lemma_contains_preserved(s9, moves@, m);
                    } else if a == -1 && d == -1 {
                        assert(step_ok(self.board, colour, br, bc, -1, -1, m));
                        assert(s6.contains(m));
                        lemma_contains_preserved(s6, s7, m);
                        lemma_contains_preserved(s7, s8, m);
                        lemma_contains_preserved(s8, s9, m);
                        lemma_contains_preserved(s9, moves@, m);
                    } else if a == -1 && d == 1 {
                        assert(step_ok(self.board, colour, br, bc, -1, 1, m));
                        assert(s7.contains(m));
                        lemma_contains_preserved(s7, s8, m);
                        lemma_contains_preserved(s8, s9, m);
                        lemma_contains_preserved(s9, moves@, m);
                    } else if a == 1 && d == -1 {
                        assert(step_ok(self.board, colour, br, bc, 1, -1, m));
                        assert(s8.contains(m));
                        lemma_contains_preserved(s8, s9, m);
                        lemma_contains_preserved(s9, moves@, m);
                    } else {
                        assert(false);
                    }
                } else if !moved && castle_queenside(self.board, colour, br, bc, m) {
                    assert(m == plain_move(br, bc, br, bc - 2));
                    assert(s9 == s8.push(plain_move(br, bc, br, bc - 2)));
                    assert(s9[s8.len() as int] == m);
                    lemma_contains_preserved(s9, moves@, m);
                } else {
                    assert(!moved && castle_kingside(self.board, colour, br, bc, m));
                    assert(m == plain_move(br, bc, br, bc + 2));
                    assert(moves@ == s9.push(plain_move(br, bc, br, bc + 2)));
                    assert(moves@[s9.len() as int] == m);
                }
            }
        }
    }

    /// Appends the four promotion expansions of a pawn arriving on
    /// `(nr, nc)` from `(r, c)`: queen, knight, rook and bishop, in that
    /// order. A rook created by promotion is not castling-eligible.
    fn push_promotions(moves: &mut Vec<Move>, r: usize, c: usize, nr: usize, nc: usize)
        ensures
            final(moves)@ == old(moves)@.push(
                promo_move(r as int, c as int, nr as int, nc as int, PieceClass::Queen),
            ).push(promo_move(r as int, c as int, nr as int, nc as int, PieceClass::Knight)).push(
                promo_move(r as int, c as int, nr as int, nc as int, PieceClass::Rook(false)),
            ).push(promo_move(r as int, c as int, nr as int, nc as int, PieceClass::Bishop)),
    {
        let src = Square { row: r, col: c };
        let dst = Square { row: nr, col: nc };
        moves.push(Move::promotion(src, dst, PieceClass::Queen));
        moves.push(Move::promotion(src, dst, PieceClass::Knight));
        moves.push(Move::promotion(src, dst, PieceClass::Rook(false)));
        moves.push(Move::promotion(src, dst, PieceClass::Bishop));
    }

    /// The pawn's forward moves: the single advance, promoting on the far
    /// edge, and the initial double advance, which requires the
    /// intermediate cell to be empty as well, so a pawn cannot jump over a
    /// blocker.
    fn get_pawn_advances(
        &self,
        colour: Colour,
        moves: &mut Vec<Move>,
        r: usize,
        c: usize,
        moved: bool,
    )
        requires
            r < 8,
            c < 8,
        ensures
            final(moves)@.len() >= old(moves)@.len(),
            forall|i: int| 0 <= i < old(moves)@.len() ==> final(moves)@[i] == old(moves)@[i],
            forall|i: int|
                old(moves)@.len() <= i < final(moves)@.len() ==> pawn_advance(
                    self.board,
                    colour,
                    r as int,
                    c as int,
                    #[trigger] final(moves)@[i],
                ) || pawn_double(self.board, colour, r as int, c as int, moved, final(moves)@[i]),
            forall|m: Move|
                #[trigger] pawn_advance(self.board, colour, r as int, c as int, m)
                    ==> final(moves)@.contains(m),
            forall|m: Move|
                #[trigger] pawn_double(self.board, colour, r as int, c as int, moved, m)
                    ==> final(moves)@.contains(m),
    {
        let ghost br = r as int;
        let ghost bc = c as int;
        let ghost s0 = moves@;
        let dir: isize = match colour {
            Colour::Black => 1,
            Colour::White => -1,
        };
        proof {
            assert(dir as int == pawn_dir(colour));
        }
        let new_r: isize = r as isize + dir;
        if new_r < 0 || new_r >= 8 {
            return;
        }
        let nr = new_r as usize;
        let ghost nri = nr as int;
        if self.board[nr][c].is_none() {
            if nr == 0 || nr == 7 {
                Self::push_promotions(moves, r, c, nr, c);
            } else {
                moves.push(Move::new(Square { row: r, col: c }, Square { row: nr, col: c }));
            }
        }
        let ghost s1 = moves@;
        if !moved {
            let new_r2: isize = r as isize + 2 * dir;
            if new_r2 >= 0 && new_r2 < 8 {
                if self.board[nr][c].is_none() && self.board[new_r2 as usize][c].is_none() {
                    moves.push(
                        Move::new(
                            Square { row: r, col: c },
                            Square { row: new_r2 as usize, col: c },
                        ),
                    );
                }
            }
        }
        proof {
            assert forall|i: int|
                s0.len() <= i < moves@.len() implies pawn_advance(
                self.board,
                colour,
                br,
                bc,
                #[trigger] moves@[i],
            ) || pawn_double(self.board, colour, br, bc, moved, moves@[i]) by {
                let m = moves@[i];
                if i < s1.len() {
                    assert(moves@[i] == s1[i]);
                    assert(m == s1[i]);
                    assert(empty_at(self.board, nri, bc));
                    if final_rank(nri) {
                        let off = i - s0.len();
                        if off == 0 {
                            assert(m == promo_move(br, bc, nri, bc, PieceClass::Queen));
                        } else if off == 1 {
                            assert(m == promo_move(br, bc, nri, bc, PieceClass::Knight));
                        } else if off == 2 {
                            assert(m == promo_move(br, bc, nri, bc, PieceClass::Rook(false)));
                        } else {
                            assert(m == promo_move(br, bc, nri, bc, PieceClass::Bishop));
                        }
                    } else {
                        assert(m == plain_move(br, bc, nri, bc));
                    }
                    assert(pawn_advance(self.board, colour, br, bc, m));
                } else {
                    assert(pawn_double(self.board, colour, br, bc, moved, m));
                }
            }
            assert forall|m: Move|
                #[trigger] pawn_advance(self.board, colour, br, bc, m) implies moves@.contains(
                m,
            ) by {
                assert(empty_at(self.board, nri, bc));
                    if final_rank(nri) {
                        assert(s1 == s0.push(promo_move(br, bc, nri, bc, PieceClass::Queen)).push(
                            promo_move(br, bc, nri, bc, PieceClass::Knight),
                        ).push(promo_move(br, bc, nri, bc, PieceClass::Rook(false))).push(
                            promo_move(br, bc, nri, bc, PieceClass::Bishop),
                        ));
                        if m.promotion == Some(PieceClass::Queen) {
                            assert(s1[s0.len() as int] == m);
                        } else if m.promotion == Some(PieceClass::Knight) {
                            assert(s1[s0.len() as int + 1] == m);
                        } else if m.promotion == Some(PieceClass::Rook(false)) {
                            assert(s1[s0.len() as int + 2] == m);
                        } else {
                            assert(m.promotion == Some(PieceClass::Bishop));
                            assert(s1[s0.len() as int + 3] == m);
                        }
                    } else {
                        assert(s1 == s0.push(plain_move(br, bc, nri, bc)));
                        assert(s1[s0.len() as int] == m);
                    }
                    assert(s1.contains(m));
                lemma_contains_preserved(s1, moves@, m);
            }
            assert forall|m: Move|
                #[trigger] pawn_double(self.board, colour, br, bc, moved, m) implies moves@
                .contains(m) by {
                assert(empty_at(self.board, br + 2 * pawn_dir(colour), bc));
                assert(moves@ == s1.push(plain_move(br, bc, br + 2 * pawn_dir(colour), bc)));
                assert(moves@[s1.len() as int] == m);
            }
        }
    }

    /// The pawn's diagonal captures, toward the higher column first,
    /// promoting on the far edge.
    fn get_pawn_captures(&self, colour: Colour, moves: &mut Vec<Move>, r: usize, c: usize)
        requires
            r < 8,
            c < 8,
        ensures
            final(moves)@.len() >= old(moves)@.len(),
            forall|i: int| 0 <= i < old(moves)@.len() ==> final(moves)@[i] == old(moves)@[i],
            forall|i: int|
                old(moves)@.len() <= i < final(moves)@.len() ==> pawn_capture(
                    self.board,
                    colour,
                    r as int,
                    c as int,
                    1,
                    #[trigger] final(moves)@[i],
                ) || pawn_capture(self.board, colour, r as int, c as int, -1, final(moves)@[i]),
            forall|m: Move|
                #[trigger] pawn_capture(self.board, colour, r as int, c as int, 1, m)
                    ==> final(moves)@.contains(m),
            forall|m: Move|
                #[trigger] pawn_capture(self.board, colour, r as int, c as int, -1, m)
                    ==> final(moves)@.contains(m),
    {
        let ghost br = r as int;
        let ghost bc = c as int;
        let ghost s0 = moves@;
        let dir: isize = match colour {
            Colour::Black => 1,
            Colour::White => -1,
        };
        proof {
            assert(dir as int == pawn_dir(colour));
        }
        let new_r: isize = r as isize + dir;
        if new_r < 0 || new_r >= 8 {
            return;
        }
        let nr = new_r as usize;
        let ghost nri = nr as int;
        if c + 1 < 8 {
            let target = match self.board[nr][c + 1] {
                Some(other) => other.owner != colour,
                None => false,
            };
            if target {
                if nr == 0 || nr == 7 {
                    Self::push_promotions(moves, r, c, nr, c + 1);
                } else {
                    moves.push(
                        Move::new(Square { row: r, col: c }, Square { row: nr, col: c + 1 }),
                    );
                }
            }
        }
        let ghost s1 = moves@;
        if c >= 1 {
            let target = match self.board[nr][c - 1] {
                Some(other) => other.owner != colour,
                None => false,
            };
            if target {
                if nr == 0 || nr == 7 {
                    Self::push_promotions(moves, r, c, nr, c - 1);
                } else {
                    moves.push(
                        Move::new(Square { row: r, col: c }, Square { row: nr, col: c - 1 }),
                    );
                }
            }
        }
        proof {
            assert forall|i: int|
                s0.len() <= i < moves@.len() implies pawn_capture(
                self.board,
                colour,
                br,
                bc,
                1,
                #[trigger] moves@[i],
            ) || pawn_capture(self.board, colour, br, bc, -1, moves@[i]) by {
                let m = moves@[i];
                if i < s1.len() {
                    assert(moves@[i] == s1[i]);
                    assert(m == s1[i]);
                    assert(enemy_at(self.board, colour, nri, bc + 1));
                    if final_rank(nri) {
                        let off = i - s0.len();
                        if off == 0 {
                            assert(m == promo_move(br, bc, nri, bc + 1, PieceClass::Queen));
                        } else if off == 1 {
                            assert(m == promo_move(br, bc, nri, bc + 1, PieceClass::Knight));
                        } else if off == 2 {
                            assert(m == promo_move(br, bc, nri, bc + 1, PieceClass::Rook(false)));
                        } else {
                            assert(m == promo_move(br, bc, nri, bc + 1, PieceClass::Bishop));
                        }
                    } else {
                        assert(m == plain_move(br, bc, nri, bc + 1));
                    }
                    assert(pawn_capture(self.board, colour, br, bc, 1, m));
                } else {
                    assert(enemy_at(self.board, colour, nri, bc - 1));
                    if final_rank(nri) {
                        let off = i - s1.len();
                        if off == 0 {
                            assert(m == promo_move(br, bc, nri, bc - 1, PieceClass::Queen));
                        } else if off == 1 {
                            assert(m == promo_move(br, bc, nri, bc - 1, PieceClass::Knight));
                        } else if off == 2 {
                            assert(m == promo_move(br, bc, nri, bc - 1, PieceClass::Rook(false)));
                        } else {
                            assert(m == promo_move(br, bc, nri, bc - 1, PieceClass::Bishop));
                        }
                    } else {
                        assert(m == plain_move(br, bc, nri, bc - 1));
                    }
                    assert(pawn_capture(self.board, colour, br, bc, -1, m));
                }
            }
            assert forall|m: Move|
                #[trigger] pawn_capture(self.board, colour, br, bc, 1, m) implies moves@.contains(
                m,
            ) by {
                assert(enemy_at(self.board, colour, nri, bc + 1));
                    if final_rank(nri) {
                        assert(s1 == s0.push(promo_move(br, bc, nri, bc + 1, PieceClass::Queen)).push(
                            promo_move(br, bc, nri, bc + 1, PieceClass::Knight),
                        ).push(promo_move(br, bc, nri, bc + 1, PieceClass::Rook(false))).push(
                            promo_move(br, bc, nri, bc + 1, PieceClass::Bishop),
                        ));
                        if m.promotion == Some(PieceClass::Queen) {
                            assert(s1[s0.len() as int] == m);
                        } else if m.promotion == Some(PieceClass::Knight) {
                            assert(s1[s0.len() as int + 1] == m);
                        } else if m.promotion == Some(PieceClass::Rook(false)) {
                            assert(s1[s0.len() as int + 2] == m);
                        } else {
                            assert(m.promotion == Some(PieceClass::Bishop));
                            assert(s1[s0.len() as int + 3] == m);
                        }
                    } else {
                        assert(s1 == s0.push(plain_move(br, bc, nri, bc + 1)));
                        assert(s1[s0.len() as int] == m);
                    }
                    assert(s1.contains(m));
                lemma_contains_preserved(s1, moves@, m);
            }
            assert forall|m: Move|
                #[trigger] pawn_capture(self.board, colour, br, bc, -1, m) implies moves@.contains(
                m,
            ) by {
                assert(enemy_at(self.board, colour, nri, bc - 1));
                    if final_rank(nri) {
                        assert(moves@ == s1.push(promo_move(br, bc, nri, bc - 1, PieceClass::Queen)).push(
                            promo_move(br, bc, nri, bc - 1, PieceClass::Knight),
                        ).push(promo_move(br, bc, nri, bc - 1, PieceClass::Rook(false))).push(
                            promo_move(br, bc, nri, bc - 1, PieceClass::Bishop),
                        ));
                        if m.promotion == Some(PieceClass::Queen) {
                            assert(moves@[s1.len() as int] == m);
                        } else if m.promotion == Some(PieceClass::Knight) {
                            assert(moves@[s1.len() as int + 1] == m);
                        } else if m.promotion == Some(PieceClass::Rook(false)) {
                            assert(moves@[s1.len() as int + 2] == m);
                        } else {
                            assert(m.promotion == Some(PieceClass::Bishop));
                            assert(moves@[s1.len() as int + 3] == m);
                        }
                    } else {
                        assert(moves@ == s1.push(plain_move(br, bc, nri, bc - 1)));
                        assert(moves@[s1.len() as int] == m);
                    }
                    assert(moves@.contains(m));
            }
        }
    }

    /// The pawn's en passant captures: a diagonal move behind a
    /// neighbouring enemy pawn that has just double-stepped, toward the
    /// higher column first. The captured pawn stands beside the mover, not
    /// on the destination.
    fn get_pawn_en_passant(&self, colour: Colour, moves: &mut Vec<Move>, r: usize, c: usize)
        requires
            r < 8,
            c < 8,
        ensures
            final(moves)@.len() >= old(moves)@.len(),
            forall|i: int| 0 <= i < old(moves)@.len() ==> final(moves)@[i] == old(moves)@[i],
            forall|i: int|
                old(moves)@.len() <= i < final(moves)@.len() ==> pawn_en_passant(
                    self.board,
                    colour,
                    r as int,
                    c as int,
                    1,
                    #[trigger] final(moves)@[i],
                ) || pawn_en_passant(self.board, colour, r as int, c as int, -1, final(moves)@[i]),
            forall|m: Move|
                #[trigger] pawn_en_passant(self.board, colour, r as int, c as int, 1, m)
                    ==> final(moves)@.contains(m),
            forall|m: Move|
                #[trigger] pawn_en_passant(self.board, colour, r as int, c as int, -1, m)
                    ==> final(moves)@.contains(m),
    {
        let ghost br = r as int;
        let ghost bc = c as int;
        let ghost s0 = moves@;
        let dir: isize = match colour {
            Colour::Black => 1,
            Colour::White => -1,
        };
        proof {
            assert(dir as int == pawn_dir(colour));
        }
        let new_r: isize = r as isize + dir;
        if new_r < 0 || new_r >= 8 {
            return;
        }
        let nr = new_r as usize;
        let ghost nri = nr as int;
        if c + 1 < 8 {
            let beside = match self.board[r][c + 1] {
                Some(p) => p.owner != colour && matches!(p.class, PieceClass::Pawn(_, true)),
                None => false,
            };
            if beside {
                moves.push(Move::new(Square { row: r, col: c }, Square { row: nr, col: c + 1 }));
            }
        }
        let ghost s1 = moves@;
        if c >= 1 {
            let beside = match self.board[r][c - 1] {
                Some(p) => p.owner != colour && matches!(p.class, PieceClass::Pawn(_, true)),
                None => false,
            };
            if beside {
                moves.push(Move::new(Square { row: r, col: c }, Square { row: nr, col: c - 1 }));
            }
        }
        proof {
            assert forall|i: int|
                s0.len() <= i < moves@.len() implies pawn_en_passant(
                self.board,
                colour,
                br,
                bc,
                1,
                #[trigger] moves@[i],
            ) || pawn_en_passant(self.board, colour, br, bc, -1, moves@[i]) by {
                let m = moves@[i];
                if i < s1.len() {
                    assert(moves@[i] == s1[i]);
                    assert(m == s1[i]);
                    assert(m == plain_move(br, bc, nri, bc + 1));
                    assert(pawn_en_passant(self.board, colour, br, bc, 1, m));
                } else {
                    assert(m == plain_move(br, bc, nri, bc - 1));
                    assert(pawn_en_passant(self.board, colour, br, bc, -1, m));
                }
            }
            assert forall|m: Move|
                #[trigger] pawn_en_passant(self.board, colour, br, bc, 1, m) implies moves@
                .contains(m) by {
                assert(s1 == s0.push(plain_move(br, bc, nri, bc + 1)));
                assert(s1[s0.len() as int] == m);
                lemma_contains_preserved(s1, moves@, m);
            }
            assert forall|m: Move|
                #[trigger] pawn_en_passant(self.board, colour, br, bc, -1, m) implies moves@
                .contains(m) by {
                assert(moves@ == s1.push(plain_move(br, bc, nri, bc - 1)));
                assert(moves@[s1.len() as int] == m);
            }
        }
    }

    /// Pawn moves: the single and double advances, the diagonal captures,
    /// and en passant, in that order.
    fn get_pawn_moves(
        &self,
        colour: Colour,
        moves: &mut Vec<Move>,
        r: usize,
        c: usize,
        moved: bool,
    )
        requires
            r < 8,
            c < 8,
        ensures
            final(moves)@.len() >= old(moves)@.len(),
            forall|i: int| 0 <= i < old(moves)@.len() ==> final(moves)@[i] == old(moves)@[i],
            forall|i: int|
                old(moves)@.len() <= i < final(moves)@.len() ==> pawn_move(
                    self.board,
                    colour,
                    r as int,
                    c as int,
                    moved,
                    #[trigger] final(moves)@[i],
                ),
            forall|m: Move|
                #[trigger] pawn_move(self.board, colour, r as int, c as int, moved, m)
                    ==> final(moves)@.contains(m),
    {
        let ghost br = r as int;
        let ghost bc = c as int;
        let ghost s0 = moves@;
        self.get_pawn_advances(colour, moves, r, c, moved);
        let ghost s1 = moves@;
        self.get_pawn_captures(colour, moves, r, c);
        let ghost s2 = moves@;
        self.get_pawn_en_passant(colour, moves, r, c);
        proof {
            assert forall|i: int|
                s0.len() <= i < moves@.len() implies pawn_move(
                self.board,
                colour,
                br,
                bc,
                moved,
                #[trigger] moves@[i],
            ) by {
                let m = moves@[i];
                if i < s1.len() {
                    assert(s2[i] == s1[i]);
                    assert(moves@[i] == s2[i]);
                    assert(pawn_advance(self.board, colour, br, bc, m) || pawn_double(
                        self.board,
                        colour,
                        br,
                        bc,
                        moved,
                        m,
                    ));
                } else if i < s2.len() {
                    assert(moves@[i] == s2[i]);
                    assert(pawn_capture(self.board, colour, br, bc, 1, m) || pawn_capture(
                        self.board,
                        colour,
                        br,
                        bc,
                        -1,
                        m,
                    ));
                } else {
                    assert(pawn_en_passant(self.board, colour, br, bc, 1, m) || pawn_en_passant(
                        self.board,
                        colour,
                        br,
                        bc,
                        -1,
                        m,
                    ));
                }
            }
            assert forall|m: Move|
                #[trigger] pawn_move(self.board, colour, br, bc, moved, m) implies moves@.contains(
                m,
            ) by {
                if pawn_advance(self.board, colour, br, bc, m) || pawn_double(
                    self.board,
                    colour,
                    br,
                    bc,
                    moved,
                    m,
                ) {
                    lemma_contains_preserved(s1, s2, m);
                    lemma_contains_preserved(s2, moves@, m);
                } else if pawn_capture(self.board, colour, br, bc, 1, m) || pawn_capture(
                    self.board,
                    colour,
                    br,
                    bc,
                    -1,
                    m,
                ) {
                    lemma_contains_preserved(s2, moves@, m);
                } else {
                }
            }
        }
    }

    /// Every pseudo-legal move for `colour`: the board is scanned row-major
    /// and each piece of `colour` contributes its class's moves in a fixed
    /// direction order. The returned list contains exactly the moves that
    /// `pseudo_legal` admits.
    pub fn get_available_moves(&self, colour: Colour) -> (moves: Vec<Move>)
        ensures
            forall|i: int|
                0 <= i < moves@.len() ==> pseudo_legal(self.board, colour, #[trigger] moves@[i]),
            forall|m: Move| #[trigger] pseudo_legal(self.board, colour, m) ==> moves@.contains(m),
    {
        let mut moves: Vec<Move> = Vec::new();
        let mut r: usize = 0;
        while r < 8
            invariant
                r <= 8,
                forall|i: int|
                    0 <= i < moves@.len() ==> pseudo_legal(self.board, colour, #[trigger] moves@[i])
                        && moves@[i].src.row < r,
                forall|m: Move|
                    #[trigger] pseudo_legal(self.board, colour, m) && m.src.row < r
                        ==> moves@.contains(m),
            decreases 8 - r,
        {
            let mut c: usize = 0;
            while c < 8
                invariant
                    r < 8,
                    c <= 8,
                    forall|i: int|
                        0 <= i < moves@.len() ==> pseudo_legal(
                            self.board,
                            colour,
                            #[trigger] moves@[i],
                        ) && (moves@[i].src.row < r || (moves@[i].src.row == r && moves@[i].src.col
                            < c)),
                    forall|m: Move|
                        #[trigger] pseudo_legal(self.board, colour, m) && (m.src.row < r || (
                        m.src.row == r && m.src.col < c)) ==> moves@.contains(m),
                decreases 8 - c,
            {
                let ghost prev = moves@;
                match self.board[r][c] {
                    None => {},
                    Some(piece) => {
                        if piece.owner == colour {
                            match piece.class {
                                PieceClass::Pawn(pawn_moved, _) => self.get_pawn_moves(
                                    colour,
                                    &mut moves,
                                    r,
                                    c,
                                    pawn_moved,
                                ),
                                PieceClass::Rook(_) => self.get_rook_moves(colour, &mut moves, r, c),
                                PieceClass::Knight => self.get_knight_moves(
                                    colour,
                                    &mut moves,
                                    r,
                                    c,
                                ),
                                PieceClass::Bishop => self.get_bishop_moves(
                                    colour,
                                    &mut moves,
                                    r,
                                    c,
                                ),
                                PieceClass::Queen => self.get_queen_moves(colour, &mut moves, r, c),
                                PieceClass::King(king_moved) => self.get_king_moves(
                                    colour,
                                    &mut moves,
                                    r,
                                    c,
                                    king_moved,
                                ),
                            }
                        }
                    },
                }
                proof {
                    let br = r as int;
                    let bc = c as int;
                    assert forall|i: int|
                        0 <= i < moves@.len() implies pseudo_legal(
                        self.board,
                        colour,
                        #[trigger] moves@[i],
                    ) && (moves@[i].src.row < r || (moves@[i].src.row == r && moves@[i].src.col < c
                        + 1)) by {
                        let m = moves@[i];
                        if i < prev.len() {
                            assert(moves@[i] == prev[i]);
                        } else {
                            assert(m.src.row == br && m.src.col == bc);
                        }
                    }
                    assert forall|m: Move|
                        #[trigger] pseudo_legal(self.board, colour, m) && (m.src.row < r || (
                        m.src.row == r && m.src.col < c + 1)) implies moves@.contains(m) by {
                        if m.src.row == br && m.src.col == bc {
                        } else {
                            assert(prev.contains(m));
                            lemma_contains_preserved(prev, moves@, m);
                        }
                    }
                }
                c += 1;
            }
            r += 1;
        }
        moves
    }

    /// Whether `player_move` is a member of the set `get_available_moves`
    /// yields for `colour` — equivalently, whether it is pseudo-legal. This
    /// is the sole legality gate exposed to the surrounding turn loop.
    pub fn is_valid_move(&self, player_move: &Move, colour: Colour) -> (valid: bool)
        ensures
            valid == pseudo_legal(self.board, colour, *player_move),
    {
        let moves = self.get_available_moves(colour);
        let mut i: usize = 0;
        while i < moves.len()
            invariant
                i <= moves@.len(),
                forall|j: int|
                    0 <= j < moves@.len() ==> pseudo_legal(
                        self.board,
                        colour,
                        #[trigger] moves@[j],
                    ),
                forall|m: Move| #[trigger] pseudo_legal(self.board, colour, m) ==> moves@.contains(m),
                forall|j: int| 0 <= j < i ==> moves@[j] != *player_move,
            decreases moves@.len() - i,
        {
            if moves[i] == *player_move {
                return true;
            }
            i += 1;
        }
        proof {
            if pseudo_legal(self.board, colour, *player_move) {
                assert(moves@.contains(*player_move));
                let idx = choose|j: int| 0 <= j < moves@.len() && moves@[j] == *player_move;
                assert(false);
            }
        }
        false
    }

}

} // verus!
