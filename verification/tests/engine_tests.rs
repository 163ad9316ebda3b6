use chess::Board;
use chess::Colour;
use chess::Game;
use chess::Move;
use chess::Piece;
use chess::PieceClass;
use chess::Square;

fn mv(sr: usize, sc: usize, dr: usize, dc: usize) -> Move {
    Move::new(Square { row: sr, col: sc }, Square { row: dr, col: dc })
}

fn pm(sr: usize, sc: usize, dr: usize, dc: usize, cl: PieceClass) -> Move {
    Move::promotion(Square { row: sr, col: sc }, Square { row: dr, col: dc }, cl)
}

fn has(moves: &[Move], m: &Move) -> bool {
    moves.iter().any(|x| x == m)
}

fn empty_board() -> Board {
    [[None; 8]; 8]
}

#[test]
fn initial_white_has_twenty_moves() {
    let game = Game::new();
    let moves = game.get_available_moves(Colour::White);
    assert_eq!(moves.len(), 20);
    let pawn_moves = moves.iter().filter(|m| m.src.row == 6).count();
    let knight_moves = moves.iter().filter(|m| m.src.row == 7).count();
    assert_eq!(pawn_moves, 16);
    assert_eq!(knight_moves, 4);
}

#[test]
fn initial_black_has_twenty_moves() {
    let game = Game::new();
    let moves = game.get_available_moves(Colour::Black);
    assert_eq!(moves.len(), 20);
}

#[test]
fn initial_pawn_single_and_double_advance() {
    let game = Game::new();
    let moves = game.get_available_moves(Colour::White);
    assert!(has(&moves, &mv(6, 4, 5, 4)));
    assert!(has(&moves, &mv(6, 4, 4, 4)));
    let black = game.get_available_moves(Colour::Black);
    assert!(has(&black, &mv(1, 4, 2, 4)));
    assert!(has(&black, &mv(1, 4, 3, 4)));
}

#[test]
fn initial_knight_moves() {
    let game = Game::new();
    let moves = game.get_available_moves(Colour::White);
    assert!(has(&moves, &mv(7, 1, 5, 0)));
    assert!(has(&moves, &mv(7, 1, 5, 2)));
    assert!(has(&moves, &mv(7, 6, 5, 5)));
    assert!(has(&moves, &mv(7, 6, 5, 7)));
}

#[test]
fn all_initial_moves_leave_their_square() {
    let game = Game::new();
    for colour in [Colour::White, Colour::Black] {
        for m in game.get_available_moves(colour) {
            assert_ne!(m.src, m.dst);
        }
    }
}

#[test]
fn knight_in_centre_has_eight_moves() {
    let mut board = empty_board();
    board[4][4] = Some(Piece::new(Colour::White, PieceClass::Knight));
    let game = Game { board };
    let moves = game.get_available_moves(Colour::White);
    assert_eq!(moves.len(), 8);
    for (dr, dc) in [(2i32, 1i32), (2, -1), (-2, 1), (-2, -1), (1, 2), (1, -2), (-1, 2), (-1, -2)]
    {
        let target = mv(4, 4, (4 + dr) as usize, (4 + dc) as usize);
        assert!(has(&moves, &target));
    }
}

#[test]
fn knight_is_never_blocked_by_intervening_pieces() {
    let mut board = empty_board();
    board[4][4] = Some(Piece::new(Colour::White, PieceClass::Knight));
    // ring the knight with friendly pawns on all 8 adjacent cells
    for r in 3..6 {
        for c in 3..6 {
            if (r, c) != (4, 4) {
                board[r][c] = Some(Piece::new(Colour::White, PieceClass::Pawn(true, false)));
            }
        }
    }
    let game = Game { board };
    let moves = game.get_available_moves(Colour::White);
    let knight_moves: Vec<&Move> = moves.iter().filter(|m| m.src == Square { row: 4, col: 4 }).collect();
    assert_eq!(knight_moves.len(), 8);
}

#[test]
fn knight_cannot_land_on_a_friend() {
    let mut board = empty_board();
    board[4][4] = Some(Piece::new(Colour::White, PieceClass::Knight));
    board[2][5] = Some(Piece::new(Colour::White, PieceClass::Pawn(true, false)));
    board[2][3] = Some(Piece::new(Colour::Black, PieceClass::Pawn(true, false)));
    let game = Game { board };
    let moves = game.get_available_moves(Colour::White);
    let from_knight: Vec<&Move> = moves.iter().filter(|m| m.src == Square { row: 4, col: 4 }).collect();
    assert_eq!(from_knight.len(), 7);
    assert!(!has(&moves, &mv(4, 4, 2, 5)));
    assert!(has(&moves, &mv(4, 4, 2, 3)));
}

#[test]
fn rook_stops_at_blockers() {
    let mut board = empty_board();
    board[4][4] = Some(Piece::new(Colour::White, PieceClass::Rook(false)));
    board[4][6] = Some(Piece::new(Colour::White, PieceClass::Pawn(true, false)));
    board[4][2] = Some(Piece::new(Colour::Black, PieceClass::Pawn(true, false)));
    let game = Game { board };
    let moves = game.get_available_moves(Colour::White);
    // to the right: only up to the cell before the friendly pawn
    assert!(has(&moves, &mv(4, 4, 4, 5)));
    assert!(!has(&moves, &mv(4, 4, 4, 6)));
    assert!(!has(&moves, &mv(4, 4, 4, 7)));
    // to the left: capture the enemy pawn, never beyond it
    assert!(has(&moves, &mv(4, 4, 4, 3)));
    assert!(has(&moves, &mv(4, 4, 4, 2)));
    assert!(!has(&moves, &mv(4, 4, 4, 1)));
    assert!(!has(&moves, &mv(4, 4, 4, 0)));
}

#[test]
fn bishop_and_queen_slide_until_blocked() {
    let mut board = empty_board();
    board[4][4] = Some(Piece::new(Colour::White, PieceClass::Bishop));
    board[2][2] = Some(Piece::new(Colour::Black, PieceClass::Knight));
    let game = Game { board };
    let moves = game.get_available_moves(Colour::White);
    assert!(has(&moves, &mv(4, 4, 3, 3)));
    assert!(has(&moves, &mv(4, 4, 2, 2)));
    assert!(!has(&moves, &mv(4, 4, 1, 1)));
    assert!(!has(&moves, &mv(4, 4, 0, 0)));

    let mut board2 = empty_board();
    board2[7][7] = Some(Piece::new(Colour::Black, PieceClass::Queen));
    let game2 = Game { board: board2 };
    let queen_moves = game2.get_available_moves(Colour::Black);
    // 7 along the row, 7 along the column, 7 along the long diagonal
    assert_eq!(queen_moves.len(), 21);
}

#[test]
fn castling_generated_when_clear_and_unmoved() {
    let mut game = Game::new();
    for c in [1, 2, 3, 5, 6] {
        game.board[7][c] = None;
    }
    let moves = game.get_available_moves(Colour::White);
    assert!(has(&moves, &mv(7, 4, 7, 2)));
    assert!(has(&moves, &mv(7, 4, 7, 6)));
}

#[test]
fn castling_gone_once_the_king_has_moved() {
    let mut game = Game::new();
    for c in [1, 2, 3, 5, 6] {
        game.board[7][c] = None;
    }
    game.board[7][4] = Some(Piece::new(Colour::White, PieceClass::King(true)));
    let moves = game.get_available_moves(Colour::White);
    assert!(!has(&moves, &mv(7, 4, 7, 2)));
    assert!(!has(&moves, &mv(7, 4, 7, 6)));
}

#[test]
fn castling_needs_an_eligible_rook() {
    let mut game = Game::new();
    for c in [1, 2, 3, 5, 6] {
        game.board[7][c] = None;
    }
    game.board[7][0] = Some(Piece::new(Colour::White, PieceClass::Rook(false)));
    let moves = game.get_available_moves(Colour::White);
    assert!(!has(&moves, &mv(7, 4, 7, 2)));
    assert!(has(&moves, &mv(7, 4, 7, 6)));
}

#[test]
fn castling_blocked_by_an_intervening_piece() {
    let mut game = Game::new();
    for c in [2, 3, 5, 6] {
        game.board[7][c] = None;
    }
    // the knight on (7, 1) still stands in the queenside path
    let moves = game.get_available_moves(Colour::White);
    assert!(!has(&moves, &mv(7, 4, 7, 2)));
    assert!(has(&moves, &mv(7, 4, 7, 6)));
}

#[test]
fn en_passant_capturable_from_either_file() {
    let mut board = empty_board();
    board[3][4] = Some(Piece::new(Colour::White, PieceClass::Pawn(true, false)));
    board[3][3] = Some(Piece::new(Colour::Black, PieceClass::Pawn(true, true)));
    let game = Game { board };
    let moves = game.get_available_moves(Colour::White);
    assert!(has(&moves, &mv(3, 4, 2, 3)));

    let mut board2 = empty_board();
    board2[3][4] = Some(Piece::new(Colour::White, PieceClass::Pawn(true, false)));
    board2[3][5] = Some(Piece::new(Colour::Black, PieceClass::Pawn(true, true)));
    let game2 = Game { board: board2 };
    let moves2 = game2.get_available_moves(Colour::White);
    assert!(has(&moves2, &mv(3, 4, 2, 5)));
}

#[test]
fn en_passant_disappears_once_the_flag_clears() {
    let mut board = empty_board();
    board[3][4] = Some(Piece::new(Colour::White, PieceClass::Pawn(true, false)));
    board[3][3] = Some(Piece::new(Colour::Black, PieceClass::Pawn(true, false)));
    let game = Game { board };
    let moves = game.get_available_moves(Colour::White);
    assert!(!has(&moves, &mv(3, 4, 2, 3)));
}

#[test]
fn promotion_by_advance_yields_exactly_four_moves() {
    let mut board = empty_board();
    board[1][0] = Some(Piece::new(Colour::White, PieceClass::Pawn(true, false)));
    let game = Game { board };
    let moves = game.get_available_moves(Colour::White);
    assert_eq!(moves.len(), 4);
    for cl in [
        PieceClass::Queen,
        PieceClass::Knight,
        PieceClass::Rook(false),
        PieceClass::Bishop,
    ] {
        assert!(has(&moves, &pm(1, 0, 0, 0, cl)));
    }
    assert!(!has(&moves, &mv(1, 0, 0, 0)));
}

#[test]
fn promotion_by_capture_yields_exactly_four_moves() {
    let mut board = empty_board();
    board[1][1] = Some(Piece::new(Colour::White, PieceClass::Pawn(true, false)));
    board[0][1] = Some(Piece::new(Colour::Black, PieceClass::Rook(false)));
    board[0][2] = Some(Piece::new(Colour::Black, PieceClass::Knight));
    let game = Game { board };
    let moves = game.get_available_moves(Colour::White);
    // the advance is blocked, so only the capture promotes
    assert_eq!(moves.len(), 4);
    for cl in [
        PieceClass::Queen,
        PieceClass::Knight,
        PieceClass::Rook(false),
        PieceClass::Bishop,
    ] {
        assert!(has(&moves, &pm(1, 1, 0, 2, cl)));
    }
    assert!(!has(&moves, &mv(1, 1, 0, 2)));
}

#[test]
fn double_advance_cannot_jump_a_blocker() {
    let mut board = empty_board();
    board[6][0] = Some(Piece::new(Colour::White, PieceClass::Pawn(false, false)));
    board[5][0] = Some(Piece::new(Colour::Black, PieceClass::Knight));
    let game = Game { board };
    let moves = game.get_available_moves(Colour::White);
    assert!(!has(&moves, &mv(6, 0, 5, 0)));
    assert!(!has(&moves, &mv(6, 0, 4, 0)));

    let mut board2 = empty_board();
    board2[6][0] = Some(Piece::new(Colour::White, PieceClass::Pawn(false, false)));
    board2[4][0] = Some(Piece::new(Colour::Black, PieceClass::Knight));
    let game2 = Game { board: board2 };
    let moves2 = game2.get_available_moves(Colour::White);
    assert!(has(&moves2, &mv(6, 0, 5, 0)));
    assert!(!has(&moves2, &mv(6, 0, 4, 0)));
}

#[test]
fn pawn_captures_only_enemies() {
    let mut board = empty_board();
    board[4][4] = Some(Piece::new(Colour::White, PieceClass::Pawn(true, false)));
    board[3][3] = Some(Piece::new(Colour::White, PieceClass::Knight));
    board[3][5] = Some(Piece::new(Colour::Black, PieceClass::Knight));
    let game = Game { board };
    let moves = game.get_available_moves(Colour::White);
    assert!(!has(&moves, &mv(4, 4, 3, 3)));
    assert!(has(&moves, &mv(4, 4, 3, 5)));
}

#[test]
fn is_valid_move_agrees_with_the_generated_set() {
    let game = Game::new();
    let moves = game.get_available_moves(Colour::White);
    for m in &moves {
        assert!(game.is_valid_move(m, Colour::White));
        assert!(!game.is_valid_move(m, Colour::Black));
    }
    assert!(!game.is_valid_move(&mv(6, 4, 3, 4), Colour::White));
    assert!(!game.is_valid_move(&mv(7, 0, 5, 0), Colour::White));
}

#[test]
fn new_game_sets_up_the_standard_position() {
    let game = Game::new();
    assert_eq!(game.piece_at(0, 0), Some(Piece::new(Colour::Black, PieceClass::Rook(true))));
    assert_eq!(game.piece_at(0, 4), Some(Piece::new(Colour::Black, PieceClass::King(false))));
    assert_eq!(game.piece_at(1, 3), Some(Piece::new(Colour::Black, PieceClass::Pawn(false, false))));
    assert_eq!(game.piece_at(6, 3), Some(Piece::new(Colour::White, PieceClass::Pawn(false, false))));
    assert_eq!(game.piece_at(7, 3), Some(Piece::new(Colour::White, PieceClass::Queen)));
    assert_eq!(game.piece_at(7, 4), Some(Piece::new(Colour::White, PieceClass::King(false))));
    assert_eq!(game.piece_at(4, 4), None);
    assert!(!game.is_finished());
}

#[test]
fn is_valid_move_rejects_off_board_squares() {
    let game = Game::new();
    let m = Move::new(Square { row: 6, col: 4 }, Square { row: 9, col: 9 });
    assert!(!game.is_valid_move(&m, Colour::White));
    let m2 = Move::new(Square { row: 12, col: 0 }, Square { row: 11, col: 0 });
    assert!(!game.is_valid_move(&m2, Colour::White));
}
