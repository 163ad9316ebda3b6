//! A rules engine for standard chess: it holds the board state and, for a
//! given side to move, enumerates every pseudo-legal move that side's pieces
//! may make — per-piece movement geometry, sliding-piece blocking, captures,
//! and the three special moves (castling, en passant, pawn promotion).
//!
//! Move generation is a pure function of the board and the side to move; its
//! contract pins down exactly which moves are produced. Check detection,
//! legality filtering and move execution are outside this crate's scope.

pub mod board;
pub mod codec;
pub mod engine;
pub mod human_player;
pub mod laws;
pub mod moves;
pub mod piece;
pub mod rules;

pub use board::new_board;
pub use board::Board;
pub use codec::coords_to_string;
pub use codec::string_to_coords;
pub use codec::ParseError;
pub use engine::Game;
pub use human_player::HumanPlayer;
pub use moves::Move;
pub use moves::Square;
pub use piece::Colour;
pub use piece::Piece;
pub use piece::PieceClass;
