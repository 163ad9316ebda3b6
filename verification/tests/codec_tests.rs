use chess::coords_to_string;
use chess::string_to_coords;
use chess::Colour;
use chess::HumanPlayer;
use chess::ParseError;

#[test]
fn coords_render_as_file_letter_then_row_digit() {
    assert_eq!(coords_to_string(6, 4), "e6");
    assert_eq!(coords_to_string(0, 0), "a0");
    assert_eq!(coords_to_string(7, 7), "h7");
    assert_eq!(coords_to_string(3, 2), "c3");
}

#[test]
fn parsing_reads_the_file_then_the_rank() {
    assert_eq!(string_to_coords("e6"), Ok((6, 4)));
    assert_eq!(string_to_coords("a0"), Ok((0, 0)));
    assert_eq!(string_to_coords("h7"), Ok((7, 7)));
}

#[test]
fn round_trip_holds_for_every_square() {
    for r in 0..8 {
        for c in 0..8 {
            assert_eq!(string_to_coords(&coords_to_string(r, c)), Ok((r, c)));
        }
    }
}

#[test]
fn bad_file_letter_is_reported() {
    assert_eq!(string_to_coords("x5"), Err(ParseError::InvalidFile));
    assert_eq!(string_to_coords("A5"), Err(ParseError::InvalidFile));
}

#[test]
fn bad_rank_is_reported_and_takes_precedence() {
    assert_eq!(string_to_coords("ax"), Err(ParseError::InvalidRank));
    assert_eq!(string_to_coords("a"), Err(ParseError::InvalidRank));
    assert_eq!(string_to_coords(""), Err(ParseError::InvalidRank));
    // an unreadable rank is reported even when the file is bad too
    assert_eq!(string_to_coords("zx"), Err(ParseError::InvalidRank));
    // a rank too large for the machine is an invalid rank
    assert_eq!(
        string_to_coords("a99999999999999999999999999999"),
        Err(ParseError::InvalidRank)
    );
}

#[test]
fn parsed_ranks_are_not_range_checked() {
    // callers must bound-check before indexing the board
    assert_eq!(string_to_coords("a9"), Ok((9, 0)));
    assert_eq!(string_to_coords("b12"), Ok((12, 1)));
}

#[test]
fn players_hold_their_assigned_colour() {
    let mut player = HumanPlayer::new();
    assert_eq!(player.get_colour(), Colour::Black);
    player.set_colour(Colour::White);
    assert_eq!(player.get_colour(), Colour::White);
}
