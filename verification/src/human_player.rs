//! The human player's engine-side state: the colour the player has been
//! assigned. Console interaction — rendering the board, prompting for and
//! reading moves — lives in the program around the library, which holds one
//! of these per seat.

use vstd::prelude::*;

use crate::piece::Colour;

verus! {

/// A human player, holding the colour it plays. New players start as
/// Black; the game assigns the real colour when it seats them.
pub struct HumanPlayer {
    pub colour: Colour,
}

impl HumanPlayer {
    pub fn new() -> (p: HumanPlayer)
        ensures
            p.colour == Colour::Black,
    {
        HumanPlayer { colour: Colour::Black }
    }

    /// Assigns the colour this player plays.
    pub fn set_colour(&mut self, colour: Colour)
        ensures
            final(self).colour == colour,
    {
        self.colour = colour;
    }

    /// The colour this player plays.
    pub fn get_colour(&self) -> (colour: Colour)
        ensures
            colour == self.colour,
    {
        self.colour
    }
}

} // verus!
