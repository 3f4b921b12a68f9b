//! The minimal two-player game object: player names and a turn counter.
//! It has no behavior beyond construction.

use vstd::prelude::*;

verus! {

/// A participant, known by name only.
#[derive(Debug, Clone)]
pub struct Player {
    pub name: String,
}

impl Player {
    /// A player with the given name.
    pub fn new(name: String) -> (player: Player)
        ensures
            player.name == name,
    {
        Player { name }
    }
}

/// A two-player game; game play itself is out of scope.
#[derive(Debug)]
pub struct Game {
    pub player1: Player,
    pub player2: Player,
    pub current_turn: u8,
}

impl Game {
    /// A new game between the two named players, starting at turn 1.
    pub fn new(player1_name: String, player2_name: String) -> (game: Game)
        ensures
            game.player1.name == player1_name,
            game.player2.name == player2_name,
            game.current_turn == 1,
    {
        Game {
            player1: Player::new(player1_name),
            player2: Player::new(player2_name),
            current_turn: 1,
        }
    }
}

} // verus!
