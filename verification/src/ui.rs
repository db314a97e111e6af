use crate::data::enums::{GameResult, Player};
use vstd::prelude::*;

verus! {

/// The line that tells the players how the game stands: whose turn it is while the game
/// goes on, then who won or that the game is drawn.
pub open spec fn status_line(current_player: Player, result: Option<GameResult>) -> Seq<char> {
    match result {
        None => match current_player {
            Player::Player1 => "Player1"@,
            Player::Player2 => "Player2"@,
        },
        Some(GameResult::Draw) => "Draw!"@,
        Some(GameResult::PlayerWon(Player::Player1)) => "Player1 won!!"@,
        Some(GameResult::PlayerWon(Player::Player2)) => "Player2 won!!"@,
    }
}

/// The line that tells the players how the game stands.
pub fn status_text(current_player: Player, result: Option<GameResult>) -> (text: &'static str)
    ensures
        text@ == status_line(current_player, result),
{
    match result {
        None => match current_player {
            Player::Player1 => "Player1",
            Player::Player2 => "Player2",
        },
        Some(GameResult::Draw) => "Draw!",
        Some(GameResult::PlayerWon(Player::Player1)) => "Player1 won!!",
        Some(GameResult::PlayerWon(Player::Player2)) => "Player2 won!!",
    }
}

} // verus!
