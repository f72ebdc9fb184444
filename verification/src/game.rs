//! The game's overall state and how it ends.

use vstd::prelude::*;

verus! {

/// The phases of a game.
#[derive(Clone, Copy, PartialEq, Eq, Debug, Structural)]
pub enum GameState {
    Begin,
    PlayerTurn,
    EnemyTurn,
    Win,
    Lose,
}

/// A game starts with the player's turn.
pub fn start() -> (next: GameState)
    ensures
        next == GameState::PlayerTurn,
{
    GameState::PlayerTurn
}

/// The game is won once no enemy is left and lost once no player unit is
/// left; when both sides are gone the win prevails. `None`: it goes on.
pub fn check_win(players: usize, enemies: usize) -> (next: Option<GameState>)
    ensures
        next == (if enemies == 0 {
            Some(GameState::Win)
        } else if players == 0 {
            Some(GameState::Lose)
        } else {
            None
        }),
{
    let mut next = None;
    if players == 0 {
        next = Some(GameState::Lose);
    }
    if enemies == 0 {
        next = Some(GameState::Win);
    }
    next
}

} // verus!
