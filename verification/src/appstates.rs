//! The states of the application and of the game.
use vstd::prelude::*;

verus! {

/// Whether the application shows its menu or runs the game.
#[derive(Clone, Copy, PartialEq, Eq, Debug, Hash, Structural)]
pub enum AppState {
    InMenu,
    InGame,
}

/// Whether the game is played or edited.
#[derive(Clone, Copy, PartialEq, Eq, Debug, Hash, Structural)]
pub enum GameState {
    Game,
    Editor,
}

impl Default for AppState {
    fn default() -> (r: Self)
        ensures
            r == AppState::InMenu,
    {
        AppState::InMenu
    }
}

impl Default for GameState {
    fn default() -> (r: Self)
        ensures
            r == GameState::Game,
    {
        GameState::Game
    }
}

/// The states the menu moves to: the game, in the editor.
pub fn menu_ph() -> (r: (AppState, GameState))
    ensures
        r == (AppState::InGame, GameState::Editor),
{
    (AppState::InGame, GameState::Editor)
}

} // verus!
