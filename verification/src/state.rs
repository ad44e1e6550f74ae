//! The phases the game goes through.
use vstd::prelude::*;

verus! {

/// The phase the game is in.
#[derive(Clone, Copy, Debug, PartialEq, Eq, Structural)]
pub enum AppState {
    /// Loading textures and the block registry.
    Loading,
    /// The world selector.
    MainMenu,
    /// In a world.
    Playing,
}

impl Default for AppState {
    fn default() -> (s: Self)
        ensures
            s == AppState::Loading,
    {
        AppState::Loading
    }
}

} // verus!
