use vstd::prelude::*;

verus! {

/// Where a session stands in its turn.
///
/// A turn runs `Input`, `Calculate`, `Movement`, `Spawn` and comes back to
/// `Input`, unless the board is then full with nothing left to merge: the
/// session ends in `GameOver` and stays there.
#[derive(Clone, Copy, PartialEq, Eq, Structural, Debug, Hash)]
pub enum GameState {
    Input,
    Calculate,
    Movement,
    Spawn,
    GameOver,
}

impl Default for GameState {
    fn default() -> (state: Self)
        ensures
            state == GameState::Input,
    {
        GameState::Input
    }
}

} // verus!
