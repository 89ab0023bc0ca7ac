//! Small rules of play: stepping a looping animation and pausing.
use vstd::prelude::*;

verus! {

/// The frame shown after frame `index` of an animation that loops over the
/// frames `first..=last`: the next one, or `first` once `last` is reached.
pub fn next_frame(index: usize, first: usize, last: usize) -> (r: usize)
    ensures
        index >= last ==> r == first,
        index < last ==> r == index + 1,
{
    if index >= last {
        first
    } else {
        index + 1
    }
}

/// Whether play is running or paused.
#[derive(Clone, Copy, Debug, PartialEq, Eq, Hash, Structural)]
pub enum GameState {
    Running,
    Paused,
}

impl GameState {
    /// The state after the pause key is pressed: running and paused swap.
    pub fn toggled(self) -> (r: GameState)
        ensures
            self == GameState::Running ==> r == GameState::Paused,
            self == GameState::Paused ==> r == GameState::Running,
    {
        match self {
            GameState::Running => GameState::Paused,
            GameState::Paused => GameState::Running,
        }
    }
}

} // verus!
