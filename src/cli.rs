//! Command-line options of the game.
use vstd::prelude::*;

verus! {

/// The options the game is started with.
#[derive(Clone, Debug, PartialEq, Eq, Default)]
pub struct CliArgs {
    /// Address to listen on, if any.
    pub listen_address: Option<String>,
}

} // verus!
