//! Vocabulary of the game-tree provider interface: who moves at a
//! vertex, and how a player's partial sequence is named during
//! traversal.  Game generators speak these types; the traversal that
//! consumes them lives outside the verified core.

use vstd::prelude::*;

use crate::player::Player;

verus! {

/// Who moves at a vertex: chance, or one of the two players.
#[derive(Debug, Clone, Copy, PartialEq, Eq, Structural)]
pub enum ChanceOrPlayer {
    Player(Player),
    Chance,
}

/// A player's partial sequence during traversal: nothing played yet,
/// or one (information set index, action index) pair.
#[derive(Debug, PartialOrd, Ord, PartialEq, Eq, Clone, Copy)]
pub enum SequenceOrEmpty {
    Empty,
    Sequence((usize, usize)),
}

} // verus!
