//! The two players of an extensive-form game.

use vstd::prelude::*;

verus! {

/// One of the two players of the game.  By convention, in Stackelberg
/// settings `Player1` is the leader and `Player2` the follower.
#[derive(Debug, Copy, Clone, PartialEq, Eq, Structural)]
pub enum Player {
    Player1,
    Player2,
}

impl Player {
    /// The opponent of this player.
    pub fn neg(self) -> (r: Player)
        ensures
            r == self.spec_neg(),
    {
        match self {
            Player::Player1 => Player::Player2,
            Player::Player2 => Player::Player1,
        }
    }

    /// The opponent of this player, as a mathematical value.
    pub open spec fn spec_neg(self) -> Player {
        match self {
            Player::Player1 => Player::Player2,
            Player::Player2 => Player::Player1,
        }
    }
}

/// Negation is an involution: the opponent of the opponent is the
/// player itself.
pub proof fn lemma_neg_involution(p: Player)
    ensures
        p.spec_neg().spec_neg() == p,
{
}

} // verus!
