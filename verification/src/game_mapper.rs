//! The pair of treeplex mappers describing one subgame reduction: one
//! packing per player.

use vstd::prelude::*;

use crate::treeplex_mapper::TreeplexMapper;

verus! {

/// Mapping from the full game to the skinny game of one subgame.  By
/// convention the leader is player 1 and the follower player 2.
#[derive(Debug)]
pub struct GameMapper {
    pub mapper_leader: TreeplexMapper,
    pub mapper_follower: TreeplexMapper,
}

impl GameMapper {
    pub fn new(mapper_leader: TreeplexMapper, mapper_follower: TreeplexMapper) -> (r: GameMapper)
        ensures
            r.mapper_leader == mapper_leader,
            r.mapper_follower == mapper_follower,
    {
        GameMapper { mapper_leader, mapper_follower }
    }
}

} // verus!
