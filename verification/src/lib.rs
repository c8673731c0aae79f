//! Sequence-form machinery for two-player extensive-form games with
//! imperfect information: the treeplex encoding of a player's decision
//! tree, derived index structures over it, the sparse payoff matrix,
//! subgame ("skinny") reduction, and a binary wire format for games.
//!
//! Everything here is integer-valued and deterministic.  Numeric payoff
//! and probability values travel through this crate as opaque IEEE-754
//! bit patterns; the floating-point algorithms that interpret them
//! (best response, strategy conversion, bound generation) live outside
//! the verified core.

#![verifier::loop_isolation(false)]

pub mod codec;
pub mod efg_tools;
pub mod game;
pub mod game_mapper;
pub mod game_tree;
pub mod infoset;
pub mod payoff;
pub mod player;
pub mod renumber;
pub mod subgame;
pub mod treeplex;
pub mod treeplex_builder;
pub mod treeplex_mapper;
pub mod treeplex_tools;
pub mod util;
