//! The sparse sequence-form payoff matrix.
//!
//! Each entry is one (possibly chance-weighted) leaf of the joint game
//! tree, keyed by the pair of terminal sequences.  The three numeric
//! fields carry IEEE-754 double-precision values as raw bit patterns:
//! this crate stores, reorders and transports them exactly, while the
//! floating-point arithmetic that interprets them (flattening of
//! duplicate entries, gradients) lives outside the verified core.

use vstd::prelude::*;

verus! {

/// One leaf of the joint game tree: the two terminal sequences, the
/// accumulated chance probability, and both players' payoffs.  The
/// `chance_factor` and payoff fields hold IEEE-754 bit patterns.
#[derive(Debug, Copy, Clone, PartialEq, Eq, Structural)]
pub struct PayoffMatrixEntry {
    pub seq_pl1: usize,
    pub seq_pl2: usize,
    pub chance_factor: u64,
    pub payoff_pl1: u64,
    pub payoff_pl2: u64,
}

impl PayoffMatrixEntry {
    pub fn new(
        seq_pl1: usize,
        seq_pl2: usize,
        chance_factor: u64,
        payoff_pl1: u64,
        payoff_pl2: u64,
    ) -> (r: PayoffMatrixEntry)
        ensures
            r == (PayoffMatrixEntry { seq_pl1, seq_pl2, chance_factor, payoff_pl1, payoff_pl2 }),
    {
        PayoffMatrixEntry { seq_pl1, seq_pl2, chance_factor, payoff_pl1, payoff_pl2 }
    }
}

/// The sparse payoff matrix: a flat list of leaf entries.
///
/// Producers are expected to hand over at most one entry per
/// `(seq_pl1, seq_pl2)` pair (duplicate leaves are merged by the
/// numeric flattening step outside the verified core) and, when the
/// game carries subgame labels, to keep each subgame's leaves
/// contiguous.
#[derive(Debug, Clone)]
pub struct PayoffMatrix {
    pub entries: Vec<PayoffMatrixEntry>,
}

impl PayoffMatrix {
    /// At most one entry per sequence pair.
    pub open spec fn pairs_unique(self) -> bool {
        forall|a: int, b: int|
            0 <= a < b < self.entries.len() ==> !((#[trigger] self.entries@[a]).seq_pl1
                == (#[trigger] self.entries@[b]).seq_pl1 && self.entries@[a].seq_pl2
                == self.entries@[b].seq_pl2)
    }

    /// Every entry's sequences are valid ids for the two treeplex
    /// sizes.
    pub open spec fn seqs_bounded(self, num_seqs_pl1: nat, num_seqs_pl2: nat) -> bool {
        forall|a: int|
            0 <= a < self.entries.len() ==> (#[trigger] self.entries@[a]).seq_pl1 < num_seqs_pl1
                && self.entries@[a].seq_pl2 < num_seqs_pl2
    }

    pub fn new(entries: Vec<PayoffMatrixEntry>) -> (r: PayoffMatrix)
        ensures
            r.entries == entries,
    {
        PayoffMatrix { entries }
    }
}

} // verus!
