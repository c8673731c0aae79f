//! Information sets: the basic building block of a treeplex.

use vstd::prelude::*;

verus! {

/// An information set of one player.
///
/// `[start_sequence, end_sequence]` is the contiguous, inclusive range
/// of sequence ids reachable by taking one action at this information
/// set; `parent_sequence` is the sequence the player was committed to
/// when the information set was reached.
#[derive(Debug, Copy, Clone, PartialEq, Eq, Structural)]
pub struct Infoset {
    pub parent_sequence: usize,
    pub start_sequence: usize,
    pub end_sequence: usize,
}

impl Infoset {
    /// Packs the three sequence ids into an information set.
    pub fn new(parent_sequence: usize, start_sequence: usize, end_sequence: usize) -> (r: Infoset)
        ensures
            r.parent_sequence == parent_sequence,
            r.start_sequence == start_sequence,
            r.end_sequence == end_sequence,
    {
        Infoset { parent_sequence, start_sequence, end_sequence }
    }

    /// Structural sanity of one information set within a treeplex of
    /// `num_sequences` sequences: the action range is non-empty and
    /// ordered, and it lies strictly below the parent sequence, which
    /// is itself a valid sequence id.  `end < parent` is the bottom-up
    /// numbering convention: a sequence's id exceeds the ids of all
    /// sequences reachable after playing it.
    pub open spec fn wf(self, num_sequences: nat) -> bool {
        &&& self.start_sequence <= self.end_sequence
        &&& self.end_sequence < self.parent_sequence
        &&& self.parent_sequence < num_sequences
    }

    /// Whether sequence `seq` is one of the actions at this infoset.
    pub open spec fn contains_seq(self, seq: int) -> bool {
        self.start_sequence <= seq <= self.end_sequence
    }
}

} // verus!
