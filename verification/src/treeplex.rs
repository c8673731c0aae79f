//! The treeplex: the sequence-form encoding of one player's decision
//! tree, as a flat array of information sets over integer sequence ids.

use vstd::prelude::*;

use crate::infoset::Infoset;
use crate::player::Player;

verus! {

/// Sequence-form encoding of one player's decision tree.
///
/// Sequence ids live in `[0, num_sequences)`; the highest id is the
/// distinguished empty sequence.  The information-set array is stored
/// bottom-up: everything reachable below an information set precedes it
/// (see [`Treeplex::wf`]), which lets every algorithm over the treeplex
/// run as a single linear pass.
#[derive(Debug, Clone)]
pub struct Treeplex {
    pub player: Player,
    pub num_sequences: usize,
    pub infosets: Vec<Infoset>,

    /// For each sequence, the index range (half-open) of information
    /// sets whose parent is that sequence.  Derived data: empty until
    /// [`Treeplex::fill_seq_to_infoset_range`] is called.
    pub seq_to_infoset_id_range: Vec<(usize, usize)>,
}

impl Treeplex {
    /// All information sets are structurally sound for this number of
    /// sequences.
    pub open spec fn infosets_wf(self) -> bool {
        forall|i: int|
            0 <= i < self.infosets.len() ==> (#[trigger] self.infosets@[i]).wf(
                self.num_sequences as nat,
            )
    }

    /// Action ranges of distinct information sets never overlap.
    pub open spec fn ranges_disjoint(self) -> bool {
        forall|i: int, j: int|
            0 <= i < j < self.infosets.len() ==> ((#[trigger] self.infosets@[i]).end_sequence
                < (#[trigger] self.infosets@[j]).start_sequence || self.infosets@[j].end_sequence
                < self.infosets@[i].start_sequence)
    }

    /// Information sets sharing a parent sequence form one contiguous
    /// block of the array.
    pub open spec fn grouped_by_parent(self) -> bool {
        forall|i: int, j: int, k: int|
            0 <= i <= j <= k < self.infosets.len() && (#[trigger] self.infosets@[i]).parent_sequence
                == (#[trigger] self.infosets@[k]).parent_sequence ==> (
            #[trigger] self.infosets@[j]).parent_sequence == self.infosets@[i].parent_sequence
    }

    /// Bottom-up topological order: an information set hanging below an
    /// action of another information set precedes it in the array.
    pub open spec fn bottom_up_order(self) -> bool {
        forall|i: int, j: int|
            0 <= i < self.infosets.len() && 0 <= j < self.infosets.len()
                && (#[trigger] self.infosets@[j]).contains_seq(
                (#[trigger] self.infosets@[i]).parent_sequence as int,
            ) ==> i < j
    }

    /// The treeplex ordering invariant.  Producers of treeplexes
    /// (depth-first game-tree traversal, subgame reduction) establish
    /// it; every algorithm over a treeplex relies on it.
    pub open spec fn wf(self) -> bool {
        &&& self.num_sequences >= 1
        &&& self.infosets_wf()
        &&& self.ranges_disjoint()
        &&& self.grouped_by_parent()
        &&& self.bottom_up_order()
    }

    /// `[lo, hi)` is exactly the block of information-set indices whose
    /// parent sequence is `s`.
    pub open spec fn children_exactly(self, s: int, lo: int, hi: int) -> bool {
        forall|i: int|
            0 <= i < self.infosets.len() ==> ((lo <= i < hi) <==> (
            #[trigger] self.infosets@[i]).parent_sequence == s)
    }

    /// `ranges` maps every sequence to its exact block of child
    /// information sets.
    pub open spec fn seq_ranges_ok(self, ranges: Seq<(usize, usize)>) -> bool {
        &&& ranges.len() == self.num_sequences
        &&& forall|s: int|
            0 <= s < self.num_sequences ==> {
                &&& (#[trigger] ranges[s]).0 <= ranges[s].1 <= self.infosets.len()
                &&& self.children_exactly(s, ranges[s].0 as int, ranges[s].1 as int)
            }
    }

    /// The derived child-infoset ranges are present and correct.
    pub open spec fn seq_ranges_filled(self) -> bool {
        self.seq_ranges_ok(self.seq_to_infoset_id_range@)
    }

    /// `d` is a descendant sequence of `anc`: either `anc` itself, or a
    /// descendant of an action available at some information set whose
    /// parent is `anc`.  The `q < anc` guard is the bottom-up numbering
    /// (it holds of every well-formed treeplex) and bounds the
    /// recursion.
    pub open spec fn is_desc(self, anc: int, d: int) -> bool
        decreases anc,
    {
        d == anc || exists|i: int, q: int|
            #![trigger self.infosets@[i].contains_seq(q)]
            0 <= i < self.infosets.len() && self.infosets@[i].parent_sequence == anc
                && self.infosets@[i].contains_seq(q) && 0 <= q < anc && self.is_desc(q, d)
    }

    /// `d` is a descendant of some action available at information set
    /// `i`.
    pub open spec fn infoset_desc(self, i: int, d: int) -> bool {
        exists|q: int|
            self.infosets@[i].contains_seq(q) && 0 <= q < self.num_sequences && self.is_desc(q, d)
    }

    /// All information sets whose parent sequence is `s` lie before
    /// index `k`.
    pub open spec fn children_done(self, s: int, k: int) -> bool {
        forall|j: int|
            0 <= j < self.infosets.len() && (#[trigger] self.infosets@[j]).parent_sequence == s
                ==> j < k
    }

    /// Packs a player, a sequence count and an information-set array
    /// into a treeplex.  No validation happens here; well-formedness is
    /// a property ([`Treeplex::wf`]) that producers establish.
    pub fn new(player: Player, num_sequences: usize, infosets: Vec<Infoset>) -> (r: Treeplex)
        ensures
            r.player == player,
            r.num_sequences == num_sequences,
            r.infosets == infosets,
            r.seq_to_infoset_id_range.len() == 0,
    {
        Treeplex { player, num_sequences, infosets, seq_to_infoset_id_range: Vec::new() }
    }

    pub fn num_sequences(&self) -> (r: usize)
        ensures
            r == self.num_sequences,
    {
        self.num_sequences
    }

    pub fn num_infosets(&self) -> (r: usize)
        ensures
            r == self.infosets.len(),
    {
        self.infosets.len()
    }

    /// The id of the distinguished empty sequence: always the highest.
    pub fn empty_sequence_id(&self) -> (r: usize)
        requires
            self.num_sequences >= 1,
        ensures
            r == self.num_sequences - 1,
    {
        self.num_sequences - 1
    }

    pub fn has_sequence(&self, index: usize) -> (r: bool)
        ensures
            r == (index < self.num_sequences),
    {
        index < self.num_sequences
    }

    pub fn infosets(&self) -> (r: &Vec<Infoset>)
        ensures
            r == &self.infosets,
    {
        &self.infosets
    }

    pub fn player(&self) -> (r: Player)
        ensures
            r == self.player,
    {
        self.player
    }

    /// The block of information-set indices that immediately follow
    /// `sequence_id`.  [`Treeplex::fill_seq_to_infoset_range`] must have
    /// run first.
    pub fn seq_to_infoset_range(&self, sequence_id: usize) -> (r: (usize, usize))
        requires
            self.seq_to_infoset_id_range.len() == self.num_sequences,
            sequence_id < self.num_sequences,
        ensures
            r == self.seq_to_infoset_id_range@[sequence_id as int],
    {
        self.seq_to_infoset_id_range[sequence_id]
    }


    /// Whether one information set is structurally sound; one clause of
    /// [`Treeplex::wf`].
    fn check_infosets_wf(&self) -> (r: bool)
        ensures
            r == self.infosets_wf(),
    {
        let n_inf = self.infosets.len();
        let mut ok = true;
        let mut i: usize = 0;
        while i < n_inf
            invariant
                i <= n_inf,
                n_inf == self.infosets.len(),
                ok == (forall|a: int|
                    0 <= a < i ==> (#[trigger] self.infosets@[a]).wf(self.num_sequences as nat)),
            decreases n_inf - i,
        {
            let inf = self.infosets[i];
            let this_ok = inf.start_sequence <= inf.end_sequence && inf.end_sequence
                < inf.parent_sequence && inf.parent_sequence < self.num_sequences;
            ok = ok && this_ok;
            i = i + 1;
        }
        ok
    }

    /// Whether the action ranges are pairwise disjoint; one clause of
    /// [`Treeplex::wf`].
    fn check_ranges_disjoint(&self) -> (r: bool)
        ensures
            r == self.ranges_disjoint(),
    {
        let n_inf = self.infosets.len();
        let mut ok = true;
        let mut i: usize = 0;
        while i < n_inf
            invariant
                i <= n_inf,
                n_inf == self.infosets.len(),
                ok == (forall|a: int, b: int|
                    0 <= a < b < n_inf && a < i ==> ((#[trigger] self.infosets@[a]).end_sequence < (
                    #[trigger] self.infosets@[b]).start_sequence || self.infosets@[b].end_sequence
                        < self.infosets@[a].start_sequence)),
            decreases n_inf - i,
        {
            let mut j: usize = i + 1;
            while j < n_inf
                invariant
                    i < j <= n_inf,
                    n_inf == self.infosets.len(),
                    ok == ((forall|a: int, b: int|
                        0 <= a < b < n_inf && a < i ==> ((#[trigger] self.infosets@[a]).end_sequence
                            < (#[trigger] self.infosets@[b]).start_sequence
                            || self.infosets@[b].end_sequence < self.infosets@[a].start_sequence))
                        && (forall|b: int|
                        i < b < j ==> ((#[trigger] self.infosets@[b]).start_sequence
                            > self.infosets@[i as int].end_sequence || self.infosets@[b].end_sequence
                            < self.infosets@[i as int].start_sequence))),
                decreases n_inf - j,
            {
                let a = self.infosets[i];
                let b = self.infosets[j];
                let pair_ok = a.end_sequence < b.start_sequence || b.end_sequence
                    < a.start_sequence;
                ok = ok && pair_ok;
                j = j + 1;
            }
            i = i + 1;
        }
        ok
    }

    /// Whether same-parent blocks are contiguous; one clause of
    /// [`Treeplex::wf`].
    fn check_grouped_by_parent(&self) -> (r: bool)
        ensures
            r == self.grouped_by_parent(),
    {
        let n_inf = self.infosets.len();
        let mut ok = true;
        let mut i: usize = 0;
        while i < n_inf
            invariant
                i <= n_inf,
                n_inf == self.infosets.len(),
                ok == (forall|a: int, b: int, c: int|
                    0 <= a <= b <= c < n_inf && a < i && (
                    #[trigger] self.infosets@[a]).parent_sequence == (
                    #[trigger] self.infosets@[c]).parent_sequence ==> (
                    #[trigger] self.infosets@[b]).parent_sequence
                        == self.infosets@[a].parent_sequence),
            decreases n_inf - i,
        {
            let mut j: usize = i;
            while j < n_inf
                invariant
                    i <= j <= n_inf,
                    i < n_inf,
                    n_inf == self.infosets.len(),
                    ok == ((forall|a: int, b: int, c: int|
                        0 <= a <= b <= c < n_inf && a < i && (
                        #[trigger] self.infosets@[a]).parent_sequence == (
                        #[trigger] self.infosets@[c]).parent_sequence ==> (
                        #[trigger] self.infosets@[b]).parent_sequence
                            == self.infosets@[a].parent_sequence) && (forall|b: int, c: int|
                        i <= b <= c < n_inf && b < j && (#[trigger] self.infosets@[
                        i as int]).parent_sequence == (#[trigger] self.infosets@[c]).parent_sequence
                            ==> (#[trigger] self.infosets@[b]).parent_sequence == self.infosets@[
                            i as int].parent_sequence)),
                decreases n_inf - j,
            {
                let mut k: usize = j;
                while k < n_inf
                    invariant
                        i <= j < n_inf,
                        j <= k <= n_inf,
                        n_inf == self.infosets.len(),
                        ok == ((forall|a: int, b: int, c: int|
                            0 <= a <= b <= c < n_inf && a < i && (
                            #[trigger] self.infosets@[a]).parent_sequence == (
                            #[trigger] self.infosets@[c]).parent_sequence ==> (
                            #[trigger] self.infosets@[b]).parent_sequence
                                == self.infosets@[a].parent_sequence) && (forall|b: int, c: int|
                            i <= b <= c < n_inf && b < j && (#[trigger] self.infosets@[
                            i as int]).parent_sequence == (
                            #[trigger] self.infosets@[c]).parent_sequence ==> (
                            #[trigger] self.infosets@[b]).parent_sequence == self.infosets@[
                                i as int].parent_sequence) && (forall|c: int|
                            j <= c < k && (#[trigger] self.infosets@[i as int]).parent_sequence
                                == self.infosets@[c].parent_sequence ==> self.infosets@[
                                j as int].parent_sequence == self.infosets@[
                                i as int].parent_sequence)),
                    decreases n_inf - k,
                {
                    let pa = self.infosets[i].parent_sequence;
                    let pb = self.infosets[j].parent_sequence;
                    let pc = self.infosets[k].parent_sequence;
                    let triple_ok = pa != pc || pb == pa;
                    ok = ok && triple_ok;
                    k = k + 1;
                }
                j = j + 1;
            }
            i = i + 1;
        }
        ok
    }

    /// Whether the bottom-up topological order holds; one clause of
    /// [`Treeplex::wf`].
    fn check_bottom_up_order(&self) -> (r: bool)
        ensures
            r == self.bottom_up_order(),
    {
        let n_inf = self.infosets.len();
        let mut ok = true;
        let mut i: usize = 0;
        while i < n_inf
            invariant
                i <= n_inf,
                n_inf == self.infosets.len(),
                ok == (forall|a: int, b: int|
                    0 <= a < n_inf && 0 <= b < n_inf && a < i && (
                    #[trigger] self.infosets@[b]).contains_seq(
                        (#[trigger] self.infosets@[a]).parent_sequence as int,
                    ) ==> a < b),
            decreases n_inf - i,
        {
            let mut j: usize = 0;
            while j < n_inf
                invariant
                    i < n_inf,
                    j <= n_inf,
                    n_inf == self.infosets.len(),
                    ok == ((forall|a: int, b: int|
                        0 <= a < n_inf && 0 <= b < n_inf && a < i && (
                        #[trigger] self.infosets@[b]).contains_seq(
                            (#[trigger] self.infosets@[a]).parent_sequence as int,
                        ) ==> a < b) && (forall|b: int|
                        0 <= b < j && (#[trigger] self.infosets@[b]).contains_seq(
                            self.infosets@[i as int].parent_sequence as int,
                        ) ==> i < b)),
                decreases n_inf - j,
            {
                let p = self.infosets[i].parent_sequence;
                let b = self.infosets[j];
                let pair_ok = !(b.start_sequence <= p && p <= b.end_sequence) || i < j;
                ok = ok && pair_ok;
                j = j + 1;
            }
            i = i + 1;
        }
        ok
    }

    /// Decides the ordering invariant at run time: whether this
    /// treeplex satisfies [`Treeplex::wf`].  Consumers of untrusted
    /// input (a decoded file) call this and abort on `false`, keeping
    /// the fail-fast discipline.
    pub fn check_wf(&self) -> (r: bool)
        ensures
            r == self.wf(),
    {
        self.num_sequences >= 1 && self.check_infosets_wf() && self.check_ranges_disjoint()
            && self.check_grouped_by_parent() && self.check_bottom_up_order()
    }

    /// Computes, for every sequence, the block of information-set
    /// indices whose parent is that sequence, by one pass over the
    /// information sets, relying on same-parent blocks being contiguous.
    pub fn compute_seq_to_infoset_ranges(&self) -> (r: Vec<(usize, usize)>)
        requires
            self.wf(),
        ensures
            self.seq_ranges_ok(r@),
    {
        let n_inf = self.infosets.len();
        let mut r = crate::util::repeat(self.num_sequences, (0usize, 0usize));

        let mut i: usize = 0;
        let mut block_start: usize = 0;
        while i < n_inf
            invariant
                r.len() == self.num_sequences,
                block_start <= i <= n_inf,
                n_inf == self.infosets.len(),
                i == n_inf ==> block_start == n_inf,
                // Everything from block_start through i has the open block's parent.
                forall|k: int|
                    block_start <= k <= i && k < n_inf ==> (
                    #[trigger] self.infosets@[k]).parent_sequence == self.infosets@[
                        block_start as int].parent_sequence,
                // Nothing before block_start has the open block's parent.
                block_start < n_inf ==> forall|k: int|
                    0 <= k < block_start ==> (#[trigger] self.infosets@[k]).parent_sequence
                        != self.infosets@[block_start as int].parent_sequence,
                // Ranges written so far are exact for the scanned prefix.
                forall|s: int|
                    0 <= s < self.num_sequences ==> {
                        &&& (#[trigger] r@[s]).0 <= r@[s].1 <= block_start
                        &&& forall|k: int|
                            0 <= k < n_inf ==> ((r@[s].0 <= k < r@[s].1) <==> (k < block_start && (
                            #[trigger] self.infosets@[k]).parent_sequence == s))
                    },
            decreases n_inf - i,
        {
            let next_is_boundary = i + 1 == n_inf || self.infosets[i + 1].parent_sequence
                != self.infosets[block_start].parent_sequence;
            if next_is_boundary {
                let p = self.infosets[block_start].parent_sequence;
                assert(p < self.num_sequences);
                r.set(p, (block_start, i + 1));
                block_start = i + 1;
            }
            i = i + 1;
        }
        r
    }

    /// Fills in the sequence-to-child-infosets ranges.
    pub fn fill_seq_to_infoset_range(&mut self)
        requires
            old(self).wf(),
        ensures
            final(self).player == old(self).player,
            final(self).num_sequences == old(self).num_sequences,
            final(self).infosets == old(self).infosets,
            final(self).seq_ranges_filled(),
    {
        self.seq_to_infoset_id_range = self.compute_seq_to_infoset_ranges();
    }
}

/// Folding step of the descendant relation: a descendant of an action
/// at an information set is a descendant of that set's parent sequence.
pub proof fn lemma_desc_step(t: Treeplex, i: int, q: int, d: int)
    requires
        0 <= i < t.infosets.len(),
        t.infosets@[i].contains_seq(q),
        0 <= q < t.infosets@[i].parent_sequence,
        t.is_desc(q, d),
    ensures
        t.is_desc(t.infosets@[i].parent_sequence as int, d),
{
}

/// Unfolding step of the descendant relation: a strict descendant is
/// reached through an action of some child information set.
pub proof fn lemma_desc_unfold(t: Treeplex, anc: int, d: int) -> (r: (int, int))
    requires
        t.is_desc(anc, d),
        d != anc,
    ensures
        0 <= r.0 < t.infosets.len(),
        t.infosets@[r.0].parent_sequence == anc,
        t.infosets@[r.0].contains_seq(r.1),
        0 <= r.1 < anc,
        t.is_desc(r.1, d),
{
    choose|j: int, q: int|
        #![trigger t.infosets@[j].contains_seq(q)]
        0 <= j < t.infosets.len() && t.infosets@[j].parent_sequence == anc && t.infosets@[
            j].contains_seq(q) && 0 <= q < anc && t.is_desc(q, d)
}

/// Descendants never exceed their ancestor: the bottom-up numbering
/// puts every reachable sequence at or below the ancestor's id.
pub proof fn lemma_desc_bounds(t: Treeplex, anc: int, d: int)
    requires
        t.is_desc(anc, d),
        0 <= anc,
    ensures
        0 <= d <= anc,
    decreases anc,
{
    if d != anc {
        let (j, q) = lemma_desc_unfold(t, anc, d);
        lemma_desc_bounds(t, q, d);
    }
}

} // verus!
