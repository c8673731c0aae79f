//! Derived, precomputed indices over a treeplex: child-infoset ranges,
//! descendant-sequence ranges, and parent information sets.  All are
//! pure functions of the treeplex, computed by single linear passes
//! that rely on the bottom-up ordering invariant.

use vstd::prelude::*;

use crate::treeplex::Treeplex;
use crate::treeplex::lemma_desc_step;
use crate::treeplex::lemma_desc_unfold;

verus! {

/// `under[s]` bounds are plausible partial results: each range contains
/// its own sequence and both endpoints are genuine descendants.
pub open spec fn under_seqs_partial(t: Treeplex, under: Seq<(usize, usize)>) -> bool {
    &&& under.len() == t.num_sequences
    &&& forall|s: int|
        0 <= s < t.num_sequences ==> {
            &&& (#[trigger] under[s]).0 <= s <= under[s].1
            &&& t.is_desc(s, under[s].0 as int)
            &&& t.is_desc(s, under[s].1 as int)
        }
}

/// For every already-processed information set `j < k`, the range
/// recorded at its parent sequence covers all of `j`'s descendants.
pub open spec fn under_seqs_covers(t: Treeplex, under: Seq<(usize, usize)>, k: int) -> bool {
    forall|j: int, d: int|
        0 <= j < k && #[trigger] t.infoset_desc(j, d) ==> under[t.infosets@[
            j].parent_sequence as int].0 <= d <= under[t.infosets@[j].parent_sequence as int].1
}

/// The first `k` entries of `ui` are the exact descendant-sequence
/// ranges of the first `k` information sets.
pub open spec fn under_infosets_exact(t: Treeplex, ui: Seq<(usize, usize)>, k: int) -> bool {
    forall|j: int|
        0 <= j < k ==> {
            &&& t.infoset_desc(j, (#[trigger] ui[j]).0 as int)
            &&& t.infoset_desc(j, ui[j].1 as int)
            &&& forall|d: int| #[trigger] t.infoset_desc(j, d) ==> ui[j].0 <= d <= ui[j].1
        }
}

/// `under[s]` is the exact (minimum, maximum) over all descendant
/// sequences of `s`, for every sequence.
pub open spec fn under_seqs_exact(t: Treeplex, under: Seq<(usize, usize)>) -> bool {
    &&& under_seqs_partial(t, under)
    &&& forall|s: int, d: int|
        0 <= s < t.num_sequences && #[trigger] t.is_desc(s, d) ==> under[s].0 <= d <= under[s].1
}

/// `parents[s]` names the information set whose action range contains
/// `s`, or `None` for the empty sequence and other rootward sequences.
pub open spec fn parent_infosets_ok(t: Treeplex, parents: Seq<Option<usize>>) -> bool {
    &&& parents.len() == t.num_sequences
    &&& forall|s: int|
        0 <= s < t.num_sequences ==> {
            &&& ((#[trigger] parents[s]) matches Some(pi) ==> 0 <= pi < t.infosets.len()
                && t.infosets@[pi as int].contains_seq(s))
            &&& (parents[s] is None ==> forall|j: int|
                0 <= j < t.infosets.len() ==> !(#[trigger] t.infosets@[j]).contains_seq(s))
        }
}

/// If sequence `w` is an action of information set `i`, and the ranges
/// at the parents of all information sets before `i` already cover
/// their descendants, then the range at `w` covers every descendant of
/// `w`.  This is the one-step completeness argument behind the linear
/// bottom-up pass: all of `w`'s child information sets precede `i`.
proof fn lemma_desc_in_under_range(
    t: Treeplex,
    under: Seq<(usize, usize)>,
    i: int,
    w: int,
    d: int,
)
    requires
        t.wf(),
        under_seqs_partial(t, under),
        under_seqs_covers(t, under, i),
        0 <= i < t.infosets.len(),
        t.infosets@[i].contains_seq(w),
        t.is_desc(w, d),
    ensures
        under[w].0 <= d <= under[w].1,
{
    assert(0 <= w < t.num_sequences);
    if d != w {
        let (j, q) = lemma_desc_unfold(t, w, d);
        // The child information set j hangs below an action of i, so it
        // precedes i in the bottom-up order.
        assert(j < i);
        assert(t.infoset_desc(j, d));
    }
}

/// The recorded descendant range of an information set is an ordered
/// pair of valid sequence ids.
pub proof fn lemma_under_infoset_range_valid(t: Treeplex, ui: Seq<(usize, usize)>, i: int)
    requires
        t.wf(),
        under_infosets_exact(t, ui, ui.len() as int),
        0 <= i < ui.len(),
        ui.len() == t.infosets.len(),
    ensures
        0 <= ui[i].0 <= ui[i].1 < t.num_sequences,
{
    let lo = ui[i].0 as int;
    let hi = ui[i].1 as int;
    let qlo = choose|q: int|
        t.infosets@[i].contains_seq(q) && 0 <= q < t.num_sequences && t.is_desc(q, lo);
    let qhi = choose|q: int|
        t.infosets@[i].contains_seq(q) && 0 <= q < t.num_sequences && t.is_desc(q, hi);
    crate::treeplex::lemma_desc_bounds(t, qlo, lo);
    crate::treeplex::lemma_desc_bounds(t, qhi, hi);
    assert(t.is_desc(lo, lo));
}

/// Precomputed lookup tables over one treeplex, built once by
/// [`TreeplexTools::new`] and read-only afterwards.
#[derive(Debug)]
pub struct TreeplexTools {
    pub num_sequences: usize,
    pub num_infosets: usize,

    /// For each sequence, the block of information-set indices whose
    /// parent is that sequence.
    pub seq_to_infoset_id_range: Vec<(usize, usize)>,

    /// Minimum and maximum descendant sequence id under each infoset.
    pub seqs_under_infosets: Vec<(usize, usize)>,

    /// Minimum and maximum descendant sequence id under each sequence.
    pub seqs_under_seqs: Vec<(usize, usize)>,

    /// The information set each sequence is an action of, if any.
    pub parent_infoset_of_seqs: Vec<Option<usize>>,
}

impl TreeplexTools {
    /// All tables are present and correct for treeplex `t`.
    pub open spec fn wf_for(self, t: Treeplex) -> bool {
        &&& self.num_sequences == t.num_sequences
        &&& self.num_infosets == t.infosets.len()
        &&& t.seq_ranges_ok(self.seq_to_infoset_id_range@)
        &&& self.seqs_under_infosets.len() == t.infosets.len()
        &&& under_infosets_exact(t, self.seqs_under_infosets@, t.infosets.len() as int)
        &&& under_seqs_exact(t, self.seqs_under_seqs@)
        &&& parent_infosets_ok(t, self.parent_infoset_of_seqs@)
    }

    /// Builds every lookup table for `treeplex`.
    pub fn new(treeplex: &Treeplex) -> (r: TreeplexTools)
        requires
            treeplex.wf(),
        ensures
            r.wf_for(*treeplex),
    {
        let mut tools = TreeplexTools {
            num_sequences: treeplex.num_sequences(),
            num_infosets: treeplex.num_infosets(),
            seq_to_infoset_id_range: Vec::new(),
            seqs_under_infosets: Vec::new(),
            seqs_under_seqs: Vec::new(),
            parent_infoset_of_seqs: Vec::new(),
        };
        tools.fill_seq_to_infoset_range(treeplex);
        tools.fill_seqs_under_infoset_and_seqs(treeplex);
        tools.fill_parent_infoset_of_seqs(treeplex);
        tools
    }

    /// The block of information-set indices immediately following
    /// `sequence_id`.
    pub fn seq_to_infoset_range(&self, sequence_id: usize) -> (r: (usize, usize))
        requires
            self.seq_to_infoset_id_range.len() == self.num_sequences,
            sequence_id < self.num_sequences,
        ensures
            r == self.seq_to_infoset_id_range@[sequence_id as int],
    {
        self.seq_to_infoset_id_range[sequence_id]
    }

    /// Minimum and maximum sequence id reachable below `infoset_id`.
    pub fn seqs_under_infoset(&self, infoset_id: usize) -> (r: (usize, usize))
        requires
            self.seqs_under_infosets.len() == self.num_infosets,
            infoset_id < self.num_infosets,
        ensures
            r == self.seqs_under_infosets@[infoset_id as int],
    {
        self.seqs_under_infosets[infoset_id]
    }

    /// Minimum and maximum sequence id reachable at or below
    /// `sequence_id`.
    pub fn seqs_under_seq(&self, sequence_id: usize) -> (r: (usize, usize))
        requires
            self.seqs_under_seqs.len() == self.num_sequences,
            sequence_id < self.num_sequences,
        ensures
            r == self.seqs_under_seqs@[sequence_id as int],
    {
        self.seqs_under_seqs[sequence_id]
    }

    /// The information set `sequence_id` is an action of, or `None` for
    /// the empty sequence and other rootward sequences.
    pub fn parent_infoset_of_seq(&self, sequence_id: usize) -> (r: Option<usize>)
        requires
            self.parent_infoset_of_seqs.len() == self.num_sequences,
            sequence_id < self.num_sequences,
        ensures
            r == self.parent_infoset_of_seqs@[sequence_id as int],
    {
        self.parent_infoset_of_seqs[sequence_id]
    }

    pub fn num_sequences(&self) -> (r: usize)
        ensures
            r == self.num_sequences,
    {
        self.num_sequences
    }

    pub fn num_infosets(&self) -> (r: usize)
        ensures
            r == self.num_infosets,
    {
        self.num_infosets
    }

    /// Fills the sequence-to-child-infosets table.
    fn fill_seq_to_infoset_range(&mut self, treeplex: &Treeplex)
        requires
            treeplex.wf(),
        ensures
            final(self).num_sequences == old(self).num_sequences,
            final(self).num_infosets == old(self).num_infosets,
            final(self).seqs_under_infosets == old(self).seqs_under_infosets,
            final(self).seqs_under_seqs == old(self).seqs_under_seqs,
            final(self).parent_infoset_of_seqs == old(self).parent_infoset_of_seqs,
            treeplex.seq_ranges_ok(final(self).seq_to_infoset_id_range@),
    {
        self.seq_to_infoset_id_range = treeplex.compute_seq_to_infoset_ranges();
    }

    /// Fills the descendant-sequence ranges of all information sets and
    /// sequences, in one bottom-up pass.
    #[verifier::rlimit(60)]
    fn fill_seqs_under_infoset_and_seqs(&mut self, treeplex: &Treeplex)
        requires
            treeplex.wf(),
        ensures
            final(self).num_sequences == old(self).num_sequences,
            final(self).num_infosets == old(self).num_infosets,
            final(self).seq_to_infoset_id_range == old(self).seq_to_infoset_id_range,
            final(self).parent_infoset_of_seqs == old(self).parent_infoset_of_seqs,
            final(self).seqs_under_infosets.len() == treeplex.infosets.len(),
            under_infosets_exact(
                *treeplex,
                final(self).seqs_under_infosets@,
                treeplex.infosets.len() as int,
            ),
            under_seqs_exact(*treeplex, final(self).seqs_under_seqs@),
    {
        let ghost t = *treeplex;
        let n_seq = treeplex.num_sequences();
        let n_inf = treeplex.num_infosets();

        // Every sequence starts as its own sole descendant.
        let mut under_seqs: Vec<(usize, usize)> = Vec::new();
        let mut s: usize = 0;
        while s < n_seq
            invariant
                s <= n_seq,
                under_seqs.len() == s,
                forall|v: int| 0 <= v < s ==> under_seqs@[v] == (v as usize, v as usize),
            decreases n_seq - s,
        {
            under_seqs.push((s, s));
            s = s + 1;
        }

        let mut under_infosets: Vec<(usize, usize)> = Vec::new();
        let mut i: usize = 0;
        while i < n_inf
            invariant
                i <= n_inf,
                under_seqs.len() == n_seq,
                under_infosets.len() == i,
                under_seqs_partial(t, under_seqs@),
                under_seqs_covers(t, under_seqs@, i as int),
                under_infosets_exact(t, under_infosets@, i as int),
            decreases n_inf - i,
        {
            let infoset = treeplex.infosets[i];
            let start = infoset.start_sequence;
            let end = infoset.end_sequence;
            let p = infoset.parent_sequence;
            assert(start <= end && end < p && p < n_seq);

            // Union of the descendant ranges of the actions at this
            // information set.
            let mut mn: usize = n_seq;
            let mut mx: usize = 0;
            let mut q: usize = start;
            while q <= end
                invariant
                    start <= q <= end + 1,
                    q > start ==> exists|w: int|
                        start <= w < q && (#[trigger] under_seqs@[w]).0 == mn,
                    q > start ==> exists|w: int|
                        start <= w < q && (#[trigger] under_seqs@[w]).1 == mx,
                    q == start ==> mn == n_seq && mx == 0,
                    forall|w: int|
                        start <= w < q ==> mn <= (#[trigger] under_seqs@[w]).0 && under_seqs@[w].1
                            <= mx,
                decreases end + 1 - q,
            {
                let (lo, hi) = under_seqs[q];
                if lo < mn {
                    mn = lo;
                }
                if hi > mx {
                    mx = hi;
                }
                q = q + 1;
            }

            proof {
                // The range is non-empty, so mn and mx were taken from
                // real entries and are genuine descendants of actions
                // at this information set.
                let wmn = choose|w: int| start <= w < q && (#[trigger] under_seqs@[w]).0 == mn;
                let wmx = choose|w: int| start <= w < q && (#[trigger] under_seqs@[w]).1 == mx;
                assert(t.is_desc(wmn, mn as int));
                assert(t.is_desc(wmx, mx as int));
                assert(t.infoset_desc(i as int, mn as int));
                assert(t.infoset_desc(i as int, mx as int));
                assert forall|d: int| #[trigger] t.infoset_desc(i as int, d) implies mn <= d
                    <= mx by {
                    let w = choose|w: int|
                        #![trigger t.is_desc(w, d)]
                        t.infosets@[i as int].contains_seq(w) && 0 <= w < t.num_sequences
                            && t.is_desc(w, d);
                    lemma_desc_in_under_range(t, under_seqs@, i as int, w, d);
                }
            }
            under_infosets.push((mn, mx));

            // Widen the parent sequence's range with this information
            // set's descendants.
            let (plo, phi) = under_seqs[p];
            let nlo = if mn < plo {
                mn
            } else {
                plo
            };
            let nhi = if mx > phi {
                mx
            } else {
                phi
            };
            proof {
                let wmn = choose|w: int| start <= w < q && (#[trigger] under_seqs@[w]).0 == mn;
                let wmx = choose|w: int| start <= w < q && (#[trigger] under_seqs@[w]).1 == mx;
                // The new endpoints are descendants of p: either they
                // were already, or they descend through this infoset.
                if nlo == mn && mn != plo {
                    lemma_desc_step(t, i as int, wmn, mn as int);
                }
                if nhi == mx && mx != phi {
                    lemma_desc_step(t, i as int, wmx, mx as int);
                }
            }
            let ghost old_under = under_seqs@;
            under_seqs.set(p, (nlo, nhi));
            proof {
                assert forall|j: int, d: int|
                    0 <= j < i + 1 && #[trigger] t.infoset_desc(j, d) implies under_seqs@[t.infosets@[
                    j].parent_sequence as int].0 <= d <= under_seqs@[t.infosets@[
                    j].parent_sequence as int].1 by {
                    if j < i {
                        assert(old_under[t.infosets@[j].parent_sequence as int].0 <= d
                            <= old_under[t.infosets@[j].parent_sequence as int].1);
                    } else {
                        assert(mn <= d <= mx);
                    }
                }
            }
            i = i + 1;
        }

        self.seqs_under_infosets = under_infosets;
        self.seqs_under_seqs = under_seqs;
        proof {
            // With every information set processed, coverage of the
            // processed prefix is full exactness.
            assert forall|s2: int, d: int|
                0 <= s2 < t.num_sequences && #[trigger] t.is_desc(s2, d) implies final(
                self).seqs_under_seqs@[s2].0 <= d <= final(self).seqs_under_seqs@[s2].1 by {
                if d != s2 {
                    let (j, q2) = lemma_desc_unfold(t, s2, d);
                    assert(t.infoset_desc(j, d));
                }
            }
        }
    }

    /// Fills the sequence-to-parent-infoset table.
    fn fill_parent_infoset_of_seqs(&mut self, treeplex: &Treeplex)
        requires
            treeplex.wf(),
        ensures
            final(self).num_sequences == old(self).num_sequences,
            final(self).num_infosets == old(self).num_infosets,
            final(self).seq_to_infoset_id_range == old(self).seq_to_infoset_id_range,
            final(self).seqs_under_infosets == old(self).seqs_under_infosets,
            final(self).seqs_under_seqs == old(self).seqs_under_seqs,
            parent_infosets_ok(*treeplex, final(self).parent_infoset_of_seqs@),
    {
        let ghost t = *treeplex;
        let n_seq = treeplex.num_sequences();
        let n_inf = treeplex.num_infosets();
        let mut parents: Vec<Option<usize>> = crate::util::repeat(n_seq, None);

        let mut i: usize = 0;
        while i < n_inf
            invariant
                i <= n_inf,
                parents.len() == n_seq,
                forall|s2: int|
                    0 <= s2 < n_seq ==> {
                        &&& ((#[trigger] parents@[s2]) matches Some(pj) ==> 0 <= pj < i
                            && t.infosets@[pj as int].contains_seq(s2))
                        &&& (parents@[s2] is None ==> forall|jj: int|
                            0 <= jj < i ==> !(#[trigger] t.infosets@[jj]).contains_seq(s2))
                    },
            decreases n_inf - i,
        {
            let infoset = treeplex.infosets[i];
            let mut s2: usize = infoset.start_sequence;
            while s2 <= infoset.end_sequence
                invariant
                    infoset == t.infosets@[i as int],
                    i < n_inf,
                    infoset.start_sequence <= s2 <= infoset.end_sequence + 1,
                    parents.len() == n_seq,
                    forall|v: int|
                        0 <= v < n_seq ==> {
                            &&& ((#[trigger] parents@[v]) matches Some(j) ==> 0 <= j <= i
                                && t.infosets@[j as int].contains_seq(v))
                            &&& (infoset.start_sequence <= v < s2 ==> parents@[v] == Some(
                                i as usize,
                            ))
                            &&& (parents@[v] is None ==> forall|jj: int|
                                0 <= jj < i ==> !(#[trigger] t.infosets@[jj]).contains_seq(v))
                        },
                decreases infoset.end_sequence + 1 - s2,
            {
                parents.set(s2, Some(i));
                s2 = s2 + 1;
            }
            proof {
                // Ranges are disjoint, so entries written by earlier
                // information sets were untouched.
                assert forall|v: int| 0 <= v < n_seq implies {
                    &&& ((#[trigger] parents@[v]) matches Some(pj) ==> 0 <= pj < i + 1
                        && t.infosets@[pj as int].contains_seq(v))
                    &&& (parents@[v] is None ==> forall|jj: int|
                        0 <= jj < i + 1 ==> !(#[trigger] t.infosets@[jj]).contains_seq(v))
                } by {
                    if parents@[v] is None {
                        assert forall|j: int| 0 <= j < i + 1 implies !(
                        #[trigger] t.infosets@[j]).contains_seq(v) by {
                            if j == i {
                                assert(!t.infosets@[i as int].contains_seq(v));
                            }
                        }
                    }
                }
            }
            i = i + 1;
        }
        self.parent_infoset_of_seqs = parents;
    }
}

} // verus!
