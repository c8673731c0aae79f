//! Mapping between a full treeplex and the compacted ("skinny")
//! treeplex of one subgame: a bijection between the relevant sequences
//! and information sets of the full tree and freshly packed 0-based
//! ids.

use vstd::prelude::*;

use crate::treeplex::Treeplex;

verus! {

/// Sequence `s` is an action of some information set marked relevant
/// among the first `upto` information sets.
pub open spec fn relevant_seq_upto(t: Treeplex, rel: Seq<bool>, s: int, upto: int) -> bool {
    exists|i: int| 0 <= i < upto && rel[i] && (#[trigger] t.infosets@[i]).contains_seq(s)
}

/// Sequence `s` is an action of some relevant information set.
pub open spec fn relevant_seq(t: Treeplex, rel: Seq<bool>, s: int) -> bool {
    relevant_seq_upto(t, rel, s, t.infosets.len() as int)
}

/// A head of the reduced tree: a relevant information set whose parent
/// sequence lies outside the reduced tree.  In the skinny treeplex its
/// parent is redirected to the skinny empty sequence.
pub open spec fn is_head(t: Treeplex, rel: Seq<bool>, i: int) -> bool {
    rel[i] && !relevant_seq(t, rel, t.infosets@[i].parent_sequence as int)
}

/// The mapping tables between one treeplex and its skinny counterpart.
#[derive(Debug)]
pub struct TreeplexMapper {
    /// Full-tree sequence id to skinny sequence id, `None` outside the
    /// subgame.
    pub seq_to_skinny_seq: Vec<Option<usize>>,

    /// Skinny sequence id back to the full-tree sequence id.  The
    /// skinny empty sequence has no entry here: it stands for every
    /// sequence outside the subgame.
    pub skinny_seq_to_seq: Vec<usize>,

    pub infoset_to_skinny_infoset: Vec<Option<usize>>,
    pub skinny_infoset_to_infoset: Vec<usize>,
}

impl TreeplexMapper {
    /// The tables are exactly the packing of the sequences and
    /// information sets of `t` relevant under `rel`: mutually inverse,
    /// order-preserving on sequences, and order-preserving on
    /// information sets except that heads are packed last.
    pub open spec fn matches(self, t: Treeplex, rel: Seq<bool>) -> bool {
        &&& self.seq_to_skinny_seq.len() == t.num_sequences
        &&& self.skinny_seq_to_seq.len() < t.num_sequences
        &&& forall|s: int|
            0 <= s < t.num_sequences ==> ((#[trigger] self.seq_to_skinny_seq@[s]) is Some
                <==> relevant_seq(t, rel, s))
        &&& forall|s: int|
            0 <= s < t.num_sequences ==> ((#[trigger] self.seq_to_skinny_seq@[s]) matches Some(k)
                ==> k < self.skinny_seq_to_seq.len() && self.skinny_seq_to_seq@[k as int] == s)
        &&& forall|k: int|
            0 <= k < self.skinny_seq_to_seq.len() ==> k <= (#[trigger] self.skinny_seq_to_seq@[k])
                < t.num_sequences && self.seq_to_skinny_seq@[self.skinny_seq_to_seq@[k] as int]
                == Some(k as usize)
        &&& forall|k1: int, k2: int|
            0 <= k1 < k2 < self.skinny_seq_to_seq.len() ==> (#[trigger] self.skinny_seq_to_seq@[k1])
                < (#[trigger] self.skinny_seq_to_seq@[k2])
        &&& self.infoset_to_skinny_infoset.len() == t.infosets.len()
        &&& forall|i: int|
            0 <= i < t.infosets.len() ==> ((#[trigger] self.infoset_to_skinny_infoset@[i]) is Some
                <==> rel[i])
        &&& forall|i: int|
            0 <= i < t.infosets.len() ==> ((#[trigger] self.infoset_to_skinny_infoset@[i]) matches
            Some(k) ==> k < self.skinny_infoset_to_infoset.len()
                && self.skinny_infoset_to_infoset@[k as int] == i)
        &&& forall|k: int|
            0 <= k < self.skinny_infoset_to_infoset.len() ==> (
            #[trigger] self.skinny_infoset_to_infoset@[k]) < t.infosets.len()
                && self.infoset_to_skinny_infoset@[self.skinny_infoset_to_infoset@[k] as int]
                == Some(k as usize)
        &&& forall|k1: int, k2: int|
            0 <= k1 < k2 < self.skinny_infoset_to_infoset.len() ==> {
                let i1 = (#[trigger] self.skinny_infoset_to_infoset@[k1]) as int;
                let i2 = (#[trigger] self.skinny_infoset_to_infoset@[k2]) as int;
                &&& (is_head(t, rel, i1) ==> is_head(t, rel, i2))
                &&& ((is_head(t, rel, i1) <==> is_head(t, rel, i2)) ==> i1 < i2)
            }
    }

    /// Builds the mapping tables for the information sets of `treeplex`
    /// marked relevant by `is_relevant_infoset`.
    pub fn new(treeplex: &Treeplex, is_relevant_infoset: &Vec<bool>) -> (r: TreeplexMapper)
        requires
            treeplex.wf(),
            is_relevant_infoset.len() == treeplex.infosets.len(),
        ensures
            r.matches(*treeplex, is_relevant_infoset@),
    {
        let (seq_to_skinny_seq, skinny_seq_to_seq) = Self::sequence_mapping(
            treeplex,
            is_relevant_infoset,
        );
        let (infoset_to_skinny_infoset, skinny_infoset_to_infoset) = Self::infoset_mapping(
            treeplex,
            is_relevant_infoset,
            &seq_to_skinny_seq,
        );

        TreeplexMapper {
            seq_to_skinny_seq,
            skinny_seq_to_seq,
            infoset_to_skinny_infoset,
            skinny_infoset_to_infoset,
        }
    }

    /// Packs the sequences of every relevant information set, in
    /// original order, into fresh 0-based skinny ids.
    fn sequence_mapping(treeplex: &Treeplex, is_relevant_infoset: &Vec<bool>) -> (r: (
        Vec<Option<usize>>,
        Vec<usize>,
    ))
        requires
            treeplex.wf(),
            is_relevant_infoset.len() == treeplex.infosets.len(),
        ensures
            r.0.len() == treeplex.num_sequences,
            r.1.len() < treeplex.num_sequences,
            forall|s: int|
                0 <= s < treeplex.num_sequences ==> ((#[trigger] r.0@[s]) is Some <==> relevant_seq(
                    *treeplex,
                    is_relevant_infoset@,
                    s,
                )),
            forall|s: int|
                0 <= s < treeplex.num_sequences ==> ((#[trigger] r.0@[s]) matches Some(k) ==> k
                    < r.1.len() && r.1@[k as int] == s),
            forall|k: int|
                0 <= k < r.1.len() ==> k <= (#[trigger] r.1@[k]) < treeplex.num_sequences && r.0@[
                    r.1@[k] as int] == Some(k as usize),
            forall|k1: int, k2: int|
                0 <= k1 < k2 < r.1.len() ==> (#[trigger] r.1@[k1]) < (#[trigger] r.1@[k2]),
    {
        let ghost t = *treeplex;
        let ghost rel = is_relevant_infoset@;
        let n_seq = treeplex.num_sequences();
        let n_inf = treeplex.num_infosets();

        // Mark every sequence reachable by one action at a relevant
        // information set.
        let mut is_relevant_sequence: Vec<bool> = crate::util::repeat(n_seq, false);
        let mut i: usize = 0;
        while i < n_inf
            invariant
                i <= n_inf,
                is_relevant_sequence.len() == n_seq,
                forall|s: int|
                    0 <= s < n_seq ==> (#[trigger] is_relevant_sequence@[s] == relevant_seq_upto(
                        t,
                        rel,
                        s,
                        i as int,
                    )),
            decreases n_inf - i,
        {
            if is_relevant_infoset[i] {
                let infoset = treeplex.infosets[i];
                let mut q: usize = infoset.start_sequence;
                while q <= infoset.end_sequence
                    invariant
                        i < n_inf,
                        infoset == t.infosets@[i as int],
                        rel[i as int],
                        infoset.start_sequence <= q <= infoset.end_sequence + 1,
                        is_relevant_sequence.len() == n_seq,
                        forall|s: int|
                            0 <= s < n_seq ==> (#[trigger] is_relevant_sequence@[s] == (
                            relevant_seq_upto(t, rel, s, i as int) || (infoset.start_sequence <= s
                                < q))),
                    decreases infoset.end_sequence + 1 - q,
                {
                    is_relevant_sequence.set(q, true);
                    q = q + 1;
                }
            }
            proof {
                assert forall|s: int| 0 <= s < n_seq implies #[trigger] is_relevant_sequence@[s]
                    == relevant_seq_upto(t, rel, s, i + 1) by {
                    if is_relevant_sequence@[s] {
                        assert(relevant_seq_upto(t, rel, s, i + 1));
                    } else {
                        assert(!relevant_seq_upto(t, rel, s, i as int));
                        assert(!(rel[i as int] && t.infosets@[i as int].contains_seq(s)));
                    }
                }
            }
            i = i + 1;
        }

        // Pack the relevant sequences, preserving order.
        let mut seq_to_skinny_seq: Vec<Option<usize>> = crate::util::repeat(n_seq, None);
        let mut skinny_seq_to_seq: Vec<usize> = Vec::new();
        let mut s: usize = 0;
        while s < n_seq
            invariant
                s <= n_seq,
                seq_to_skinny_seq.len() == n_seq,
                is_relevant_sequence.len() == n_seq,
                skinny_seq_to_seq.len() <= s,
                forall|v: int|
                    0 <= v < n_seq ==> (#[trigger] is_relevant_sequence@[v] == relevant_seq(
                        t,
                        rel,
                        v,
                    )),
                forall|v: int|
                    0 <= v < s ==> ((#[trigger] seq_to_skinny_seq@[v]) is Some <==> relevant_seq(
                        t,
                        rel,
                        v,
                    )),
                forall|v: int| s <= v < n_seq ==> (#[trigger] seq_to_skinny_seq@[v]) is None,
                forall|v: int|
                    0 <= v < n_seq ==> ((#[trigger] seq_to_skinny_seq@[v]) matches Some(k) ==> k
                        < skinny_seq_to_seq.len() && skinny_seq_to_seq@[k as int] == v),
                forall|k: int|
                    0 <= k < skinny_seq_to_seq.len() ==> k <= (#[trigger] skinny_seq_to_seq@[k]) < s
                        && seq_to_skinny_seq@[skinny_seq_to_seq@[k] as int] == Some(k as usize),
                forall|k1: int, k2: int|
                    0 <= k1 < k2 < skinny_seq_to_seq.len() ==> (#[trigger] skinny_seq_to_seq@[k1])
                        < (#[trigger] skinny_seq_to_seq@[k2]),
            decreases n_seq - s,
        {
            if is_relevant_sequence[s] {
                seq_to_skinny_seq.set(s, Some(skinny_seq_to_seq.len()));
                skinny_seq_to_seq.push(s);
            }
            s = s + 1;
        }

        proof {
            // A relevant sequence is an action at some well-formed
            // information set, hence below the empty sequence; so fewer
            // than num_sequences sequences are packed.
            let len = skinny_seq_to_seq.len() as int;
            if len > 0 {
                let last = skinny_seq_to_seq@[len - 1] as int;
                assert(relevant_seq(t, rel, last));
                let w = choose|w: int|
                    0 <= w < t.infosets.len() && rel[w] && (
                    #[trigger] t.infosets@[w]).contains_seq(last);
                assert(last < t.num_sequences - 1);
            }
        }

        (seq_to_skinny_seq, skinny_seq_to_seq)
    }

    /// Packs the relevant information sets: those whose parent sequence
    /// is itself relevant first, in original order, then the heads, in
    /// original order, so that the skinny treeplex keeps same-parent
    /// blocks contiguous.
    fn infoset_mapping(
        treeplex: &Treeplex,
        is_relevant_infoset: &Vec<bool>,
        seq_to_skinny_seq: &Vec<Option<usize>>,
    ) -> (r: (Vec<Option<usize>>, Vec<usize>))
        requires
            treeplex.wf(),
            is_relevant_infoset.len() == treeplex.infosets.len(),
            seq_to_skinny_seq.len() == treeplex.num_sequences,
            forall|s: int|
                0 <= s < treeplex.num_sequences ==> ((#[trigger] seq_to_skinny_seq@[s]) is Some
                    <==> relevant_seq(*treeplex, is_relevant_infoset@, s)),
        ensures
            r.0.len() == treeplex.infosets.len(),
            forall|i: int|
                0 <= i < treeplex.infosets.len() ==> ((#[trigger] r.0@[i]) is Some
                    <==> is_relevant_infoset@[i]),
            forall|i: int|
                0 <= i < treeplex.infosets.len() ==> ((#[trigger] r.0@[i]) matches Some(k) ==> k
                    < r.1.len() && r.1@[k as int] == i),
            forall|k: int|
                0 <= k < r.1.len() ==> (#[trigger] r.1@[k]) < treeplex.infosets.len() && r.0@[
                    r.1@[k] as int] == Some(k as usize),
            forall|k1: int, k2: int|
                0 <= k1 < k2 < r.1.len() ==> {
                    let i1 = (#[trigger] r.1@[k1]) as int;
                    let i2 = (#[trigger] r.1@[k2]) as int;
                    &&& (is_head(*treeplex, is_relevant_infoset@, i1) ==> is_head(
                        *treeplex,
                        is_relevant_infoset@,
                        i2,
                    ))
                    &&& ((is_head(*treeplex, is_relevant_infoset@, i1) <==> is_head(
                        *treeplex,
                        is_relevant_infoset@,
                        i2,
                    )) ==> i1 < i2)
                },
    {
        let ghost t = *treeplex;
        let ghost rel = is_relevant_infoset@;
        let n_inf = treeplex.num_infosets();

        let mut infoset_to_skinny_infoset: Vec<Option<usize>> = crate::util::repeat(n_inf, None);
        let mut skinny_infoset_to_infoset: Vec<usize> = Vec::new();

        // Heads are parked here and handled at the end, so that they
        // occupy one contiguous block whose parent is the skinny empty
        // sequence.
        let mut temp_head_infoset_ids: Vec<usize> = Vec::new();

        let mut i: usize = 0;
        while i < n_inf
            invariant
                i <= n_inf,
                infoset_to_skinny_infoset.len() == n_inf,
                skinny_infoset_to_infoset.len() <= i,
                temp_head_infoset_ids.len() <= i,
                forall|v: int|
                    0 <= v < i ==> ((#[trigger] infoset_to_skinny_infoset@[v]) is Some <==> (rel[v]
                        && !is_head(t, rel, v))),
                forall|v: int| i <= v < n_inf ==> (#[trigger] infoset_to_skinny_infoset@[v]) is None,
                forall|v: int|
                    0 <= v < n_inf ==> ((#[trigger] infoset_to_skinny_infoset@[v]) matches Some(k)
                        ==> k < skinny_infoset_to_infoset.len()
                        && skinny_infoset_to_infoset@[k as int] == v),
                forall|k: int|
                    0 <= k < skinny_infoset_to_infoset.len() ==> (
                    #[trigger] skinny_infoset_to_infoset@[k]) < i && infoset_to_skinny_infoset@[
                        skinny_infoset_to_infoset@[k] as int] == Some(k as usize) && !is_head(
                        t,
                        rel,
                        skinny_infoset_to_infoset@[k] as int,
                    ),
                forall|k1: int, k2: int|
                    0 <= k1 < k2 < skinny_infoset_to_infoset.len() ==> (
                    #[trigger] skinny_infoset_to_infoset@[k1]) < (
                    #[trigger] skinny_infoset_to_infoset@[k2]),
                forall|k: int|
                    0 <= k < temp_head_infoset_ids.len() ==> (
                    #[trigger] temp_head_infoset_ids@[k]) < i && is_head(
                        t,
                        rel,
                        temp_head_infoset_ids@[k] as int,
                    ),
                forall|k1: int, k2: int|
                    0 <= k1 < k2 < temp_head_infoset_ids.len() ==> (
                    #[trigger] temp_head_infoset_ids@[k1]) < (
                    #[trigger] temp_head_infoset_ids@[k2]),
                forall|v: int|
                    0 <= v < i && is_head(t, rel, v) ==> exists|k: int|
                        0 <= k < temp_head_infoset_ids.len() && (
                        #[trigger] temp_head_infoset_ids@[k]) == v,
            decreases n_inf - i,
        {
            let ghost old_temp = temp_head_infoset_ids@;
            if is_relevant_infoset[i] {
                let parent = treeplex.infosets[i].parent_sequence;
                assert(parent < treeplex.num_sequences);
                if seq_to_skinny_seq[parent].is_some() {
                    infoset_to_skinny_infoset.set(i, Some(skinny_infoset_to_infoset.len()));
                    skinny_infoset_to_infoset.push(i);
                } else {
                    temp_head_infoset_ids.push(i);
                }
            }
            proof {
                assert forall|v: int| 0 <= v < i + 1 && is_head(t, rel, v) implies exists|k: int|
                    0 <= k < temp_head_infoset_ids.len() && (
                    #[trigger] temp_head_infoset_ids@[k]) == v by {
                    if v < i {
                        let k0 = choose|k: int| 0 <= k < old_temp.len() && (#[trigger] old_temp[k]) == v;
                        assert(temp_head_infoset_ids@[k0] == v);
                    } else {
                        assert(temp_head_infoset_ids@[temp_head_infoset_ids.len() - 1] == v);
                    }
                }
            }
            i = i + 1;
        }

        // Append the heads after all interior information sets.
        let ghost interior_len = skinny_infoset_to_infoset.len() as int;
        let n_heads = temp_head_infoset_ids.len();
        let mut h: usize = 0;
        while h < n_heads
            invariant
                h <= n_heads,
                n_heads == temp_head_infoset_ids.len(),
                infoset_to_skinny_infoset.len() == n_inf,
                skinny_infoset_to_infoset.len() == interior_len + h,
                forall|k: int|
                    0 <= k < temp_head_infoset_ids.len() ==> (
                    #[trigger] temp_head_infoset_ids@[k]) < n_inf && is_head(
                        t,
                        rel,
                        temp_head_infoset_ids@[k] as int,
                    ),
                forall|k1: int, k2: int|
                    0 <= k1 < k2 < temp_head_infoset_ids.len() ==> (
                    #[trigger] temp_head_infoset_ids@[k1]) < (
                    #[trigger] temp_head_infoset_ids@[k2]),
                forall|v: int|
                    0 <= v < n_inf ==> ((#[trigger] infoset_to_skinny_infoset@[v]) is Some <==> (
                    rel[v] && (!is_head(t, rel, v) || exists|k: int|
                        0 <= k < h && (#[trigger] temp_head_infoset_ids@[k]) == v))),
                forall|v: int|
                    0 <= v < n_inf ==> ((#[trigger] infoset_to_skinny_infoset@[v]) matches Some(k)
                        ==> k < skinny_infoset_to_infoset.len()
                        && skinny_infoset_to_infoset@[k as int] == v),
                forall|k: int|
                    0 <= k < skinny_infoset_to_infoset.len() ==> (
                    #[trigger] skinny_infoset_to_infoset@[k]) < n_inf && infoset_to_skinny_infoset@[
                        skinny_infoset_to_infoset@[k] as int] == Some(k as usize),
                forall|k: int|
                    0 <= k < interior_len ==> !is_head(
                        t,
                        rel,
                        (#[trigger] skinny_infoset_to_infoset@[k]) as int,
                    ),
                forall|k: int|
                    interior_len <= k < skinny_infoset_to_infoset.len() ==> is_head(
                        t,
                        rel,
                        (#[trigger] skinny_infoset_to_infoset@[k]) as int,
                    ) && skinny_infoset_to_infoset@[k] == temp_head_infoset_ids@[k - interior_len],
                forall|k1: int, k2: int|
                    0 <= k1 < k2 < interior_len ==> (#[trigger] skinny_infoset_to_infoset@[k1]) < (
                    #[trigger] skinny_infoset_to_infoset@[k2]),
                forall|v: int|
                    0 <= v < n_inf && is_head(t, rel, v) ==> exists|k: int|
                        0 <= k < temp_head_infoset_ids.len() && (
                        #[trigger] temp_head_infoset_ids@[k]) == v,
            decreases n_heads - h,
        {
            let head_id = temp_head_infoset_ids[h];
            infoset_to_skinny_infoset.set(head_id, Some(skinny_infoset_to_infoset.len()));
            skinny_infoset_to_infoset.push(head_id);
            h = h + 1;
        }

        proof {
            // Every relevant information set is mapped: interior ones
            // in the first pass, heads in the second.
            assert forall|v: int| 0 <= v < n_inf implies ((
            #[trigger] infoset_to_skinny_infoset@[v]) is Some <==> rel[v]) by {
                if rel[v] && is_head(t, rel, v) {
                    assert(exists|k: int|
                        0 <= k < temp_head_infoset_ids.len() && (
                        #[trigger] temp_head_infoset_ids@[k]) == v);
                }
            }
        }

        (infoset_to_skinny_infoset, skinny_infoset_to_infoset)
    }

    /// The full-tree sequence behind skinny sequence `skinny_seq_id`.
    pub fn skinny_seq_to_seq(&self, skinny_seq_id: usize) -> (r: usize)
        requires
            skinny_seq_id < self.skinny_seq_to_seq.len(),
        ensures
            r == self.skinny_seq_to_seq@[skinny_seq_id as int],
    {
        self.skinny_seq_to_seq[skinny_seq_id]
    }

    /// The skinny sequence id of full-tree sequence `seq_id`, which
    /// must be mapped.
    pub fn seq_to_skinny_seq(&self, seq_id: usize) -> (r: usize)
        requires
            seq_id < self.seq_to_skinny_seq.len(),
            self.seq_to_skinny_seq@[seq_id as int] is Some,
        ensures
            Some(r) == self.seq_to_skinny_seq@[seq_id as int],
    {
        self.seq_to_skinny_seq[seq_id].unwrap()
    }

    /// The skinny infoset id of full-tree infoset `infoset_id`, which
    /// must be mapped.
    pub fn infoset_to_skinny_infoset(&self, infoset_id: usize) -> (r: usize)
        requires
            infoset_id < self.infoset_to_skinny_infoset.len(),
            self.infoset_to_skinny_infoset@[infoset_id as int] is Some,
        ensures
            Some(r) == self.infoset_to_skinny_infoset@[infoset_id as int],
    {
        self.infoset_to_skinny_infoset[infoset_id].unwrap()
    }

    /// The full-tree infoset behind skinny infoset `skinny_infoset_id`.
    pub fn skinny_infoset_to_infoset(&self, skinny_infoset_id: usize) -> (r: usize)
        requires
            skinny_infoset_id < self.skinny_infoset_to_infoset.len(),
        ensures
            r == self.skinny_infoset_to_infoset@[skinny_infoset_id as int],
    {
        self.skinny_infoset_to_infoset[skinny_infoset_id]
    }

    pub fn is_sequence_mapped(&self, seq_id: usize) -> (r: bool)
        requires
            seq_id < self.seq_to_skinny_seq.len(),
        ensures
            r == self.seq_to_skinny_seq@[seq_id as int] is Some,
    {
        self.seq_to_skinny_seq[seq_id].is_some()
    }

    pub fn is_infoset_mapped(&self, infoset_id: usize) -> (r: bool)
        requires
            infoset_id < self.infoset_to_skinny_infoset.len(),
        ensures
            r == self.infoset_to_skinny_infoset@[infoset_id as int] is Some,
    {
        self.infoset_to_skinny_infoset[infoset_id].is_some()
    }

    /// Number of sequences of the skinny treeplex, the skinny empty
    /// sequence included.
    pub fn num_skinny_sequences(&self) -> (r: usize)
        requires
            self.skinny_seq_to_seq.len() < usize::MAX,
        ensures
            r == self.skinny_seq_to_seq.len() + 1,
    {
        self.skinny_seq_to_seq.len() + 1
    }

    pub fn num_skinny_infosets(&self) -> (r: usize)
        ensures
            r == self.skinny_infoset_to_infoset.len(),
    {
        self.skinny_infoset_to_infoset.len()
    }

    /// The id of the skinny empty sequence: one past the packed
    /// sequences.
    pub fn skinny_empty_seq(&self) -> (r: usize)
        requires
            self.skinny_seq_to_seq.len() < usize::MAX,
        ensures
            r == self.skinny_seq_to_seq.len(),
    {
        self.skinny_seq_to_seq.len()
    }
}

/// The two packings are mutually inverse on the subgame: a relevant
/// full-tree sequence maps to a skinny id that maps back to it, and
/// every skinny id maps to a relevant full-tree sequence that maps back
/// to it.  The same holds of information sets.
pub proof fn lemma_mapping_bijective(m: TreeplexMapper, t: Treeplex, rel: Seq<bool>, s: int, k: int)
    requires
        m.matches(t, rel),
        0 <= s < t.num_sequences,
        0 <= k < m.skinny_seq_to_seq.len(),
    ensures
        relevant_seq(t, rel, s) ==> (m.seq_to_skinny_seq@[s] matches Some(sk)
            && m.skinny_seq_to_seq@[sk as int] == s),
        m.seq_to_skinny_seq@[m.skinny_seq_to_seq@[k] as int] == Some(k as usize),
        relevant_seq(t, rel, m.skinny_seq_to_seq@[k] as int),
{
}

/// Distinct subgames mark disjoint sets of information sets, and a
/// sequence is an action of at most one information set; so no
/// sequence is relevant to two disjoint markings.  This is what makes
/// the subgames' leaf sets a partition.
pub proof fn lemma_disjoint_relevance(t: Treeplex, rel1: Seq<bool>, rel2: Seq<bool>, s: int)
    requires
        t.wf(),
        rel1.len() == t.infosets.len(),
        rel2.len() == t.infosets.len(),
        forall|i: int| 0 <= i < t.infosets.len() ==> !((#[trigger] rel1[i]) && rel2[i]),
        relevant_seq(t, rel1, s),
    ensures
        !relevant_seq(t, rel2, s),
{
    let i1 = choose|i: int|
        0 <= i < t.infosets.len() && rel1[i] && (#[trigger] t.infosets@[i]).contains_seq(s);
    if relevant_seq(t, rel2, s) {
        let i2 = choose|i: int|
            0 <= i < t.infosets.len() && rel2[i] && (#[trigger] t.infosets@[i]).contains_seq(s);
        assert(i1 != i2);
        // Both action ranges would contain s, against range
        // disjointness.
        assert(false);
    }
}

} // verus!
