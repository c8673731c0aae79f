//! Materializes the skinny treeplex of one subgame from a
//! [`TreeplexMapper`], and proves that the result obeys the treeplex
//! ordering invariant.

use vstd::prelude::*;

use crate::infoset::Infoset;
use crate::treeplex::Treeplex;
use crate::treeplex_mapper::TreeplexMapper;
use crate::treeplex_mapper::is_head;
use crate::treeplex_mapper::relevant_seq;

verus! {

/// Row `k` of the skinny treeplex `r` is the renumbered copy of the
/// full-tree information set behind skinny id `k`: its action range is
/// mapped through the sequence packing, and its parent is the mapped
/// parent where that exists, else the skinny empty sequence.
pub open spec fn skinny_row_ok(t: Treeplex, m: TreeplexMapper, r: Treeplex, k: int) -> bool {
    let orig = m.skinny_infoset_to_infoset@[k] as int;
    let inf = t.infosets@[orig];
    let out = r.infosets@[k];
    &&& m.seq_to_skinny_seq@[inf.start_sequence as int] == Some(out.start_sequence)
    &&& m.seq_to_skinny_seq@[inf.end_sequence as int] == Some(out.end_sequence)
    &&& (m.seq_to_skinny_seq@[inf.parent_sequence as int] matches Some(pk) ==> out.parent_sequence
        == pk)
    &&& (m.seq_to_skinny_seq@[inf.parent_sequence as int] is None ==> out.parent_sequence
        == m.skinny_seq_to_seq.len())
}

/// The sequence packing preserves order: of two mapped sequences, the
/// lower one gets the lower skinny id.
pub proof fn lemma_skinny_monotone(m: TreeplexMapper, t: Treeplex, rel: Seq<bool>, s1: int, s2: int)
    requires
        m.matches(t, rel),
        0 <= s1 < s2 < t.num_sequences,
        m.seq_to_skinny_seq@[s1] is Some,
        m.seq_to_skinny_seq@[s2] is Some,
    ensures
        m.seq_to_skinny_seq@[s1]->0 < m.seq_to_skinny_seq@[s2]->0,
{
    let k1 = m.seq_to_skinny_seq@[s1]->0 as int;
    let k2 = m.seq_to_skinny_seq@[s2]->0 as int;
    assert(m.skinny_seq_to_seq@[k1] == s1);
    assert(m.skinny_seq_to_seq@[k2] == s2);
    if k1 > k2 {
        assert(m.skinny_seq_to_seq@[k2] < m.skinny_seq_to_seq@[k1]);
    }
}


/// Facts about one row of a skinny treeplex built through a faithful
/// mapper: which original information set it copies, that the copy's
/// range is ordered and below the skinny empty sequence, and that the
/// parent redirection marks exactly the heads.
proof fn lemma_skinny_row_facts(t: Treeplex, rel: Seq<bool>, m: TreeplexMapper, r: Treeplex, k: int)
    requires
        t.wf(),
        rel.len() == t.infosets.len(),
        m.matches(t, rel),
        r.num_sequences == m.skinny_seq_to_seq.len() + 1,
        r.infosets.len() == m.skinny_infoset_to_infoset.len(),
        forall|k2: int| 0 <= k2 < r.infosets.len() ==> #[trigger] skinny_row_ok(t, m, r, k2),
        0 <= k < r.infosets.len(),
    ensures
        0 <= m.skinny_infoset_to_infoset@[k] < t.infosets.len(),
        rel[m.skinny_infoset_to_infoset@[k] as int],
        r.infosets@[k].start_sequence <= r.infosets@[k].end_sequence < m.skinny_seq_to_seq.len(),
        is_head(t, rel, m.skinny_infoset_to_infoset@[k] as int) <==> r.infosets@[k].parent_sequence
            == m.skinny_seq_to_seq.len(),
        !is_head(t, rel, m.skinny_infoset_to_infoset@[k] as int) ==> (m.seq_to_skinny_seq@[
            t.infosets@[m.skinny_infoset_to_infoset@[k] as int].parent_sequence as int] == Some(
            r.infosets@[k].parent_sequence,
        ) && r.infosets@[k].end_sequence < r.infosets@[k].parent_sequence
            < m.skinny_seq_to_seq.len()),
        r.infosets@[k].wf(r.num_sequences as nat),
{
    let orig = m.skinny_infoset_to_infoset@[k] as int;
    let inf = t.infosets@[orig];
    let out = r.infosets@[k];
    assert(skinny_row_ok(t, m, r, k));
    assert(m.infoset_to_skinny_infoset@[orig] == Some(k as usize));
    assert(rel[orig]);
    assert(inf.wf(t.num_sequences as nat));
    if inf.start_sequence < inf.end_sequence {
        lemma_skinny_monotone(m, t, rel, inf.start_sequence as int, inf.end_sequence as int);
    }
    if m.seq_to_skinny_seq@[inf.parent_sequence as int] is Some {
        lemma_skinny_monotone(m, t, rel, inf.end_sequence as int, inf.parent_sequence as int);
        // A mapped parent is a relevant sequence, so this row is not a
        // head, and conversely.
        assert(relevant_seq(t, rel, inf.parent_sequence as int));
        assert(!is_head(t, rel, orig));
    } else {
        assert(!relevant_seq(t, rel, inf.parent_sequence as int));
        assert(is_head(t, rel, orig));
    }
}

/// A treeplex whose rows all satisfy [`skinny_row_ok`] against a
/// well-formed full treeplex and a faithful mapper is itself
/// well-formed: the packing preserves the range ordering, heads hang
/// off the skinny empty sequence after every interior information set,
/// and same-parent blocks stay contiguous.
pub proof fn lemma_skinny_wf(t: Treeplex, rel: Seq<bool>, m: TreeplexMapper, r: Treeplex)
    requires
        t.wf(),
        rel.len() == t.infosets.len(),
        m.matches(t, rel),
        r.num_sequences == m.skinny_seq_to_seq.len() + 1,
        r.infosets.len() == m.skinny_infoset_to_infoset.len(),
        forall|k: int| 0 <= k < r.infosets.len() ==> #[trigger] skinny_row_ok(t, m, r, k),
    ensures
        r.wf(),
{
    let len = m.skinny_seq_to_seq.len() as int;

    assert forall|k: int| 0 <= k < r.infosets.len() implies (#[trigger] r.infosets@[k]).wf(
        r.num_sequences as nat,
    ) by {
        lemma_skinny_row_facts(t, rel, m, r, k);
    }
    assert(r.infosets_wf());

    // Disjointness carries over through the order-preserving packing.
    assert forall|k1: int, k2: int| 0 <= k1 < k2 < r.infosets.len() implies ((
    #[trigger] r.infosets@[k1]).end_sequence < (#[trigger] r.infosets@[k2]).start_sequence
        || r.infosets@[k2].end_sequence < r.infosets@[k1].start_sequence) by {
        let o1 = m.skinny_infoset_to_infoset@[k1] as int;
        let o2 = m.skinny_infoset_to_infoset@[k2] as int;
        assert(skinny_row_ok(t, m, r, k1));
        assert(skinny_row_ok(t, m, r, k2));
        assert(m.infoset_to_skinny_infoset@[o1] == Some(k1 as usize));
        assert(m.infoset_to_skinny_infoset@[o2] == Some(k2 as usize));
        assert(o1 != o2);
        let i1 = t.infosets@[o1];
        let i2 = t.infosets@[o2];
        if o1 < o2 {
            if i1.end_sequence < i2.start_sequence {
                lemma_skinny_monotone(m, t, rel, i1.end_sequence as int, i2.start_sequence as int);
            } else {
                lemma_skinny_monotone(m, t, rel, i2.end_sequence as int, i1.start_sequence as int);
            }
        } else {
            if i2.end_sequence < i1.start_sequence {
                lemma_skinny_monotone(m, t, rel, i2.end_sequence as int, i1.start_sequence as int);
            } else {
                lemma_skinny_monotone(m, t, rel, i1.end_sequence as int, i2.start_sequence as int);
            }
        }
    }

    // Same-parent blocks stay contiguous: heads form one block at the
    // end, and interior rows keep their original relative order and
    // original parents.
    assert forall|k1: int, k2: int, k3: int|
        0 <= k1 <= k2 <= k3 < r.infosets.len() && (#[trigger] r.infosets@[k1]).parent_sequence == (
        #[trigger] r.infosets@[k3]).parent_sequence implies (
    #[trigger] r.infosets@[k2]).parent_sequence == r.infosets@[k1].parent_sequence by {
        if k1 < k2 && k2 < k3 {
            let o1 = m.skinny_infoset_to_infoset@[k1] as int;
            let o2 = m.skinny_infoset_to_infoset@[k2] as int;
            let o3 = m.skinny_infoset_to_infoset@[k3] as int;
            assert(skinny_row_ok(t, m, r, k1));
            assert(skinny_row_ok(t, m, r, k2));
            assert(skinny_row_ok(t, m, r, k3));
            if r.infosets@[k1].parent_sequence == len {
                // k1 is a head, so everything after it is a head too.
                assert(is_head(t, rel, o1));
                assert(is_head(t, rel, o2));
            } else {
                // k1 and k3 are interior with the same original parent;
                // k2 between them is interior, and original grouping
                // applies to o1 <= o2 <= o3.
                assert(!is_head(t, rel, o1));
                assert(r.infosets@[k3].parent_sequence != len);
                assert(!is_head(t, rel, o3));
                assert(!is_head(t, rel, o2));
                let p1 = t.infosets@[o1].parent_sequence;
                let p3 = t.infosets@[o3].parent_sequence;
                assert(m.seq_to_skinny_seq@[p1 as int] == Some(r.infosets@[k1].parent_sequence));
                assert(m.seq_to_skinny_seq@[p3 as int] == Some(r.infosets@[k3].parent_sequence));
                assert(m.skinny_seq_to_seq@[r.infosets@[k1].parent_sequence as int] == p1);
                assert(m.skinny_seq_to_seq@[r.infosets@[k3].parent_sequence as int] == p3);
                assert(p1 == p3);
                assert(o1 < o2 < o3);
                assert(t.infosets@[o2].parent_sequence == p1);
            }
        }
    }

    // Bottom-up order: a skinny infoset hanging below an action of
    // another maps back to the same relation between the originals.
    assert forall|ka: int, kb: int|
        0 <= ka < r.infosets.len() && 0 <= kb < r.infosets.len() && (
        #[trigger] r.infosets@[kb]).contains_seq(
        (#[trigger] r.infosets@[ka]).parent_sequence as int,
    ) implies ka < kb by {
        let oa = m.skinny_infoset_to_infoset@[ka] as int;
        let ob = m.skinny_infoset_to_infoset@[kb] as int;
        assert(skinny_row_ok(t, m, r, ka));
        assert(skinny_row_ok(t, m, r, kb));
        let pa_skinny = r.infosets@[ka].parent_sequence as int;
        assert(r.infosets@[kb].end_sequence < len);
        assert(pa_skinny < len);
        assert(!is_head(t, rel, oa));
        let pa = t.infosets@[oa].parent_sequence as int;
        assert(m.seq_to_skinny_seq@[pa] == Some(pa_skinny as usize));
        assert(m.skinny_seq_to_seq@[pa_skinny] == pa);
        // Pull the containment back to the original sequence ids.
        let ib = t.infosets@[ob];
        assert(m.seq_to_skinny_seq@[ib.start_sequence as int] == Some(
            r.infosets@[kb].start_sequence,
        ));
        assert(m.seq_to_skinny_seq@[ib.end_sequence as int] == Some(r.infosets@[kb].end_sequence));
        if pa < ib.start_sequence {
            lemma_skinny_monotone(m, t, rel, pa, ib.start_sequence as int);
            assert(false);
        }
        if pa > ib.end_sequence {
            lemma_skinny_monotone(m, t, rel, ib.end_sequence as int, pa);
            assert(false);
        }
        assert(ib.contains_seq(pa));
        assert(oa < ob);
        assert(m.infoset_to_skinny_infoset@[oa] == Some(ka as usize));
        assert(m.infoset_to_skinny_infoset@[ob] == Some(kb as usize));
        assert(ka != kb);
        if kb < ka {
            if is_head(t, rel, ob) {
                assert(is_head(t, rel, oa));
                assert(false);
            } else {
                assert(ob < oa);
                assert(false);
            }
        }
    }

    assert(r.wf());
}

/// Builds the skinny treeplex of one subgame from the full treeplex and
/// a mapper computed over it.
pub struct TreeplexBuilder<'a> {
    pub treeplex: &'a Treeplex,
}

impl<'a> TreeplexBuilder<'a> {
    pub fn new(treeplex: &'a Treeplex) -> (r: TreeplexBuilder<'a>)
        ensures
            r.treeplex == treeplex,
    {
        TreeplexBuilder { treeplex }
    }

    /// Materializes the skinny treeplex: every mapped information set,
    /// in skinny order, with its action range renumbered through the
    /// sequence packing and its parent redirected to the skinny empty
    /// sequence when the original parent lies outside the subgame.  The
    /// result again satisfies the treeplex ordering invariant.
    pub fn treeplex_from_mapper(&self, treeplex_mapper: &TreeplexMapper) -> (r: Treeplex)
        requires
            self.treeplex.wf(),
            exists|rel: Seq<bool>|
                rel.len() == self.treeplex.infosets.len() && #[trigger] treeplex_mapper.matches(
                    *self.treeplex,
                    rel,
                ),
        ensures
            r.wf(),
            r.player == self.treeplex.player,
            r.num_sequences == treeplex_mapper.skinny_seq_to_seq.len() + 1,
            r.infosets.len() == treeplex_mapper.skinny_infoset_to_infoset.len(),
            forall|k: int|
                0 <= k < r.infosets.len() ==> #[trigger] skinny_row_ok(
                    *self.treeplex,
                    *treeplex_mapper,
                    r,
                    k,
                ),
    {
        let ghost t = *self.treeplex;
        let ghost rel = choose|rel: Seq<bool>|
            rel.len() == t.infosets.len() && #[trigger] treeplex_mapper.matches(t, rel);
        let num_sequences_skinny = treeplex_mapper.num_skinny_sequences();
        let n_skinny = treeplex_mapper.num_skinny_infosets();
        let mut skinny_infosets: Vec<Infoset> = Vec::new();

        let mut skinny_infoset_id: usize = 0;
        while skinny_infoset_id < n_skinny
            invariant
                skinny_infoset_id <= n_skinny,
                skinny_infosets.len() == skinny_infoset_id,
                forall|k: int|
                    0 <= k < skinny_infoset_id ==> {
                        let orig = treeplex_mapper.skinny_infoset_to_infoset@[k] as int;
                        let inf = t.infosets@[orig];
                        let out = (#[trigger] skinny_infosets@[k]);
                        &&& treeplex_mapper.seq_to_skinny_seq@[inf.start_sequence as int] == Some(
                            out.start_sequence,
                        )
                        &&& treeplex_mapper.seq_to_skinny_seq@[inf.end_sequence as int] == Some(
                            out.end_sequence,
                        )
                        &&& (treeplex_mapper.seq_to_skinny_seq@[inf.parent_sequence as int] matches
                        Some(pk) ==> out.parent_sequence == pk)
                        &&& (treeplex_mapper.seq_to_skinny_seq@[inf.parent_sequence as int] is None
                            ==> out.parent_sequence == treeplex_mapper.skinny_seq_to_seq.len())
                    },
            decreases n_skinny - skinny_infoset_id,
        {
            let infoset_id = treeplex_mapper.skinny_infoset_to_infoset(skinny_infoset_id);
            let infoset = self.treeplex.infosets[infoset_id];
            proof {
                assert(treeplex_mapper.infoset_to_skinny_infoset@[infoset_id as int] == Some(
                    skinny_infoset_id,
                ));
                assert(rel[infoset_id as int]);
                assert(infoset.wf(t.num_sequences as nat));
                // The whole action range of a relevant information set
                // is relevant, so both endpoints are mapped.
                assert(relevant_seq(t, rel, infoset.start_sequence as int));
                assert(relevant_seq(t, rel, infoset.end_sequence as int));
            }
            let start_sequence = treeplex_mapper.seq_to_skinny_seq(infoset.start_sequence);
            let end_sequence = treeplex_mapper.seq_to_skinny_seq(infoset.end_sequence);

            // A head's true parent lies outside the reduced tree; it is
            // redirected to the skinny empty sequence.
            let parent_sequence = if treeplex_mapper.is_sequence_mapped(infoset.parent_sequence) {
                treeplex_mapper.seq_to_skinny_seq(infoset.parent_sequence)
            } else {
                treeplex_mapper.skinny_empty_seq()
            };

            skinny_infosets.push(Infoset::new(parent_sequence, start_sequence, end_sequence));
            skinny_infoset_id = skinny_infoset_id + 1;
        }

        let r = Treeplex::new(self.treeplex.player(), num_sequences_skinny, skinny_infosets);
        proof {
            assert forall|k: int| 0 <= k < r.infosets.len() implies #[trigger] skinny_row_ok(
                t,
                *treeplex_mapper,
                r,
                k,
            ) by {}
            lemma_skinny_wf(t, rel, *treeplex_mapper, r);
        }
        r
    }
}

} // verus!
