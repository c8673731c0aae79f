//! The renumbering pass of the game-tree traversal: from per-infoset
//! discovery tables (parent sequence, action count, children per
//! sequence) to a treeplex obeying the bottom-up ordering invariant.
//!
//! The contract is the two-phase scheme: ids are assigned in top-down
//! discovery order and both numberings are then inverted, so row 0 is
//! the deepest element and the empty sequence id is the highest.  Here
//! the inversion is performed arithmetically, by handing out ids from
//! descending counters during one explicit-stack walk.

use vstd::prelude::*;

use crate::infoset::Infoset;
use crate::player::Player;
use crate::treeplex::Treeplex;

verus! {

/// The number of action slots of the first `i` information sets: the
/// flattened slot id of infoset `i`'s first action.
pub open spec fn slot_sum(counts: Seq<usize>, i: int) -> int
    decreases i,
{
    if i <= 0 {
        0
    } else {
        slot_sum(counts, i - 1) + counts[i - 1]
    }
}

/// Slot ids of distinct information sets never collide: the slot
/// ranges `[slot_sum(i), slot_sum(i) + counts[i])` tile the slots.
pub proof fn lemma_slot_sum_monotone(counts: Seq<usize>, i1: int, i2: int)
    requires
        0 <= i1 <= i2 <= counts.len(),
    ensures
        slot_sum(counts, i1) <= slot_sum(counts, i2),
        i1 < i2 ==> slot_sum(counts, i1) + counts[i1] <= slot_sum(counts, i2),
    decreases i2 - i1,
{
    if i1 < i2 {
        lemma_slot_sum_monotone(counts, i1 + 1, i2);
    }
}

/// Every slot id below the total belongs to exactly one information
/// set's range.
pub proof fn lemma_slot_owner(counts: Seq<usize>, s: int) -> (i: int)
    requires
        0 <= s < slot_sum(counts, counts.len() as int),
    ensures
        0 <= i < counts.len(),
        slot_sum(counts, i) <= s < slot_sum(counts, i) + counts[i],
    decreases counts.len(),
{
    if s < slot_sum(counts, counts.len() as int - 1) {
        let sub = counts.drop_last();
        assert forall|j: int| 0 <= j <= sub.len() implies slot_sum(sub, j) == slot_sum(
            counts,
            j,
        ) by {
            lemma_slot_sum_prefix(counts, sub, j);
        }
        let i = lemma_slot_owner(sub, s);
        i
    } else {
        counts.len() - 1
    }
}

/// `slot_sum` only reads the prefix it is asked about.
pub proof fn lemma_slot_sum_prefix(counts: Seq<usize>, sub: Seq<usize>, j: int)
    requires
        0 <= j <= sub.len(),
        sub.len() <= counts.len(),
        forall|a: int| 0 <= a < sub.len() ==> sub[a] == counts[a],
    ensures
        slot_sum(sub, j) == slot_sum(counts, j),
    decreases j,
{
    if j > 0 {
        lemma_slot_sum_prefix(counts, sub, j - 1);
    }
}

/// Information set `i` is listed among the children of slot `s`.
pub open spec fn child_of(children: Seq<Vec<usize>>, s: int, i: int) -> bool {
    0 <= s < children.len() && exists|j: int|
        0 <= j < children[s]@.len() && (#[trigger] children[s]@[j]) == i
}

/// Information set `i` is reachable from the empty sequence (the last
/// slot) through at most `fuel` discovery steps.
pub open spec fn reachable(
    children: Seq<Vec<usize>>,
    counts: Seq<usize>,
    i: int,
    fuel: int,
) -> bool
    decreases fuel,
{
    &&& fuel > 0
    &&& (child_of(children, children.len() - 1, i) || exists|i2: int, a: int|
        0 <= i2 < counts.len() && 0 <= a < counts[i2] && #[trigger] child_of(
            children,
            slot_sum(counts, i2) + a,
            i,
        ) && reachable(children, counts, i2, fuel - 1))
}

/// Well-formedness of the discovery tables handed over by a traversal:
/// matching lengths, at least one action per information set, a slot
/// table with one extra entry for the empty sequence, parent ids that
/// are valid slots, children that are valid information sets recorded
/// exactly where their parent sequence says, and each information set
/// recorded at most once.
pub open spec fn discovery_tables_ok(
    infoset_parent_seq: Seq<usize>,
    infoset_num_actions: Seq<usize>,
    children: Seq<Vec<usize>>,
) -> bool {
    let n = infoset_num_actions.len() as int;
    let total = slot_sum(infoset_num_actions, n);
    &&& infoset_parent_seq.len() == n
    &&& forall|i: int| 0 <= i < n ==> (#[trigger] infoset_num_actions[i]) >= 1
    &&& total + 1 <= usize::MAX
    &&& children.len() == total + 1
    &&& forall|i: int| 0 <= i < n ==> (#[trigger] infoset_parent_seq[i]) < children.len()
    &&& forall|s: int, j: int|
        0 <= s < children.len() && 0 <= j < children[s]@.len() ==> (#[trigger] children[s]@[j]) < n
            && infoset_parent_seq[children[s]@[j] as int] == s
    &&& forall|s1: int, j1: int, s2: int, j2: int|
        0 <= s1 < children.len() && 0 <= j1 < children[s1]@.len() && 0 <= s2 < children.len() && 0
            <= j2 < children[s2]@.len() && (#[trigger] children[s1]@[j1]) == (
        #[trigger] children[s2]@[j2]) ==> s1 == s2 && j1 == j2
}


/// Rows `[next_row, n)` are assigned, and `order` and `inf_row` are
/// mutually inverse on them.
pub open spec fn rows_coupled(order: Seq<usize>, inf_row: Seq<usize>, next_row: int) -> bool {
    let n = order.len() as int;
    &&& inf_row.len() == n
    &&& 0 <= next_row <= n
    &&& forall|i: int| 0 <= i < n ==> (#[trigger] inf_row[i]) <= n
    &&& forall|k: int|
        0 <= k < n ==> (((#[trigger] order[k]) < n) <==> next_row <= k) && (next_row <= k
            ==> order[k] < n && inf_row[order[k] as int] == k)
    &&& forall|i: int|
        0 <= i < n && (#[trigger] inf_row[i]) < n ==> next_row <= inf_row[i] && order[inf_row[
            i] as int] == i
}

/// Sequence ids are assigned exactly to the slots of visited
/// information sets, in descending consecutive blocks living above
/// `next_sid`; the empty slot is fixed at `total`.
pub open spec fn sids_coupled(
    seq_map: Seq<usize>,
    counts: Seq<usize>,
    inf_row: Seq<usize>,
    next_sid: int,
    total: int,
) -> bool {
    let n = counts.len() as int;
    &&& seq_map.len() == total + 1
    &&& 0 <= next_sid <= total
    &&& seq_map[total] == total
    &&& forall|i: int|
        0 <= i < n && (#[trigger] inf_row[i]) < n ==> seq_map[slot_sum(counts, i)] < total
            && seq_map[slot_sum(counts, i)] - (counts[i] - 1) >= next_sid
    &&& forall|i: int, a: int|
        0 <= i < n && 0 <= a < counts[i] && (#[trigger] inf_row[i]) < n ==> (#[trigger] seq_map[
            slot_sum(counts, i) + a]) == seq_map[slot_sum(counts, i)] - a
    &&& forall|i: int, a: int|
        0 <= i < n && 0 <= a < counts[i] && (#[trigger] inf_row[i]) >= n ==> (#[trigger] seq_map[
            slot_sum(counts, i) + a]) == total + 1
}

/// The id blocks of distinct visited information sets are disjoint.
pub open spec fn blocks_disjoint(
    seq_map: Seq<usize>,
    counts: Seq<usize>,
    inf_row: Seq<usize>,
) -> bool {
    let n = counts.len() as int;
    forall|i1: int, i2: int|
        0 <= i1 < n && 0 <= i2 < n && i1 != i2 && (#[trigger] inf_row[i1]) < n && (
        #[trigger] inf_row[i2]) < n ==> (seq_map[slot_sum(counts, i1)] - (counts[i1] - 1)
            > seq_map[slot_sum(counts, i2)] || seq_map[slot_sum(counts, i2)] - (counts[i2] - 1)
            > seq_map[slot_sum(counts, i1)])
}

/// Every assigned row holds the renumbered copy of its information
/// set: the mapped parent and the descending id block as its range.
pub open spec fn rows_content(
    rows: Seq<Infoset>,
    order: Seq<usize>,
    seq_map: Seq<usize>,
    parent_seq: Seq<usize>,
    counts: Seq<usize>,
    next_row: int,
) -> bool {
    let n = order.len() as int;
    forall|k: int|
        next_row <= k < n ==> ({
            let i = (#[trigger] order[k]) as int;
            &&& rows[k].parent_sequence == seq_map[parent_seq[i] as int]
            &&& rows[k].end_sequence == seq_map[slot_sum(counts, i)]
            &&& rows[k].start_sequence + (counts[i] - 1) == rows[k].end_sequence
        })
}

/// A visited information set's parent slot is assigned, above the
/// set's own id block.
pub open spec fn parent_above(
    seq_map: Seq<usize>,
    parent_seq: Seq<usize>,
    counts: Seq<usize>,
    inf_row: Seq<usize>,
    total: int,
) -> bool {
    let n = counts.len() as int;
    forall|i: int|
        0 <= i < n && (#[trigger] inf_row[i]) < n ==> seq_map[parent_seq[i] as int] <= total
            && seq_map[parent_seq[i] as int] > seq_map[slot_sum(counts, i)]
}

/// A visited information set's row lies below the row of the set that
/// owns its parent slot.
pub open spec fn owner_rows(
    parent_seq: Seq<usize>,
    counts: Seq<usize>,
    inf_row: Seq<usize>,
) -> bool {
    let n = counts.len() as int;
    forall|i: int, i2: int|
        0 <= i < n && 0 <= i2 < n && (#[trigger] inf_row[i]) < n && slot_sum(counts, i2)
            <= parent_seq[i] < slot_sum(counts, i2) + counts[i2] ==> (#[trigger] inf_row[i2]) < n
            && inf_row[i] < inf_row[i2]
}

/// Children of expanded slots are visited, with consecutive descending
/// rows, and every visited information set stems from an expanded
/// occurrence.
pub open spec fn done_children(
    children: Seq<Vec<usize>>,
    slot_done: Seq<bool>,
    inf_row: Seq<usize>,
) -> bool {
    let n = inf_row.len() as int;
    &&& forall|s: int, j: int|
        0 <= s < children.len() && 0 <= j < children[s]@.len() && slot_done[s] ==> inf_row[(
        #[trigger] children[s]@[j]) as int] < n
    &&& forall|s: int, j: int|
        0 <= s < children.len() && 0 < j < children[s]@.len() && slot_done[s] ==> inf_row[(
        #[trigger] children[s]@[j]) as int] + 1 == inf_row[children[s]@[j - 1] as int]
}

/// Every visited information set occurs in some expanded slot.
pub open spec fn visited_occurrence(
    children: Seq<Vec<usize>>,
    slot_done: Seq<bool>,
    inf_row: Seq<usize>,
) -> bool {
    let n = inf_row.len() as int;
    forall|i: int|
        0 <= i < n && (#[trigger] inf_row[i]) < n ==> exists|s: int, j: int|
            0 <= s < children.len() && 0 <= j < children[s]@.len() && slot_done[s] && (
            #[trigger] children[s]@[j]) == i
}

/// Every slot of a visited information set, and the empty slot, is
/// expanded or still waiting on the stack.
pub open spec fn slots_covered(
    stack: Seq<usize>,
    slot_done: Seq<bool>,
    counts: Seq<usize>,
    inf_row: Seq<usize>,
    total: int,
) -> bool {
    let n = counts.len() as int;
    &&& (slot_done[total] || exists|e: int| 0 <= e < stack.len() && (#[trigger] stack[e]) == total)
    &&& forall|i: int, a: int|
        #![trigger slot_done[slot_sum(counts, i) + a]]
        0 <= i < n && 0 <= a < counts[i] && inf_row[i] < n ==> (slot_done[slot_sum(counts, i) + a]
            || exists|e: int| 0 <= e < stack.len() && (#[trigger] stack[e]) == slot_sum(counts, i)
            + a)
}

/// Slot ranges of distinct information sets are disjoint.
proof fn lemma_slot_ranges_disjoint(counts: Seq<usize>, i1: int, i2: int)
    requires
        0 <= i1 < counts.len(),
        0 <= i2 < counts.len(),
        i1 != i2,
    ensures
        slot_sum(counts, i1) + counts[i1] <= slot_sum(counts, i2) || slot_sum(counts, i2)
            + counts[i2] <= slot_sum(counts, i1),
{
    if i1 < i2 {
        lemma_slot_sum_monotone(counts, i1, i2);
    } else {
        lemma_slot_sum_monotone(counts, i2, i1);
    }
}

/// An assigned slot belongs to a visited information set.
proof fn lemma_assigned_owner(
    seq_map: Seq<usize>,
    counts: Seq<usize>,
    inf_row: Seq<usize>,
    next_sid: int,
    total: int,
    s: int,
) -> (i: int)
    requires
        sids_coupled(seq_map, counts, inf_row, next_sid, total),
        inf_row.len() == counts.len(),
        total == slot_sum(counts, counts.len() as int),
        0 <= s < total,
        seq_map[s] <= total,
    ensures
        0 <= i < counts.len(),
        slot_sum(counts, i) <= s < slot_sum(counts, i) + counts[i],
        inf_row[i] < counts.len(),
        seq_map[s] == seq_map[slot_sum(counts, i)] - (s - slot_sum(counts, i)),
{
    let i = lemma_slot_owner(counts, s);
    let a = s - slot_sum(counts, i);
    if inf_row[i] >= counts.len() {
        assert(seq_map[slot_sum(counts, i) + a] == total + 1);
        assert(false);
    }
    assert(seq_map[slot_sum(counts, i) + a] == seq_map[slot_sum(counts, i)] - a);
    i
}

/// Assigned sequence ids are distinct across slots.
proof fn lemma_sid_injective(
    seq_map: Seq<usize>,
    counts: Seq<usize>,
    inf_row: Seq<usize>,
    next_sid: int,
    total: int,
    s1: int,
    s2: int,
)
    requires
        sids_coupled(seq_map, counts, inf_row, next_sid, total),
        blocks_disjoint(seq_map, counts, inf_row),
        inf_row.len() == counts.len(),
        total == slot_sum(counts, counts.len() as int),
        0 <= s1 <= total,
        0 <= s2 <= total,
        seq_map[s1] <= total,
        seq_map[s2] <= total,
        seq_map[s1] == seq_map[s2],
    ensures
        s1 == s2,
{
    if s1 != s2 {
        if s1 == total || s2 == total {
            // The empty slot's id is `total`; assigned block ids stay
            // strictly below it.
            if s1 == total {
                let o2 = lemma_assigned_owner(seq_map, counts, inf_row, next_sid, total, s2);
            } else {
                let o1 = lemma_assigned_owner(seq_map, counts, inf_row, next_sid, total, s1);
            }
            assert(false);
        } else {
            let o1 = lemma_assigned_owner(seq_map, counts, inf_row, next_sid, total, s1);
            let o2 = lemma_assigned_owner(seq_map, counts, inf_row, next_sid, total, s2);
            if o1 == o2 {
                assert(false);
            } else {
                assert(false);
            }
        }
    }
}

/// With the walk finished — every slot of a visited information set
/// expanded, their children visited, and the empty slot expanded — a
/// reachable information set is visited.
proof fn lemma_reachable_visited(
    children: Seq<Vec<usize>>,
    counts: Seq<usize>,
    slot_done: Seq<bool>,
    inf_row: Seq<usize>,
    total: int,
    i: int,
    fuel: int,
)
    requires
        inf_row.len() == counts.len(),
        children.len() == total + 1,
        total == slot_sum(counts, counts.len() as int),
        slot_done.len() == total + 1,
        slot_done[total],
        forall|i2: int, a: int|
            #![trigger slot_done[slot_sum(counts, i2) + a]]
            0 <= i2 < counts.len() && 0 <= a < counts[i2] && inf_row[i2] < counts.len()
                ==> slot_done[slot_sum(counts, i2) + a],
        forall|s: int, j: int|
            0 <= s < children.len() && 0 <= j < children[s]@.len() && slot_done[s] ==> inf_row[(
            #[trigger] children[s]@[j]) as int] < counts.len(),
        forall|s: int, j: int|
            0 <= s < children.len() && 0 <= j < children[s]@.len() ==> (#[trigger] children[s]@[j])
                < counts.len() && slot_sum(counts, children[s]@[j] as int) >= 0,
        0 <= i < counts.len(),
        reachable(children, counts, i, fuel),
    ensures
        inf_row[i] < counts.len(),
    decreases fuel,
{
    if child_of(children, children.len() - 1, i) {
        let j = choose|j: int|
            0 <= j < children[total]@.len() && (#[trigger] children[total]@[j]) == i;
        assert(inf_row[children[total]@[j] as int] < counts.len());
    } else {
        let (i2, a) = choose|i2: int, a: int|
            0 <= i2 < counts.len() && 0 <= a < counts[i2] && #[trigger] child_of(
                children,
                slot_sum(counts, i2) + a,
                i,
            ) && reachable(children, counts, i2, fuel - 1);
        lemma_reachable_visited(children, counts, slot_done, inf_row, total, i2, fuel - 1);
        assert(slot_done[slot_sum(counts, i2) + a]);
        let s = slot_sum(counts, i2) + a;
        lemma_slot_sum_monotone(counts, i2 + 1, counts.len() as int);
        assert(0 <= s < children.len());
        let j = choose|j: int| 0 <= j < children[s]@.len() && (#[trigger] children[s]@[j]) == i;
        assert(inf_row[children[s]@[j] as int] < counts.len());
    }
}

/// Same-parent blocks of the assembled rows are contiguous.
#[verifier::rlimit(100)]
#[verifier::spinoff_prover]
proof fn lemma_assembled_grouped(
    counts: Seq<usize>,
    pseq: Seq<usize>,
    cseq: Seq<Vec<usize>>,
    seq_map: Seq<usize>,
    inf_row: Seq<usize>,
    order: Seq<usize>,
    t: Treeplex,
    slot_done: Seq<bool>,
    next_sid: int,
    gtotal: int,
)
    requires
        discovery_tables_ok(pseq, counts, cseq),
        gtotal == slot_sum(counts, counts.len() as int),
        t.num_sequences == gtotal + 1,
        t.infosets.len() == counts.len(),
        order.len() == counts.len(),
        rows_coupled(order, inf_row, 0),
        sids_coupled(seq_map, counts, inf_row, next_sid, gtotal),
        blocks_disjoint(seq_map, counts, inf_row),
        rows_content(t.infosets@, order, seq_map, pseq, counts, 0),
        parent_above(seq_map, pseq, counts, inf_row, gtotal),
        owner_rows(pseq, counts, inf_row),
        done_children(cseq, slot_done, inf_row),
        visited_occurrence(cseq, slot_done, inf_row),
        forall|i4: int| 0 <= i4 < counts.len() ==> (#[trigger] inf_row[i4]) < counts.len(),
    ensures
        t.grouped_by_parent(),
{
    let n = counts.len();
    let gn = n as int;
    assert(cseq.len() == gtotal + 1);
    assert forall|k1: int, k2: int, k3: int|
        0 <= k1 <= k2 <= k3 < gn && (#[trigger] t.infosets@[k1]).parent_sequence == (
        #[trigger] t.infosets@[k3]).parent_sequence implies (
    #[trigger] t.infosets@[k2]).parent_sequence == t.infosets@[k1].parent_sequence by {
        if k1 < k2 && k2 < k3 {
            let i4 = order[k1] as int;
            let i5 = order[k2] as int;
            let i6 = order[k3] as int;
            assert(inf_row[i4] == k1 && inf_row[i5] == k2 && inf_row[i6] == k3);
            assert(pseq[i4] < cseq.len() && pseq[i6] < cseq.len());
            assert(seq_map[pseq[i4] as int] <= gtotal && seq_map[pseq[i6] as int] <= gtotal);
            assert(t.infosets@[k1].parent_sequence == seq_map[pseq[i4] as int]);
            assert(t.infosets@[k3].parent_sequence == seq_map[pseq[i6] as int]);
            lemma_sid_injective(
                seq_map,
                counts,
                inf_row,
                next_sid,
                gtotal,
                pseq[i4] as int,
                pseq[i6] as int,
            );
            let gp = pseq[i4] as int;
            // Both endpoints occur among the children of their common
            // parent slot, whose rows form one descending block; k2
            // falls inside it.
            let (s4, j4) = choose|s2: int, j2: int|
                0 <= s2 < cseq.len() && 0 <= j2 < cseq[s2]@.len() && slot_done[s2] && (
                #[trigger] cseq[s2]@[j2]) == i4;
            let (s6, j6) = choose|s2: int, j2: int|
                0 <= s2 < cseq.len() && 0 <= j2 < cseq[s2]@.len() && slot_done[s2] && (
                #[trigger] cseq[s2]@[j2]) == i6;
            assert(s4 == gp && s6 == gp);
            assert forall|j5: int, j7: int|
                0 <= j5 < cseq[gp]@.len() && 0 <= j7 < cseq[gp]@.len() implies inf_row[cseq[gp]@[
                j5] as int] - inf_row[cseq[gp]@[j7] as int] == j7 - j5 by {
                lemma_row_block(cseq, inf_row, gp, j5, j7, gn);
            }
            let j5 = j4 + (k1 - k2);
            assert(inf_row[cseq[gp]@[j4] as int] - inf_row[cseq[gp]@[j6] as int] == j6 - j4);
            assert(0 <= j5 < cseq[gp]@.len());
            assert(inf_row[cseq[gp]@[j5] as int] == k2);
            assert(order[k2] == cseq[gp]@[j5]);
            assert(pseq[i5] == gp);
        }
    }
}

/// The assembled rows obey the bottom-up topological order.
#[verifier::rlimit(100)]
#[verifier::spinoff_prover]
proof fn lemma_assembled_bottom_up(
    counts: Seq<usize>,
    pseq: Seq<usize>,
    cseq: Seq<Vec<usize>>,
    seq_map: Seq<usize>,
    inf_row: Seq<usize>,
    order: Seq<usize>,
    t: Treeplex,
    slot_done: Seq<bool>,
    next_sid: int,
    gtotal: int,
)
    requires
        discovery_tables_ok(pseq, counts, cseq),
        gtotal == slot_sum(counts, counts.len() as int),
        t.num_sequences == gtotal + 1,
        t.infosets.len() == counts.len(),
        order.len() == counts.len(),
        rows_coupled(order, inf_row, 0),
        sids_coupled(seq_map, counts, inf_row, next_sid, gtotal),
        blocks_disjoint(seq_map, counts, inf_row),
        rows_content(t.infosets@, order, seq_map, pseq, counts, 0),
        parent_above(seq_map, pseq, counts, inf_row, gtotal),
        owner_rows(pseq, counts, inf_row),
        done_children(cseq, slot_done, inf_row),
        visited_occurrence(cseq, slot_done, inf_row),
        forall|i4: int| 0 <= i4 < counts.len() ==> (#[trigger] inf_row[i4]) < counts.len(),
    ensures
        t.bottom_up_order(),
{
    let n = counts.len();
    let gn = n as int;
    assert(cseq.len() == gtotal + 1);
    assert forall|ka: int, kb: int|
        0 <= ka < gn && 0 <= kb < gn && (#[trigger] t.infosets@[kb]).contains_seq(
            (#[trigger] t.infosets@[ka]).parent_sequence as int,
        ) implies ka < kb by {
        let i4 = order[ka] as int;
        let i5 = order[kb] as int;
        assert(inf_row[i4] == ka && inf_row[i5] == kb);
        // The parent id of ka is an id inside i5's block, so the
        // parent slot is one of i5's slots.
        let gp = pseq[i4] as int;
        assert(pseq[i4] < cseq.len());
        let pid = seq_map[gp] as int;
        assert(t.infosets@[kb].start_sequence <= pid <= t.infosets@[kb].end_sequence);
        let a2 = seq_map[slot_sum(counts, i5)] - pid;
        assert(0 <= a2 < counts[i5]);
        assert(seq_map[slot_sum(counts, i5) + a2] == pid);
        lemma_slot_sum_monotone(counts, 0, i5);
        lemma_slot_sum_monotone(counts, i5 + 1, gn);
        assert(slot_sum(counts, i5) + a2 <= gtotal);
        assert(seq_map[gp] <= gtotal);
        lemma_sid_injective(
            seq_map,
            counts,
            inf_row,
            next_sid,
            gtotal,
            gp,
            slot_sum(counts, i5) + a2,
        );
        assert(slot_sum(counts, i5) <= gp < slot_sum(counts, i5) + counts[i5]);
        assert(inf_row[i4] < inf_row[i5]);
    }
}

/// The state before the walk satisfies every loop predicate: nothing
/// visited, every non-empty slot blank, only the empty slot pending.
#[verifier::spinoff_prover]
proof fn lemma_initial_invariants(
    counts: Seq<usize>,
    pseq: Seq<usize>,
    cseq: Seq<Vec<usize>>,
    seq_map: Seq<usize>,
    inf_row: Seq<usize>,
    order: Seq<usize>,
    rows: Seq<Infoset>,
    slot_done: Seq<bool>,
    stack: Seq<usize>,
    gtotal: int,
)
    requires
        discovery_tables_ok(pseq, counts, cseq),
        gtotal == slot_sum(counts, counts.len() as int),
        seq_map.len() == gtotal + 1,
        seq_map[gtotal] == gtotal,
        forall|s2: int| 0 <= s2 < gtotal ==> (#[trigger] seq_map[s2]) == gtotal + 1,
        inf_row.len() == counts.len(),
        order.len() == counts.len(),
        forall|i: int| 0 <= i < counts.len() ==> (#[trigger] inf_row[i]) == counts.len(),
        forall|k: int| 0 <= k < counts.len() ==> (#[trigger] order[k]) == counts.len(),
        slot_done.len() == gtotal + 1,
        forall|s2: int| 0 <= s2 < gtotal + 1 ==> !(#[trigger] slot_done[s2]),
        stack.len() == 1 && stack[0] == gtotal,
    ensures
        rows_coupled(order, inf_row, counts.len() as int),
        sids_coupled(seq_map, counts, inf_row, gtotal, gtotal),
        blocks_disjoint(seq_map, counts, inf_row),
        rows_content(rows, order, seq_map, pseq, counts, counts.len() as int),
        parent_above(seq_map, pseq, counts, inf_row, gtotal),
        owner_rows(pseq, counts, inf_row),
        done_children(cseq, slot_done, inf_row),
        visited_occurrence(cseq, slot_done, inf_row),
        slots_covered(stack, slot_done, counts, inf_row, gtotal),
{
    assert forall|i4: int, a2: int|
        0 <= i4 < counts.len() && 0 <= a2 < counts[i4] && inf_row[i4]
            >= counts.len() implies (#[trigger] seq_map[slot_sum(counts, i4) + a2]) == gtotal
        + 1 by {
        lemma_slot_sum_monotone(counts, 0, i4);
        lemma_slot_sum_monotone(counts, i4 + 1, counts.len() as int);
    }
    assert(slots_covered(stack, slot_done, counts, inf_row, gtotal)) by {
        assert(stack[0] == gtotal);
    }
}

/// A visited set covering every information set forces the row counter
/// to zero.
#[verifier::spinoff_prover]
proof fn lemma_all_rows_assigned(
    visited_set: Set<int>,
    inf_row: Seq<usize>,
    n: int,
    next_row: int,
)
    requires
        n == inf_row.len(),
        visited_set.finite(),
        visited_set.subset_of(vstd::set_lib::set_int_range(0, n)),
        visited_set.len() == n - next_row,
        forall|i2: int| visited_set.contains(i2) <==> (0 <= i2 < n && inf_row[i2] < n),
        forall|i4: int| 0 <= i4 < n ==> (#[trigger] inf_row[i4]) < n,
        0 <= next_row,
    ensures
        next_row == 0,
{
    assert(vstd::set_lib::set_int_range(0, n).subset_of(visited_set)) by {
        assert forall|i4: int|
            vstd::set_lib::set_int_range(0, n).contains(i4) implies visited_set.contains(i4) by {
            assert(inf_row[i4] < n);
        }
    }
    vstd::set_lib::lemma_len_subset(vstd::set_lib::set_int_range(0, n), visited_set);
    vstd::set_lib::lemma_int_range(0, n);
}

/// With the walk finished and every information set visited, the
/// assembled rows satisfy the treeplex ordering invariant.
#[verifier::rlimit(100)]
proof fn lemma_assembled_wf(
    counts: Seq<usize>,
    pseq: Seq<usize>,
    cseq: Seq<Vec<usize>>,
    seq_map: Seq<usize>,
    inf_row: Seq<usize>,
    order: Seq<usize>,
    t: Treeplex,
    slot_done: Seq<bool>,
    next_sid: int,
    gtotal: int,
)
    requires
        discovery_tables_ok(pseq, counts, cseq),
        gtotal == slot_sum(counts, counts.len() as int),
        t.num_sequences == gtotal + 1,
        t.infosets.len() == counts.len(),
        order.len() == counts.len(),
        rows_coupled(order, inf_row, 0),
        sids_coupled(seq_map, counts, inf_row, next_sid, gtotal),
        blocks_disjoint(seq_map, counts, inf_row),
        rows_content(t.infosets@, order, seq_map, pseq, counts, 0),
        parent_above(seq_map, pseq, counts, inf_row, gtotal),
        owner_rows(pseq, counts, inf_row),
        done_children(cseq, slot_done, inf_row),
        visited_occurrence(cseq, slot_done, inf_row),
        forall|i4: int| 0 <= i4 < counts.len() ==> (#[trigger] inf_row[i4]) < counts.len(),
    ensures
        t.wf(),
{
    let n = counts.len();
    let gn = n as int;
    // Well-formedness of each row.
    assert forall|k: int| 0 <= k < gn implies (#[trigger] t.infosets@[k]).wf(
        t.num_sequences as nat,
    ) by {
        let i4 = order[k] as int;
        assert(inf_row[i4] < n && inf_row[i4] == k);
    }
    assert forall|k1: int, k2: int| 0 <= k1 < k2 < gn implies ((
    #[trigger] t.infosets@[k1]).end_sequence < (#[trigger] t.infosets@[k2]).start_sequence
        || t.infosets@[k2].end_sequence < t.infosets@[k1].start_sequence) by {
        let i4 = order[k1] as int;
        let i5 = order[k2] as int;
        assert(inf_row[i4] == k1 && inf_row[i5] == k2);
        assert(i4 != i5);
    }
    lemma_assembled_grouped(
        counts,
        pseq,
        cseq,
        seq_map,
        inf_row,
        order,
        t,
        slot_done,
        next_sid,
        gtotal,
    );
    lemma_assembled_bottom_up(
        counts,
        pseq,
        cseq,
        seq_map,
        inf_row,
        order,
        t,
        slot_done,
        next_sid,
        gtotal,
    );
    assert(t.wf());
}

/// With every information set visited, the assembled outputs have the
/// advertised shape: distinct rows, exact row formulas, and descending
/// id blocks.
#[verifier::spinoff_prover]
proof fn lemma_final_shape(
    counts: Seq<usize>,
    pseq: Seq<usize>,
    seq_map: Seq<usize>,
    inf_row: Seq<usize>,
    order: Seq<usize>,
    t: Treeplex,
    next_sid: int,
    gtotal: int,
)
    requires
        gtotal == slot_sum(counts, counts.len() as int),
        t.infosets.len() == counts.len(),
        order.len() == counts.len(),
        pseq.len() == counts.len(),
        rows_coupled(order, inf_row, 0),
        sids_coupled(seq_map, counts, inf_row, next_sid, gtotal),
        rows_content(t.infosets@, order, seq_map, pseq, counts, 0),
        forall|i4: int| 0 <= i4 < counts.len() ==> (#[trigger] inf_row[i4]) < counts.len(),
    ensures
        forall|k1: int, k2: int|
            0 <= k1 < k2 < counts.len() ==> (#[trigger] order[k1]) != (#[trigger] order[k2]),
        forall|k: int|
            0 <= k < counts.len() ==> ({
                let i = (#[trigger] order[k]) as int;
                &&& i < counts.len()
                &&& t.infosets@[k].parent_sequence == seq_map[pseq[i] as int]
                &&& t.infosets@[k].end_sequence == seq_map[slot_sum(counts, i)]
                &&& t.infosets@[k].start_sequence + (counts[i] - 1) == t.infosets@[k].end_sequence
            }),
        forall|i: int, a: int|
            0 <= i < counts.len() && 0 <= a < counts[i] ==> (#[trigger] seq_map[slot_sum(counts, i)
                + a]) == seq_map[slot_sum(counts, i)] - a,
{
    assert forall|k1: int, k2: int|
        0 <= k1 < k2 < counts.len() implies (#[trigger] order[k1]) != (#[trigger] order[k2]) by {
        assert(inf_row[order[k1] as int] == k1);
        assert(inf_row[order[k2] as int] == k2);
    }
    assert forall|i: int, a: int|
        0 <= i < counts.len() && 0 <= a < counts[i] implies (#[trigger] seq_map[slot_sum(counts, i)
            + a]) == seq_map[slot_sum(counts, i)] - a by {
        assert(inf_row[i] < counts.len());
    }
}

/// Renumbers the discovery tables of one player's traversal into a
/// treeplex obeying the ordering invariant: ids are assigned in
/// top-down discovery order and both numberings are inverted, so row 0
/// is the deepest element and the empty sequence id is the highest.
/// Returns the treeplex, the discovered information set behind each
/// row, and the final sequence id of every flattened slot (the empty
/// slot kept last).  `None` exactly when some information set is not
/// reachable from the empty sequence, which is how a cyclically
/// generated game tree shows up in its discovery tables.
#[verifier::rlimit(100)]
#[verifier::spinoff_prover]
pub fn renumber_forest(
    player: Player,
    infoset_parent_seq: &Vec<usize>,
    infoset_num_actions: &Vec<usize>,
    children: &Vec<Vec<usize>>,
) -> (r: Option<(Treeplex, Vec<usize>, Vec<usize>)>)
    requires
        discovery_tables_ok(infoset_parent_seq@, infoset_num_actions@, children@),
    ensures
        ({
            let n = infoset_num_actions.len() as int;
            let total = slot_sum(infoset_num_actions@, n);
            match r {
                Some((t, order, seq_map)) => {
                    &&& t.wf()
                    &&& t.player == player
                    &&& t.num_sequences == total + 1
                    &&& t.infosets.len() == n
                    &&& t.seq_to_infoset_id_range.len() == 0
                    &&& order.len() == n
                    &&& seq_map.len() == total + 1
                    &&& seq_map@[total] == total
                    &&& forall|k1: int, k2: int|
                        0 <= k1 < k2 < n ==> (#[trigger] order@[k1]) != (#[trigger] order@[k2])
                    &&& forall|k: int|
                        0 <= k < n ==> ({
                            let i = (#[trigger] order@[k]) as int;
                            &&& i < n
                            &&& t.infosets@[k].parent_sequence == seq_map@[infoset_parent_seq@[
                                i] as int]
                            &&& t.infosets@[k].end_sequence == seq_map@[slot_sum(
                                infoset_num_actions@,
                                i,
                            )]
                            &&& t.infosets@[k].start_sequence + (infoset_num_actions@[i] - 1)
                                == t.infosets@[k].end_sequence
                        })
                    &&& forall|i: int, a: int|
                        0 <= i < n && 0 <= a < infoset_num_actions@[i] ==> (#[trigger] seq_map@[
                            slot_sum(infoset_num_actions@, i) + a]) == seq_map@[slot_sum(
                            infoset_num_actions@,
                            i,
                        )] - a
                },
                None => !(forall|i: int|
                    0 <= i < n ==> reachable(children@, infoset_num_actions@, i, n)),
            }
        }),
{
    let ghost counts = infoset_num_actions@;
    let ghost cseq = children@;
    let ghost pseq = infoset_parent_seq@;
    let n = infoset_num_actions.len();

    // Prefix sums of the action counts: the flattened slot of each
    // information set's first action.
    let mut slot_off: Vec<usize> = Vec::new();
    let mut acc: usize = 0;
    let mut i: usize = 0;
    while i < n
        invariant
            i <= n,
            n == counts.len(),
            slot_off.len() == i,
            acc == slot_sum(counts, i as int),
            forall|b: int| 0 <= b < i ==> (#[trigger] slot_off@[b]) == slot_sum(counts, b),
            slot_sum(counts, n as int) + 1 <= usize::MAX,
        decreases n - i,
    {
        proof {
            lemma_slot_sum_monotone(counts, i + 1, n as int);
        }
        slot_off.push(acc);
        acc = acc + infoset_num_actions[i];
        i = i + 1;
    }
    let total = acc;
    let ghost gtotal = total as int;

    let mut rows: Vec<Infoset> = crate::util::repeat(n, Infoset::new(0, 0, 0));
    let mut order: Vec<usize> = crate::util::repeat(n, n);
    let mut inf_row: Vec<usize> = crate::util::repeat(n, n);
    let mut seq_map: Vec<usize> = crate::util::repeat(total + 1, total + 1);
    seq_map.set(total, total);
    let mut slot_done: Vec<bool> = crate::util::repeat(total + 1, false);
    let mut stack: Vec<usize> = Vec::new();
    stack.push(total);
    let mut next_row: usize = n;
    let mut next_sid: usize = total;
    let ghost mut visited_set: Set<int> = Set::empty();
    let ghost mut assigned_slots: Set<int> = Set::empty();
    let ghost mut done_set: Set<int> = Set::empty();

    proof {
        vstd::set_lib::lemma_int_range(0, n as int);
        vstd::set_lib::lemma_int_range(0, gtotal);
        vstd::set_lib::lemma_int_range(0, gtotal + 1);
        broadcast use vstd::set::axiom_set_empty_len;

        lemma_initial_invariants(
            counts,
            pseq,
            cseq,
            seq_map@,
            inf_row@,
            order@,
            rows@,
            slot_done@,
            stack@,
            gtotal,
        );
    }

    while stack.len() > 0
        invariant
            n == counts.len() && n == pseq.len(),
            cseq.len() == gtotal + 1,
            gtotal == slot_sum(counts, n as int),
            gtotal + 1 <= usize::MAX,
            rows.len() == n,
            order.len() == n,
            slot_done.len() == gtotal + 1,
            forall|b: int| 0 <= b < n ==> (#[trigger] slot_off@[b]) == slot_sum(counts, b),
            slot_off.len() == n,
            rows_coupled(order@, inf_row@, next_row as int),
            sids_coupled(seq_map@, counts, inf_row@, next_sid as int, gtotal),
            blocks_disjoint(seq_map@, counts, inf_row@),
            rows_content(rows@, order@, seq_map@, pseq, counts, next_row as int),
            parent_above(seq_map@, pseq, counts, inf_row@, gtotal),
            owner_rows(pseq, counts, inf_row@),
            done_children(cseq, slot_done@, inf_row@),
            visited_occurrence(cseq, slot_done@, inf_row@),
            slots_covered(stack@, slot_done@, counts, inf_row@, gtotal),
            forall|s2: int| 0 <= s2 <= gtotal && slot_done@[s2] ==> seq_map@[s2] <= gtotal,
            forall|e: int|
                0 <= e < stack.len() ==> (#[trigger] stack@[e]) < cseq.len() && !slot_done@[stack@[
                    e] as int] && seq_map@[stack@[e] as int] <= gtotal,
            forall|e1: int, e2: int|
                0 <= e1 < e2 < stack.len() ==> (#[trigger] stack@[e1]) != (#[trigger] stack@[e2]),
            visited_set.finite() && visited_set.subset_of(vstd::set_lib::set_int_range(0, n as int))
                && visited_set.len() == n - next_row,
            forall|i2: int| visited_set.contains(i2) <==> (0 <= i2 < n && inf_row@[i2] < n),
            assigned_slots.finite() && assigned_slots.subset_of(
                vstd::set_lib::set_int_range(0, gtotal),
            ) && assigned_slots.len() == gtotal - next_sid,
            forall|s2: int|
                assigned_slots.contains(s2) <==> (0 <= s2 < gtotal && seq_map@[s2] <= gtotal),
            done_set.finite() && done_set.subset_of(vstd::set_lib::set_int_range(0, gtotal + 1)),
            forall|s2: int| done_set.contains(s2) <==> (0 <= s2 < gtotal + 1 && slot_done@[s2]),
        decreases (gtotal + 1) - done_set.len(),
    {
        let ghost done_entry = slot_done@;
        let ghost stack_entry = stack@;
        let ghost inf_entry = inf_row@;
        let s = match stack.pop() {
            Some(x) => x,
            None => {
                proof {
                    assert(false);
                }
                0
            },
        };
        proof {
            assert(s == stack_entry[stack_entry.len() - 1]);
            vstd::set_lib::lemma_len_subset(done_set, vstd::set_lib::set_int_range(0, gtotal + 1));
            vstd::set_lib::lemma_int_range(0, gtotal + 1);
            assert(!done_set.contains(s as int));
            broadcast use vstd::set::axiom_set_insert_len;

            assert(done_set.insert(s as int).len() == done_set.len() + 1);
            vstd::set_lib::lemma_len_subset(
                done_set.insert(s as int),
                vstd::set_lib::set_int_range(0, gtotal + 1),
            );
        }
        slot_done.set(s, true);
        proof {
            done_set = done_set.insert(s as int);
            // Occurrence witnesses of already-visited sets persist:
            // only s changed, from unexpanded to expanded.
            assert forall|i2: int|
                0 <= i2 < n && (#[trigger] inf_row@[i2]) < n implies exists|s2: int, j2: int|
                0 <= s2 < cseq.len() && 0 <= j2 < cseq[s2]@.len() && slot_done@[s2] && (
                    #[trigger] cseq[s2]@[j2]) == i2 by {
                let (s2, j2) = choose|s2: int, j2: int|
                    0 <= s2 < cseq.len() && 0 <= j2 < cseq[s2]@.len() && done_entry[s2] && (
                        #[trigger] cseq[s2]@[j2]) == i2;
                assert(slot_done@[s2]);
            }
            // Slot coverage persists: pending slots other than s keep
            // their stack position, and s itself is now expanded.
            assert forall|i2: int, a: int|
                #![trigger slot_done@[slot_sum(counts, i2) + a]]
                0 <= i2 < n && 0 <= a < counts[i2] && inf_row@[i2] < n implies (slot_done@[slot_sum(
                counts,
                i2,
            ) + a] || exists|e: int|
                0 <= e < stack.len() && (#[trigger] stack@[e]) == slot_sum(counts, i2) + a) by {
                if !slot_done@[slot_sum(counts, i2) + a] {
                    lemma_slot_sum_monotone(counts, 0, i2);
                    lemma_slot_sum_monotone(counts, i2 + 1, n as int);
                    assert(!done_entry[slot_sum(counts, i2) + a]);
                    let e0 = choose|e: int|
                        0 <= e < stack_entry.len() && (#[trigger] stack_entry[e]) == slot_sum(
                            counts,
                            i2,
                        ) + a;
                    // The pending slot is not the one just popped:
                    // that one is now expanded.
                    if e0 == stack_entry.len() - 1 {
                        assert(stack_entry[e0] == s as int);
                        assert(slot_sum(counts, i2) + a == s as int);
                        assert(slot_done@[s as int]);
                        assert(false);
                    }
                    assert(stack@[e0] == slot_sum(counts, i2) + a);
                }
            }
            // The empty slot stays covered: it is either already
            // expanded (or is s itself), or keeps its stack position.
            if !slot_done@[gtotal] {
                assert(!done_entry[gtotal]);
                let e0 = choose|e: int|
                    0 <= e < stack_entry.len() && (#[trigger] stack_entry[e]) == gtotal;
                if e0 == stack_entry.len() - 1 {
                    assert(stack_entry[e0] == s as int);
                    assert(gtotal == s as int);
                    assert(slot_done@[s as int]);
                    assert(false);
                }
                assert(stack@[e0] == gtotal);
            }
        }

        let c_len = children[s].len();
        let mut j: usize = 0;
        while j < c_len
            invariant
                n == counts.len() && n == pseq.len(),
                cseq.len() == gtotal + 1,
                gtotal == slot_sum(counts, n as int),
                gtotal + 1 <= usize::MAX,
                rows.len() == n,
                order.len() == n,
                slot_done.len() == gtotal + 1,
                forall|b: int| 0 <= b < n ==> (#[trigger] slot_off@[b]) == slot_sum(counts, b),
                slot_off.len() == n,
                s < cseq.len(),
                slot_done@[s as int],
                seq_map@[s as int] <= gtotal,
                j <= c_len,
                c_len == cseq[s as int]@.len(),
                forall|j2: int|
                    0 <= j2 < j ==> inf_row@[(#[trigger] cseq[s as int]@[j2]) as int] < n
                        && inf_row@[cseq[s as int]@[j2] as int] == next_row + (j - 1 - j2),
                rows_coupled(order@, inf_row@, next_row as int),
                sids_coupled(seq_map@, counts, inf_row@, next_sid as int, gtotal),
                blocks_disjoint(seq_map@, counts, inf_row@),
                rows_content(rows@, order@, seq_map@, pseq, counts, next_row as int),
                parent_above(seq_map@, pseq, counts, inf_row@, gtotal),
                owner_rows(pseq, counts, inf_row@),
                done_children(cseq, done_entry, inf_row@),
                visited_occurrence(cseq, done_entry, inf_entry),
                slot_done@ == done_entry.update(s as int, true),
                !done_entry[s as int],
                forall|i4: int|
                    0 <= i4 < n && (#[trigger] inf_row@[i4]) < n && inf_entry[i4] >= n ==> exists|
                        j2: int,
                    |
                        0 <= j2 < j && (#[trigger] cseq[s as int]@[j2]) == i4,
                slots_covered(stack@, slot_done@, counts, inf_row@, gtotal),
                forall|s2: int| 0 <= s2 <= gtotal && slot_done@[s2] ==> seq_map@[s2] <= gtotal,
                forall|e: int|
                    0 <= e < stack.len() ==> (#[trigger] stack@[e]) < cseq.len() && !slot_done@[
                        stack@[e] as int] && seq_map@[stack@[e] as int] <= gtotal,
                forall|e1: int, e2: int|
                    0 <= e1 < e2 < stack.len() ==> (#[trigger] stack@[e1]) != (
                    #[trigger] stack@[e2]),
                visited_set.finite() && visited_set.subset_of(
                    vstd::set_lib::set_int_range(0, n as int),
                ) && visited_set.len() == n - next_row,
                forall|i2: int| visited_set.contains(i2) <==> (0 <= i2 < n && inf_row@[i2] < n),
                assigned_slots.finite() && assigned_slots.subset_of(
                    vstd::set_lib::set_int_range(0, gtotal),
                ) && assigned_slots.len() == gtotal - next_sid,
                forall|s2: int|
                    assigned_slots.contains(s2) <==> (0 <= s2 < gtotal && seq_map@[s2] <= gtotal),
                done_set.finite() && done_set.subset_of(
                    vstd::set_lib::set_int_range(0, gtotal + 1),
                ),
                forall|s2: int| done_set.contains(s2) <==> (0 <= s2 < gtotal + 1 && slot_done@[s2]),
            decreases c_len - j,
        {
            let i2 = children[s][j];
            proof {
                // i2 is fresh: its only occurrence is (s, j); a set
                // visited before this expansion stems from a slot that
                // was already expanded, and one visited during it from
                // an earlier position of the block.
                if inf_row@[i2 as int] < n {
                    if inf_entry[i2 as int] < n {
                        let (s3, j3) = choose|s3: int, j3: int|
                            0 <= s3 < cseq.len() && 0 <= j3 < cseq[s3]@.len() && done_entry[s3] && (
                            #[trigger] cseq[s3]@[j3]) == i2 as int;
                        assert(s3 == s as int && j3 == j as int);
                        assert(false);
                    } else {
                        let j3 = choose|j2: int|
                            0 <= j2 < j && (#[trigger] cseq[s as int]@[j2]) == i2 as int;
                        assert(false);
                    }
                }
                broadcast use vstd::set::axiom_set_insert_len;

                vstd::set_lib::lemma_int_range(0, n as int);
                assert(!visited_set.contains(i2 as int));
                vstd::set_lib::lemma_len_subset(
                    visited_set.insert(i2 as int),
                    vstd::set_lib::set_int_range(0, n as int),
                );
            }
            // Assign the next row, counting down.
            let row = next_row - 1;
            let ghost inf_row_entry = inf_row@;
            let ghost seq_map_entry = seq_map@;
            proof {
                // The parent slot of i2 is s itself, already expanded
                // and assigned, and i2's own block is still blank.
                assert(pseq[i2 as int] == s as int);
                assert forall|a2: int|
                    0 <= a2 < counts[i2 as int] implies #[trigger] seq_map@[slot_sum(
                    counts,
                    i2 as int,
                ) + a2] == gtotal + 1 by {}
            }
            inf_row.set(i2, row);
            order.set(row, i2);
            next_row = row;
            proof {
                visited_set = visited_set.insert(i2 as int);
            }

            // Assign the id block of i2's slots, counting down, and
            // queue the slots for expansion.
            let na = infoset_num_actions[i2];
            let base = slot_off[i2];
            let ghost end_sid: int = next_sid as int - 1;
            let ghost old_stack = stack@;
            let mut a: usize = 0;
            while a < na
                invariant
                    n == counts.len(),
                    gtotal == slot_sum(counts, n as int),
                    gtotal + 1 <= usize::MAX,
                    i2 < n,
                    na == counts[i2 as int],
                    base == slot_sum(counts, i2 as int),
                    a <= na,
                    next_sid == end_sid + 1 - a,
                    0 <= next_sid,
                    end_sid < gtotal,
                    seq_map.len() == gtotal + 1,
                    seq_map@[gtotal] == gtotal,
                    forall|a2: int|
                        0 <= a2 < a ==> (#[trigger] seq_map@[base + a2]) == end_sid - a2,
                    forall|a2: int|
                        a <= a2 < na ==> (#[trigger] seq_map@[base + a2]) == gtotal + 1,
                    forall|s2: int|
                        0 <= s2 <= gtotal && !(base <= s2 < base + na) ==> (#[trigger] seq_map@[s2])
                            == seq_map_entry[s2],
                    stack.len() == old_stack.len() + a,
                    forall|e: int| 0 <= e < old_stack.len() ==> (#[trigger] stack@[e]) == old_stack[e],
                    forall|e: int|
                        old_stack.len() <= e < stack.len() ==> (#[trigger] stack@[e]) == base + (na
                            - 1) - (e - old_stack.len()),
                    assigned_slots.finite() && assigned_slots.subset_of(
                        vstd::set_lib::set_int_range(0, gtotal),
                    ) && assigned_slots.len() == gtotal - next_sid,
                    forall|s2: int|
                        assigned_slots.contains(s2) <==> (0 <= s2 < gtotal && seq_map@[s2]
                            <= gtotal),
                decreases na - a,
            {
                proof {
                    lemma_slot_sum_monotone(counts, i2 as int + 1, n as int);
                    assert(base + na <= gtotal);
                    assert(seq_map@[base + a] == gtotal + 1);
                    assert(!assigned_slots.contains(base + a));
                    broadcast use vstd::set::axiom_set_insert_len;

                    vstd::set_lib::lemma_len_subset(
                        assigned_slots.insert(base + a),
                        vstd::set_lib::set_int_range(0, gtotal),
                    );
                    vstd::set_lib::lemma_int_range(0, gtotal);
                }
                let sid = next_sid - 1;
                seq_map.set(base + a, sid);
                stack.push(base + (na - 1) - a);
                next_sid = sid;
                proof {
                    assigned_slots = assigned_slots.insert(base + a);
                }
                a = a + 1;
            }

            // The parent slot's id is s's own id (the empty sequence's
            // for the root slot); the block's top id becomes the row's
            // end sequence.
            proof {
                lemma_slot_sum_monotone(counts, i2 as int + 1, n as int);
                assert(base + na <= gtotal);
                assert(pseq[i2 as int] < cseq.len());
                assert(seq_map@[base + 0] == end_sid - 0);
                assert(seq_map@[base as int] == end_sid);
                assert(end_sid - (na - 1) == next_sid as int);
            }
            let parent_id = seq_map[infoset_parent_seq[i2]];
            let end_id = seq_map[base];
            let start_id = end_id - (na - 1);
            rows.set(row, Infoset::new(parent_id, start_id, end_id));

            proof {
                lemma_slot_sum_monotone(counts, i2 as int + 1, n as int);
                let gi2 = i2 as int;
                let gs = s as int;
                // s lies outside i2's freshly written block: its owner
                // was already visited, so it is not i2.
                assert(seq_map@[gs] == seq_map_entry[gs] && seq_map@[gs] <= gtotal) by {
                    if gs != gtotal {
                        let o = lemma_assigned_owner(
                            seq_map_entry,
                            counts,
                            inf_row_entry,
                            end_sid + 1,
                            gtotal,
                            gs,
                        );
                        lemma_slot_ranges_disjoint(counts, o, gi2);
                    }
                };
                assert(seq_map@[gs] > end_sid) by {
                    if gs != gtotal {
                        let o = lemma_assigned_owner(
                            seq_map_entry,
                            counts,
                            inf_row_entry,
                            end_sid + 1,
                            gtotal,
                            gs,
                        );
                    }
                };
                // Frame: every other visited set's block and parent are
                // untouched by the new writes.
                assert forall|i4: int|
                    0 <= i4 < n && i4 != gi2 && (#[trigger] inf_row@[i4]) < n implies (seq_map@[
                    slot_sum(counts, i4)] == seq_map_entry[slot_sum(counts, i4)] && (forall|a2: int|
                    0 <= a2 < counts[i4] ==> (#[trigger] seq_map@[slot_sum(counts, i4) + a2])
                        == seq_map_entry[slot_sum(counts, i4) + a2]) && seq_map@[pseq[i4] as int]
                    == seq_map_entry[pseq[i4] as int]) by {
                    lemma_slot_ranges_disjoint(counts, i4, gi2);
                    lemma_slot_sum_monotone(counts, 0, i4);
                    lemma_slot_sum_monotone(counts, i4 + 1, n as int);
                    assert(inf_row_entry[i4] < n);
                    if base <= pseq[i4] < base + na {
                        let a3 = pseq[i4] - base;
                        assert(seq_map_entry[slot_sum(counts, gi2) + a3] == gtotal + 1);
                        assert(seq_map_entry[pseq[i4] as int] == gtotal + 1);
                        assert(false);
                    }
                }
                // sids_coupled for the new state.
                assert forall|i4: int|
                    0 <= i4 < n && (#[trigger] inf_row@[i4]) < n implies seq_map@[slot_sum(
                    counts,
                    i4,
                )] < gtotal && seq_map@[slot_sum(counts, i4)] - (counts[i4] - 1)
                    >= next_sid as int by {
                    lemma_slot_sum_monotone(counts, 0, i4);
                    lemma_slot_sum_monotone(counts, i4 + 1, n as int);
                    if i4 != gi2 {
                        lemma_slot_ranges_disjoint(counts, i4, gi2);
                        assert(inf_row_entry[i4] < n);
                    }
                }
                assert(sids_coupled(seq_map@, counts, inf_row@, next_sid as int, gtotal)) by {
                    assert forall|i4: int, a2: int|
                        0 <= i4 < n && 0 <= a2 < counts[i4] && (#[trigger] inf_row@[i4])
                            < n implies (#[trigger] seq_map@[slot_sum(counts, i4) + a2]) == seq_map@[
                        slot_sum(counts, i4)] - a2 by {
                        lemma_slot_sum_monotone(counts, 0, i4);
                        lemma_slot_sum_monotone(counts, i4 + 1, n as int);
                        if i4 != gi2 {
                            lemma_slot_ranges_disjoint(counts, i4, gi2);
                            assert(inf_row_entry[i4] < n);
                        }
                    }
                    assert forall|i4: int, a2: int|
                        0 <= i4 < n && 0 <= a2 < counts[i4] && (#[trigger] inf_row@[i4])
                            >= n implies (#[trigger] seq_map@[slot_sum(counts, i4) + a2]) == gtotal
                        + 1 by {
                        lemma_slot_sum_monotone(counts, 0, i4);
                        lemma_slot_sum_monotone(counts, i4 + 1, n as int);
                        lemma_slot_ranges_disjoint(counts, i4, gi2);
                        assert(inf_row_entry[i4] >= n);
                    }
                };
                // blocks stay disjoint: the new block sits strictly
                // below every older one.
                assert(blocks_disjoint(seq_map@, counts, inf_row@)) by {
                    assert forall|i4: int, i5: int|
                        0 <= i4 < n && 0 <= i5 < n && i4 != i5 && (#[trigger] inf_row@[i4]) < n && (
                        #[trigger] inf_row@[i5]) < n implies (seq_map@[slot_sum(counts, i4)] - (
                    counts[i4] - 1) > seq_map@[slot_sum(counts, i5)] || seq_map@[slot_sum(
                        counts,
                        i5,
                    )] - (counts[i5] - 1) > seq_map@[slot_sum(counts, i4)]) by {
                        if i4 != gi2 && i5 != gi2 {
                            assert(inf_row_entry[i4] < n && inf_row_entry[i5] < n);
                            lemma_slot_ranges_disjoint(counts, i4, gi2);
                            lemma_slot_ranges_disjoint(counts, i5, gi2);
                        } else {
                            let other = if i4 == gi2 {
                                i5
                            } else {
                                i4
                            };
                            assert(inf_row_entry[other] < n);
                            lemma_slot_ranges_disjoint(counts, other, gi2);
                        }
                    }
                };
                // rows stay coupled and their contents stand.
                assert(rows_coupled(order@, inf_row@, next_row as int));
                assert(rows_content(rows@, order@, seq_map@, pseq, counts, next_row as int)) by {
                    assert forall|k: int| next_row <= k < n implies ({
                        let i4 = (#[trigger] order@[k]) as int;
                        &&& rows@[k].parent_sequence == seq_map@[pseq[i4] as int]
                        &&& rows@[k].end_sequence == seq_map@[slot_sum(counts, i4)]
                        &&& rows@[k].start_sequence + (counts[i4] - 1) == rows@[k].end_sequence
                    }) by {
                        let i4 = order@[k] as int;
                        if k != row {
                            assert(i4 != gi2);
                            lemma_slot_ranges_disjoint(counts, i4, gi2);
                            assert(inf_row_entry[i4] < n);
                            if base <= pseq[i4] < base + na {
                                let a3 = pseq[i4] - base;
                                assert(seq_map_entry[slot_sum(counts, gi2) + a3] == gtotal + 1);
                                assert(seq_map_entry[pseq[i4] as int] == gtotal + 1);
                                assert(false);
                            }
                        }
                    }
                };
                assert(parent_above(seq_map@, pseq, counts, inf_row@, gtotal)) by {
                    assert forall|i4: int|
                        0 <= i4 < n && (#[trigger] inf_row@[i4]) < n implies seq_map@[pseq[
                        i4] as int] <= gtotal && seq_map@[pseq[i4] as int] > seq_map@[slot_sum(
                        counts,
                        i4,
                    )] by {
                        if i4 != gi2 {
                            lemma_slot_ranges_disjoint(counts, i4, gi2);
                            assert(inf_row_entry[i4] < n);
                            if base <= pseq[i4] < base + na {
                                let a3 = pseq[i4] - base;
                                assert(seq_map_entry[slot_sum(counts, gi2) + a3] == gtotal + 1);
                                assert(seq_map_entry[pseq[i4] as int] == gtotal + 1);
                                assert(false);
                            }
                        }
                    }
                };
                // the owner of i2's parent slot is visited with a
                // higher row; everything older is untouched.
                assert(owner_rows(pseq, counts, inf_row@)) by {
                    assert forall|i4: int, i5: int|
                        0 <= i4 < n && 0 <= i5 < n && (#[trigger] inf_row@[i4]) < n && slot_sum(
                            counts,
                            i5,
                        ) <= pseq[i4] < slot_sum(counts, i5) + counts[i5] implies (
                    #[trigger] inf_row@[i5]) < n && inf_row@[i4] < inf_row@[i5] by {
                        if i4 == gi2 {
                            lemma_slot_sum_monotone(counts, 0, i5);
                            lemma_slot_sum_monotone(counts, i5 + 1, n as int);
                            if gs == gtotal {
                                // the empty slot lies in no action range
                                assert(false);
                            } else {
                                // pseq[i2] == s, owned by an earlier
                                // visit.
                                let o = lemma_assigned_owner(
                                    seq_map_entry,
                                    counts,
                                    inf_row_entry,
                                    end_sid + 1,
                                    gtotal,
                                    gs,
                                );
                                lemma_slot_ranges_disjoint(counts, o, gi2);
                                if i5 != o {
                                    lemma_slot_ranges_disjoint(counts, i5, o);
                                    assert(false);
                                }
                            }
                        } else {
                            assert(inf_row_entry[i4] < n);
                            if i5 == gi2 {
                                assert(inf_row_entry[i5] >= n);
                                assert(false);
                            }
                        }
                    }
                };
                // the new visit is recorded at its block position, and
                // expanded slots' children are untouched by it.
                assert forall|i4: int|
                    0 <= i4 < n && (#[trigger] inf_row@[i4]) < n && inf_entry[i4]
                        >= n implies exists|j2: int|
                    0 <= j2 < j + 1 && (#[trigger] cseq[gs]@[j2]) == i4 by {
                    if i4 == gi2 {
                        assert(cseq[gs]@[j as int] == i4);
                    } else {
                        assert(inf_row_entry[i4] < n);
                        let j3 = choose|j2: int|
                            0 <= j2 < j && (#[trigger] cseq[gs]@[j2]) == i4;
                        assert(cseq[gs]@[j3] == i4);
                    }
                }
                assert(done_children(cseq, done_entry, inf_row@)) by {
                    assert forall|s2: int, j2: int|
                        0 <= s2 < cseq.len() && 0 <= j2 < cseq[s2]@.len() && done_entry[
                            s2] implies inf_row@[(#[trigger] cseq[s2]@[j2]) as int] < n && (j2 > 0
                        ==> inf_row@[cseq[s2]@[j2] as int] + 1 == inf_row@[cseq[s2]@[j2
                            - 1] as int]) by {
                        assert(cseq[s2]@[j2] != gi2);
                        if j2 > 0 {
                            assert(cseq[s2]@[j2 - 1] != gi2);
                        }
                    }
                };
                assert(slots_covered(stack@, slot_done@, counts, inf_row@, gtotal)) by {
                    if !slot_done@[gtotal] {
                        let e0 = choose|e: int|
                            0 <= e < old_stack.len() && (#[trigger] old_stack[e]) == gtotal;
                        assert(stack@[e0] == gtotal);
                    }
                    assert forall|i4: int, a2: int|
                        #![trigger slot_done@[slot_sum(counts, i4) + a2]]
                        0 <= i4 < n && 0 <= a2 < counts[i4] && inf_row@[i4] < n implies (slot_done@[
                        slot_sum(counts, i4) + a2] || exists|e: int|
                        0 <= e < stack.len() && (#[trigger] stack@[e]) == slot_sum(counts, i4)
                            + a2) by {
                        if i4 == gi2 {
                            let e1 = old_stack.len() as int + (na - 1 - a2);
                            assert(stack@[e1] == base + a2);
                        } else {
                            assert(inf_row_entry[i4] < n);
                            if !slot_done@[slot_sum(counts, i4) + a2] {
                                let e0 = choose|e: int|
                                    0 <= e < old_stack.len() && (#[trigger] old_stack[e])
                                        == slot_sum(counts, i4) + a2;
                                assert(stack@[e0] == slot_sum(counts, i4) + a2);
                            }
                        }
                    }
                };
                // stack discipline: the new slots are fresh, assigned
                // and unexpanded.
                assert forall|e: int| 0 <= e < stack.len() implies (#[trigger] stack@[e])
                    < cseq.len() && !slot_done@[stack@[e] as int] && seq_map@[stack@[e] as int]
                    <= gtotal by {
                    if e < old_stack.len() {
                        assert(stack@[e] == old_stack[e]);
                        if base <= old_stack[e] < base + na {
                            let a3 = old_stack[e] - base;
                            assert(seq_map_entry[slot_sum(counts, gi2) + a3] == gtotal + 1);
                            assert(seq_map_entry[old_stack[e] as int] == gtotal + 1);
                            assert(false);
                        }
                    } else {
                        assert(stack@[e] == base + (na - 1) - (e - old_stack.len()));
                        let a3 = (na - 1) - (e - old_stack.len());
                        assert(seq_map@[base + a3] == end_sid - a3);
                        assert(seq_map@[stack@[e] as int] == end_sid - a3);
                        if slot_done@[stack@[e] as int] {
                            let a4 = stack@[e] - base;
                            assert(seq_map_entry[slot_sum(counts, gi2) + a4] == gtotal + 1);
                            assert(seq_map_entry[stack@[e] as int] == gtotal + 1);
                            assert(false);
                        }
                    }
                }
                assert forall|s2: int|
                    0 <= s2 <= gtotal && slot_done@[s2] implies seq_map@[s2] <= gtotal by {
                    if base <= s2 < base + na {
                        let a3 = s2 - base;
                        assert(seq_map_entry[slot_sum(counts, gi2) + a3] == gtotal + 1);
                        assert(false);
                    }
                }
                assert forall|e1: int, e2: int| 0 <= e1 < e2 < stack.len() implies (
                #[trigger] stack@[e1]) != (#[trigger] stack@[e2]) by {
                    if e1 < old_stack.len() && e2 >= old_stack.len() {
                        assert(stack@[e2] == base + (na - 1) - (e2 - old_stack.len()));
                        if base <= old_stack[e1] < base + na {
                            let a3 = old_stack[e1] - base;
                            assert(seq_map_entry[slot_sum(counts, gi2) + a3] == gtotal + 1);
                            assert(seq_map_entry[old_stack[e1] as int] == gtotal + 1);
                            assert(false);
                        }
                    }
                }
            }
            j = j + 1;
        }
        proof {
            // The whole sibling block of s is now expanded: its
            // children are visited with consecutive descending rows,
            // and every visit traces to an expanded slot.
            assert(done_children(cseq, slot_done@, inf_row@)) by {
                assert forall|s2: int, j2: int|
                    0 <= s2 < cseq.len() && 0 <= j2 < cseq[s2]@.len() && slot_done@[
                        s2] implies inf_row@[(#[trigger] cseq[s2]@[j2]) as int] < n by {
                    if s2 == s as int {
                        assert(inf_row@[cseq[s as int]@[j2] as int] == next_row + (c_len as int - 1
                            - j2));
                    }
                }
                assert forall|s2: int, j2: int|
                    0 <= s2 < cseq.len() && 0 < j2 < cseq[s2]@.len() && slot_done@[
                        s2] implies inf_row@[(#[trigger] cseq[s2]@[j2]) as int] + 1 == inf_row@[
                    cseq[s2]@[j2 - 1] as int] by {
                    if s2 == s as int {
                        assert(inf_row@[cseq[s as int]@[j2] as int] == next_row + (c_len as int - 1
                            - j2));
                        assert(inf_row@[cseq[s as int]@[j2 - 1] as int] == next_row + (c_len as int
                            - 1 - (j2 - 1)));
                    }
                }
            };
            assert(visited_occurrence(cseq, slot_done@, inf_row@)) by {
                assert forall|i4: int|
                    0 <= i4 < n && (#[trigger] inf_row@[i4]) < n implies exists|s2: int, j2: int|
                    0 <= s2 < cseq.len() && 0 <= j2 < cseq[s2]@.len() && slot_done@[s2] && (
                    #[trigger] cseq[s2]@[j2]) == i4 by {
                    if inf_entry[i4] < n {
                        let (s2, j2) = choose|s2: int, j2: int|
                            0 <= s2 < cseq.len() && 0 <= j2 < cseq[s2]@.len() && done_entry[s2] && (
                            #[trigger] cseq[s2]@[j2]) == i4;
                        assert(slot_done@[s2]);
                        assert(cseq[s2]@[j2] == i4);
                    } else {
                        let j3 = choose|j2: int|
                            0 <= j2 < c_len && (#[trigger] cseq[s as int]@[j2]) == i4;
                        assert(slot_done@[s as int]);
                        assert(cseq[s as int]@[j3] == i4);
                    }
                }
            };
        }
    }

    // Every information set must have been discovered; an unreachable
    // one (how a cyclic game tree manifests here) is rejected.
    let mut i3: usize = 0;
    while i3 < n
        invariant
            i3 <= n,
            n == counts.len(),
            forall|i4: int| 0 <= i4 < i3 ==> (#[trigger] inf_row@[i4]) < n,
        decreases n - i3,
    {
        if inf_row[i3] == n {
            proof {
                // The stack is drained, so coverage says every pending
                // slot was expanded; a reachable set would have been
                // visited.
                assert(slot_done@[gtotal]);
                assert forall|s2: int, j2: int|
                    0 <= s2 < cseq.len() && 0 <= j2 < cseq[s2]@.len() implies (
                #[trigger] cseq[s2]@[j2]) < n && slot_sum(counts, cseq[s2]@[j2] as int) >= 0 by {
                    lemma_slot_sum_monotone(counts, 0, cseq[s2]@[j2] as int);
                }
                if reachable(cseq, counts, i3 as int, n as int) {
                    lemma_reachable_visited(
                        cseq,
                        counts,
                        slot_done@,
                        inf_row@,
                        gtotal,
                        i3 as int,
                        n as int,
                    );
                }
                assert(!reachable(cseq, counts, i3 as int, n as int));
            }
            return None;
        }
        i3 = i3 + 1;
    }

    proof {
        // All information sets are visited, so every row and every
        // slot id is assigned.
        lemma_all_rows_assigned(visited_set, inf_row@, n as int, next_row as int);
    }

    let t = Treeplex::new(player, total + 1, rows);
    proof {
        lemma_assembled_wf(
            counts,
            pseq,
            cseq,
            seq_map@,
            inf_row@,
            order@,
            t,
            slot_done@,
            next_sid as int,
            gtotal,
        );
        lemma_final_shape(
            counts,
            pseq,
            seq_map@,
            inf_row@,
            order@,
            t,
            next_sid as int,
            gtotal,
        );
    }

    Some((t, order, seq_map))
}

/// Rows of one sibling block differ by exactly the index difference.
proof fn lemma_row_block(
    children: Seq<Vec<usize>>,
    inf_row: Seq<usize>,
    s: int,
    j1: int,
    j2: int,
    n: int,
)
    requires
        0 <= s < children.len(),
        0 <= j1 < children[s]@.len(),
        0 <= j2 < children[s]@.len(),
        forall|j3: int|
            0 < j3 < children[s]@.len() ==> inf_row[(#[trigger] children[s]@[j3]) as int] + 1
                == inf_row[children[s]@[j3 - 1] as int],
    ensures
        inf_row[children[s]@[j1] as int] - inf_row[children[s]@[j2] as int] == j2 - j1,
    decreases (if j1 < j2 { j2 - j1 } else { j1 - j2 }),
{
    if j1 < j2 {
        lemma_row_block(children, inf_row, s, j1, j2 - 1, n);
    } else if j2 < j1 {
        lemma_row_block(children, inf_row, s, j1 - 1, j2, n);
    }
}

} // verus!
