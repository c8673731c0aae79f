//! Subgame preprocessing over a labeled game: which information sets
//! belong to one subgame, which sequences are reachable from the root
//! without entering any subgame, and which head information set each
//! subgame sequence lies under.

use vstd::prelude::*;

use crate::game::ExtensiveFormGame;
use crate::game::SubgameOrFree;
use crate::player::Player;
use crate::treeplex::Treeplex;
use crate::treeplex_tools::TreeplexTools;

verus! {

/// The subgame labels of `player`'s information sets.
pub open spec fn labels_of(g: ExtensiveFormGame, player: Player) -> Seq<SubgameOrFree> {
    match player {
        Player::Player1 => g.subgames_pl1@,
        Player::Player2 => g.subgames_pl2@,
    }
}

/// The treeplex of `player`.
pub open spec fn treeplex_of(g: ExtensiveFormGame, player: Player) -> Treeplex {
    match player {
        Player::Player1 => g.treeplex_pl1,
        Player::Player2 => g.treeplex_pl2,
    }
}

/// Sequence `s` lies on the trunk: it is the empty sequence, or an
/// action of a free information set whose own parent sequence lies on
/// the trunk.  A top-down walk that stops at subgame heads visits
/// exactly the trunk sequences.
pub open spec fn trunk_visited(t: Treeplex, labels: Seq<SubgameOrFree>, s: int) -> bool
    decreases t.num_sequences - s,
{
    s == t.num_sequences - 1 || exists|i: int|
        #![trigger t.infosets@[i].contains_seq(s)]
        0 <= i < t.infosets.len() && t.infosets@[i].contains_seq(s) && labels[i] is Free && s
            < t.infosets@[i].parent_sequence < t.num_sequences && trunk_visited(
            t,
            labels,
            t.infosets@[i].parent_sequence as int,
        )
}

/// Information set `i` is a head of some subgame: it carries a subgame
/// label and hangs below a trunk sequence.
pub open spec fn is_subgame_head(t: Treeplex, labels: Seq<SubgameOrFree>, i: int) -> bool {
    &&& labels[i] is Subgame
    &&& trunk_visited(t, labels, t.infosets@[i].parent_sequence as int)
}

/// Whether `player`'s side of the game is coherent enough to
/// preprocess: well-formed treeplex, one label per information set,
/// labels bounded by the subgame count, and tables computed over that
/// treeplex.
pub open spec fn side_ok(
    g: ExtensiveFormGame,
    player: Player,
    tools: TreeplexTools,
) -> bool {
    &&& treeplex_of(g, player).wf()
    &&& labels_of(g, player).len() == treeplex_of(g, player).infosets.len()
    &&& crate::game::labels_below(labels_of(g, player), g.num_subgames as int)
    &&& tools.wf_for(treeplex_of(g, player))
}

/// Marks the information sets of `player` carrying the label of one
/// subgame.
pub fn relevant_infosets(game: &ExtensiveFormGame, player: Player, subgame_id: usize) -> (r: Vec<
    bool,
>)
    requires
        labels_of(*game, player).len() == treeplex_of(*game, player).infosets.len(),
    ensures
        r.len() == treeplex_of(*game, player).infosets.len(),
        forall|i: int|
            0 <= i < r.len() ==> (#[trigger] r@[i] == (labels_of(*game, player)[i]
                == SubgameOrFree::Subgame(subgame_id))),
{
    let treeplex = game.treeplex(player);
    let n_inf = treeplex.num_infosets();
    let mut is_relevant_infoset: Vec<bool> = Vec::new();
    let mut i: usize = 0;
    while i < n_inf
        invariant
            i <= n_inf,
            is_relevant_infoset.len() == i,
            forall|j: int|
                0 <= j < i ==> (#[trigger] is_relevant_infoset@[j] == (labels_of(*game, player)[j]
                    == SubgameOrFree::Subgame(subgame_id))),
        decreases n_inf - i,
    {
        let relevant = match game.subgame(player, i) {
            SubgameOrFree::Subgame(x) => x == subgame_id,
            SubgameOrFree::Free => false,
        };
        is_relevant_infoset.push(relevant);
        i = i + 1;
    }
    is_relevant_infoset
}



/// Groups recorded `(subgame, head)` pairs into one list per subgame,
/// preserving the pairs' strictly decreasing head order.
fn group_heads(
    head_pairs: &Vec<(usize, usize)>,
    num_subgames: usize,
    Ghost(t): Ghost<Treeplex>,
    Ghost(labels): Ghost<Seq<SubgameOrFree>>,
) -> (r: Vec<Vec<usize>>)
    requires
        forall|k: int|
            0 <= k < head_pairs.len() ==> ({
                let pair = #[trigger] head_pairs@[k];
                &&& pair.1 < t.infosets.len()
                &&& labels[pair.1 as int] == SubgameOrFree::Subgame(pair.0)
                &&& is_subgame_head(t, labels, pair.1 as int)
            }),
        forall|k1: int, k2: int|
            0 <= k1 < k2 < head_pairs.len() ==> (#[trigger] head_pairs@[k1]).1 > (
            #[trigger] head_pairs@[k2]).1,
    ensures
        r.len() == num_subgames,
        forall|x: int, k: int|
            0 <= x < num_subgames && 0 <= k < r@[x].len() ==> ({
                let hd = (#[trigger] r@[x]@[k]) as int;
                &&& 0 <= hd < t.infosets.len()
                &&& labels[hd] == SubgameOrFree::Subgame(x as usize)
                &&& is_subgame_head(t, labels, hd)
            }),
        forall|kp: int|
            #![trigger head_pairs@[kp]]
            0 <= kp < head_pairs.len() && head_pairs@[kp].0 < num_subgames ==> exists|k: int|
                0 <= k < r@[head_pairs@[kp].0 as int].len() && (#[trigger] r@[head_pairs@[kp].0 as int]@[
                    k]) == head_pairs@[kp].1,
        forall|x: int, k1: int, k2: int|
            0 <= x < num_subgames && 0 <= k1 < k2 < r@[x].len() ==> (#[trigger] r@[x]@[k1]) > (
            #[trigger] r@[x]@[k2]),
{
    let mut heads: Vec<Vec<usize>> = Vec::new();
    let mut x: usize = 0;
    while x < num_subgames
        invariant
            x <= num_subgames,
            heads.len() == x,
            forall|k: int|
                0 <= k < head_pairs.len() ==> ({
                    let pair = #[trigger] head_pairs@[k];
                    &&& pair.1 < t.infosets.len()
                    &&& labels[pair.1 as int] == SubgameOrFree::Subgame(pair.0)
                    &&& is_subgame_head(t, labels, pair.1 as int)
                }),
            forall|k1: int, k2: int|
                0 <= k1 < k2 < head_pairs.len() ==> (#[trigger] head_pairs@[k1]).1 > (
                #[trigger] head_pairs@[k2]).1,
            forall|x2: int, k: int|
                0 <= x2 < x && 0 <= k < heads@[x2].len() ==> ({
                    let hd = (#[trigger] heads@[x2]@[k]) as int;
                    &&& 0 <= hd < t.infosets.len()
                    &&& labels[hd] == SubgameOrFree::Subgame(x2 as usize)
                    &&& is_subgame_head(t, labels, hd)
                }),
            forall|kp: int|
                #![trigger head_pairs@[kp]]
                0 <= kp < head_pairs.len() && head_pairs@[kp].0 < x ==> exists|k: int|
                    0 <= k < heads@[head_pairs@[kp].0 as int].len() && (#[trigger] heads@[
                        head_pairs@[kp].0 as int]@[k]) == head_pairs@[kp].1,
            forall|x2: int, k1: int, k2: int|
                0 <= x2 < x && 0 <= k1 < k2 < heads@[x2].len() ==> (#[trigger] heads@[x2]@[k1]) > (
                #[trigger] heads@[x2]@[k2]),
        decreases num_subgames - x,
    {
        let mut lst: Vec<usize> = Vec::new();
        let n_pairs = head_pairs.len();
        let mut k: usize = 0;
        while k < n_pairs
            invariant
                k <= n_pairs,
                n_pairs == head_pairs.len(),
                x < num_subgames,
                forall|kk: int|
                    0 <= kk < head_pairs.len() ==> ({
                        let pair = #[trigger] head_pairs@[kk];
                        &&& pair.1 < t.infosets.len()
                        &&& labels[pair.1 as int] == SubgameOrFree::Subgame(pair.0)
                        &&& is_subgame_head(t, labels, pair.1 as int)
                    }),
                forall|k1: int, k2: int|
                    0 <= k1 < k2 < head_pairs.len() ==> (#[trigger] head_pairs@[k1]).1 > (
                    #[trigger] head_pairs@[k2]).1,
                forall|j1: int|
                    0 <= j1 < lst.len() ==> ({
                        let hd = (#[trigger] lst@[j1]) as int;
                        &&& 0 <= hd < t.infosets.len()
                        &&& labels[hd] == SubgameOrFree::Subgame(x)
                        &&& is_subgame_head(t, labels, hd)
                    }),
                forall|kp: int|
                    0 <= kp < k && (#[trigger] head_pairs@[kp]).0 == x ==> exists|j1: int|
                        0 <= j1 < lst.len() && (#[trigger] lst@[j1]) == head_pairs@[kp].1,
                forall|j1: int, j2: int|
                    0 <= j1 < j2 < lst.len() ==> (#[trigger] lst@[j1]) > (#[trigger] lst@[j2]),
                forall|kk: int|
                    k <= kk < head_pairs.len() && lst.len() > 0 ==> lst@[lst.len() - 1] > (
                    #[trigger] head_pairs@[kk]).1,
            decreases n_pairs - k,
        {
            let (px, pj) = head_pairs[k];
            if px == x {
                let ghost old_lst = lst@;
                lst.push(pj);
                proof {
                    assert forall|kp: int|
                        0 <= kp < k + 1 && (#[trigger] head_pairs@[kp]).0 == x implies exists|
                        j1: int,
                    |
                        0 <= j1 < lst.len() && (#[trigger] lst@[j1]) == head_pairs@[kp].1 by {
                        if kp == k {
                            assert(lst@[lst.len() - 1] == head_pairs@[kp].1);
                        } else {
                            let j0 = choose|j1: int|
                                0 <= j1 < old_lst.len() && (#[trigger] old_lst[j1])
                                    == head_pairs@[kp].1;
                            assert(lst@[j0] == head_pairs@[kp].1);
                        }
                    }
                }
            }
            k = k + 1;
        }
        let ghost lst_view = lst@;
        let ghost old_heads = heads@;
        heads.push(lst);
        proof {
            assert forall|kp: int|
                #![trigger head_pairs@[kp]]
                0 <= kp < head_pairs.len() && head_pairs@[kp].0 < x + 1 implies exists|k2: int|
                0 <= k2 < heads@[head_pairs@[kp].0 as int].len() && (#[trigger] heads@[head_pairs@[
                    kp].0 as int]@[k2]) == head_pairs@[kp].1 by {
                let x2 = head_pairs@[kp].0 as int;
                if x2 == x {
                    assert(heads@[x2]@ =~= lst_view);
                    let j0 = choose|j1: int|
                        0 <= j1 < lst_view.len() && (#[trigger] lst_view[j1])
                            == head_pairs@[kp].1;
                    assert(heads@[x2]@[j0] == head_pairs@[kp].1);
                } else {
                    let k0 = choose|k2: int|
                        0 <= k2 < old_heads[x2]@.len() && (#[trigger] old_heads[x2]@[k2])
                            == head_pairs@[kp].1;
                    assert(heads@[x2]@[k0] == head_pairs@[kp].1);
                }
            }
            assert forall|x2: int, k2: int|
                0 <= x2 < x + 1 && 0 <= k2 < heads@[x2].len() implies ({
                let hd = (#[trigger] heads@[x2]@[k2]) as int;
                &&& 0 <= hd < t.infosets.len()
                &&& labels[hd] == SubgameOrFree::Subgame(x2 as usize)
                &&& is_subgame_head(t, labels, hd)
            }) by {
                if x2 == x {
                    assert(heads@[x2]@ =~= lst_view);
                    assert(heads@[x2]@[k2] == lst_view[k2]);
                } else {
                    assert(heads@[x2]@ =~= old_heads[x2]@);
                    assert(heads@[x2]@[k2] == old_heads[x2]@[k2]);
                }
            }
            assert forall|x2: int, k1: int, k2: int|
                0 <= x2 < x + 1 && 0 <= k1 < k2 < heads@[x2].len() implies (
            #[trigger] heads@[x2]@[k1]) > (#[trigger] heads@[x2]@[k2]) by {
                if x2 == x {
                    assert(heads@[x2]@ =~= lst_view);
                    assert(heads@[x2]@[k1] == lst_view[k1]);
                    assert(heads@[x2]@[k2] == lst_view[k2]);
                } else {
                    assert(heads@[x2]@ =~= old_heads[x2]@);
                    assert(heads@[x2]@[k1] == old_heads[x2]@[k1]);
                    assert(heads@[x2]@[k2] == old_heads[x2]@[k2]);
                }
            }
        }
        x = x + 1;
    }
    heads
}

/// One pass over the information sets — the bottom-up array walked in
/// reverse, so top-down — recording per sequence the subgame head
/// above it, and the list of `(subgame, head)` pairs in discovery
/// order.  A head's whole descendant range is marked; the walk does
/// not descend past heads, which is what [`trunk_visited`] captures.
pub fn preprocess_treeplex_subgames(
    game: &ExtensiveFormGame,
    player: Player,
    treeplex_tools: &TreeplexTools,
) -> (r: (Vec<Vec<usize>>, Vec<Option<usize>>))
    requires
        side_ok(*game, player, *treeplex_tools),
    ensures
        ({
            let t = treeplex_of(*game, player);
            let labels = labels_of(*game, player);
            &&& r.1.len() == t.num_sequences
            &&& forall|s: int|
                0 <= s < t.num_sequences ==> ((#[trigger] r.1@[s]) matches Some(i) ==> 0 <= i
                    < t.infosets.len() && is_subgame_head(t, labels, i as int)
                    && treeplex_tools.seqs_under_infosets@[i as int].0 <= s
                    <= treeplex_tools.seqs_under_infosets@[i as int].1)
            &&& forall|s: int, i: int|
                #![trigger r.1@[s], t.infosets@[i]]
                0 <= s < t.num_sequences && 0 <= i < t.infosets.len() && is_subgame_head(
                    t,
                    labels,
                    i,
                ) && treeplex_tools.seqs_under_infosets@[i].0 <= s
                    <= treeplex_tools.seqs_under_infosets@[i].1 ==> r.1@[s] is Some
            &&& r.0.len() == game.num_subgames
            &&& forall|x: int, k: int|
                0 <= x < r.0.len() && 0 <= k < r.0@[x].len() ==> ({
                    let i = (#[trigger] r.0@[x]@[k]) as int;
                    &&& 0 <= i < t.infosets.len()
                    &&& labels[i] == SubgameOrFree::Subgame(x as usize)
                    &&& is_subgame_head(t, labels, i)
                })
            &&& forall|i: int|
                0 <= i < t.infosets.len() && (#[trigger] labels[i]) is Subgame && is_subgame_head(
                    t,
                    labels,
                    i,
                ) ==> exists|k: int|
                    0 <= k < r.0@[labels[i]->0 as int].len() && (#[trigger] r.0@[labels[i]->0 as int]@[k])
                        == i
            &&& forall|x: int, k1: int, k2: int|
                0 <= x < r.0.len() && 0 <= k1 < k2 < r.0@[x].len() ==> (#[trigger] r.0@[x]@[k1]) > (
                #[trigger] r.0@[x]@[k2])
        }),
{
    let ghost t = treeplex_of(*game, player);
    let ghost labels = labels_of(*game, player);
    let treeplex = game.treeplex(player);
    let n_seq = treeplex.num_sequences();
    let n_inf = treeplex.num_infosets();

    let mut visited: Vec<bool> = crate::util::repeat(n_seq, false);
    visited.set(n_seq - 1, true);
    let mut seq_to_head: Vec<Option<usize>> = crate::util::repeat(n_seq, None);
    let mut head_pairs: Vec<(usize, usize)> = Vec::new();

    let mut i: usize = n_inf;
    while i > 0
        invariant
            i <= n_inf,
            visited.len() == n_seq,
            seq_to_head.len() == n_seq,
            visited@[n_seq - 1] == true,
            forall|s: int|
                0 <= s < n_seq - 1 ==> (#[trigger] visited@[s] == exists|j: int|
                    #![trigger t.infosets@[j].contains_seq(s)]
                    i <= j < n_inf && t.infosets@[j].contains_seq(s) && labels[j] is Free
                        && trunk_visited(t, labels, t.infosets@[j].parent_sequence as int)),
            forall|s: int|
                0 <= s < n_seq ==> ((#[trigger] seq_to_head@[s]) matches Some(jj) ==> i <= jj
                    < n_inf && is_subgame_head(t, labels, jj as int)
                    && treeplex_tools.seqs_under_infosets@[jj as int].0 <= s
                    <= treeplex_tools.seqs_under_infosets@[jj as int].1),
            forall|s: int, jj: int|
                #![trigger seq_to_head@[s], t.infosets@[jj]]
                0 <= s < n_seq && i <= jj < n_inf && is_subgame_head(t, labels, jj)
                    && treeplex_tools.seqs_under_infosets@[jj].0 <= s
                    <= treeplex_tools.seqs_under_infosets@[jj].1 ==> seq_to_head@[s] is Some,
            forall|k: int|
                0 <= k < head_pairs.len() ==> ({
                    let pair = #[trigger] head_pairs@[k];
                    &&& i <= pair.1 < n_inf
                    &&& labels[pair.1 as int] == SubgameOrFree::Subgame(pair.0)
                    &&& is_subgame_head(t, labels, pair.1 as int)
                }),
            forall|jj: int|
                0 <= jj < n_inf ==> (i <= jj && (#[trigger] labels[jj]) is Subgame
                    && is_subgame_head(t, labels, jj) ==> exists|k: int|
                    0 <= k < head_pairs.len() && (#[trigger] head_pairs@[k]).1 == jj),
            forall|k1: int, k2: int|
                0 <= k1 < k2 < head_pairs.len() ==> (#[trigger] head_pairs@[k1]).1 > (
                #[trigger] head_pairs@[k2]).1,
        decreases i,
    {
        let idx = i - 1;
        let infoset = treeplex.infosets[idx];
        let p = infoset.parent_sequence;
        assert(p < n_seq);
        proof {
            // The parent's trunk status is already final: any
            // information set containing p lies above idx in the
            // array.
            assert(visited@[p as int] == trunk_visited(t, labels, p as int)) by {
                if p < n_seq - 1 {
                    if visited@[p as int] {
                        let j = choose|j: int|
                            #![trigger t.infosets@[j].contains_seq(p as int)]
                            i <= j < n_inf && t.infosets@[j].contains_seq(p as int) && labels[j]
                                is Free && trunk_visited(
                                t,
                                labels,
                                t.infosets@[j].parent_sequence as int,
                            );
                        assert(trunk_visited(t, labels, p as int));
                    }
                    if trunk_visited(t, labels, p as int) {
                        let j = choose|j: int|
                            #![trigger t.infosets@[j].contains_seq(p as int)]
                            0 <= j < t.infosets.len() && t.infosets@[j].contains_seq(p as int)
                                && labels[j] is Free && p < t.infosets@[j].parent_sequence
                                < t.num_sequences && trunk_visited(
                                t,
                                labels,
                                t.infosets@[j].parent_sequence as int,
                            );
                        assert(idx < j);
                        assert(visited@[p as int]);
                    }
                }
            }
        }
        let parent_on_trunk = visited[p];
        if parent_on_trunk {
            match game.subgame(player, idx) {
                SubgameOrFree::Free => {
                    // Free information set on the trunk: its whole
                    // action range joins the trunk.
                    let ghost old_visited = visited@;
                    let mut s = infoset.start_sequence;
                    while s <= infoset.end_sequence
                        invariant
                            infoset == t.infosets@[idx as int],
                            idx < n_inf,
                            infoset.start_sequence <= s <= infoset.end_sequence + 1,
                            visited.len() == n_seq,
                            forall|v: int|
                                0 <= v < n_seq && !(infoset.start_sequence <= v < s) ==> (
                                #[trigger] visited@[v]) == old_visited[v],
                            forall|v: int|
                                infoset.start_sequence <= v < s ==> (#[trigger] visited@[v])
                                    == true,
                        decreases infoset.end_sequence + 1 - s,
                    {
                        visited.set(s, true);
                        s = s + 1;
                    }
                    proof {
                        assert forall|s2: int| 0 <= s2 < n_seq - 1 implies (
                        #[trigger] visited@[s2] == exists|j: int|
                            #![trigger t.infosets@[j].contains_seq(s2)]
                            idx <= j < n_inf && t.infosets@[j].contains_seq(s2) && labels[j] is Free
                                && trunk_visited(
                                t,
                                labels,
                                t.infosets@[j].parent_sequence as int,
                            )) by {
                            if infoset.contains_seq(s2) {
                                assert(visited@[s2]);
                                assert(t.infosets@[idx as int].contains_seq(s2));
                            } else {
                                assert(visited@[s2] == old_visited[s2]);
                            }
                        }
                    }
                },
                SubgameOrFree::Subgame(x) => {
                    // A head: record it and mark its whole descendant
                    // range, without descending further.
                    let ghost old_pairs = head_pairs@;
                    head_pairs.push((x, idx));
                    proof {
                        assert forall|jj: int|
                            0 <= jj < n_inf && idx <= jj && (#[trigger] labels[jj]) is Subgame
                                && is_subgame_head(t, labels, jj) implies exists|k: int|
                            0 <= k < head_pairs.len() && (#[trigger] head_pairs@[k]).1 == jj by {
                            if jj == idx {
                                assert(head_pairs@[head_pairs.len() - 1].1 == jj);
                            } else {
                                let k0 = choose|k: int|
                                    0 <= k < old_pairs.len() && (#[trigger] old_pairs[k]).1 == jj;
                                assert(head_pairs@[k0].1 == jj);
                            }
                        }
                        crate::treeplex_tools::lemma_under_infoset_range_valid(
                            t,
                            treeplex_tools.seqs_under_infosets@,
                            idx as int,
                        );
                    }
                    let (lo, hi) = treeplex_tools.seqs_under_infoset(idx);
                    let ghost old_map = seq_to_head@;
                    let mut s = lo;
                    while s <= hi
                        invariant
                            idx < n_inf,
                            is_subgame_head(t, labels, idx as int),
                            (lo, hi) == treeplex_tools.seqs_under_infosets@[idx as int],
                            lo <= s <= hi + 1,
                            hi < n_seq,
                            seq_to_head.len() == n_seq,
                            forall|v: int|
                                0 <= v < n_seq && !(lo <= v < s) ==> (#[trigger] seq_to_head@[v])
                                    == old_map[v],
                            forall|v: int|
                                lo <= v < s ==> (#[trigger] seq_to_head@[v]) == Some(idx),
                        decreases hi + 1 - s,
                    {
                        seq_to_head.set(s, Some(idx));
                        s = s + 1;
                    }
                },
            }
        } else {
            proof {
                // Below a non-trunk parent nothing is recorded: the
                // information set is not a head and its actions are
                // not on the trunk.
                assert(!trunk_visited(t, labels, p as int));
            }
        }
        i = idx;
    }

    // Regroup the recorded pairs into one head list per subgame.
    let heads = group_heads(&head_pairs, game.num_subgames(), Ghost(t), Ghost(labels));
    proof {
        // Every subgame head carries a label below the subgame count,
        // so its list exists and contains it.
        assert forall|jj: int|
            0 <= jj < n_inf && (#[trigger] labels[jj]) is Subgame && is_subgame_head(
                t,
                labels,
                jj,
            ) implies exists|k: int|
            0 <= k < heads@[labels[jj]->0 as int].len() && (#[trigger] heads@[labels[jj]->0 as int]@[
                k]) == jj by {
            let x2 = labels[jj]->0 as int;
            assert(labels[jj].spec_to_integer() <= game.num_subgames);
            let kp = choose|k: int|
                0 <= k < head_pairs.len() && (#[trigger] head_pairs@[k]).1 == jj;
            assert(head_pairs@[kp].0 == x2);
            assert(head_pairs@[kp].0 < game.num_subgames);
            let j0 = choose|j1: int|
                0 <= j1 < heads@[x2].len() && (#[trigger] heads@[x2]@[j1]) == head_pairs@[kp].1;
            assert(heads@[x2]@[j0] == jj);
        }
    }

        (heads, seq_to_head)
}

} // verus!
