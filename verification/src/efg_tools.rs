//! Sorted indices over the payoff matrix: for each player, the entry
//! indices ordered by that player's terminal sequence, plus per-sequence
//! index ranges.  Together they answer "all leaves at or under this
//! sequence or information set" in one slice lookup.

use vstd::prelude::*;

use crate::game::ExtensiveFormGame;
use crate::payoff::PayoffMatrixEntry;
use crate::player::Player;
use crate::treeplex::lemma_desc_bounds;
use crate::treeplex_tools::TreeplexTools;

verus! {

/// The terminal sequence of `player` at entry `e`.
pub open spec fn entry_seq(e: PayoffMatrixEntry, player: Player) -> int {
    match player {
        Player::Player1 => e.seq_pl1 as int,
        Player::Player2 => e.seq_pl2 as int,
    }
}

/// Index `x` occurs somewhere in `sorted`.
pub open spec fn appears_in(sorted: Seq<usize>, x: int) -> bool {
    exists|k: int| 0 <= k < sorted.len() && (#[trigger] sorted[k]) == x
}

/// `sorted` lists entry indices ordered by `player`'s sequence,
/// breaking ties by entry index, and lists every entry index.
pub open spec fn sorted_ok_for(
    entries: Seq<PayoffMatrixEntry>,
    player: Player,
    sorted: Seq<usize>,
) -> bool {
    &&& forall|k: int| 0 <= k < sorted.len() ==> (#[trigger] sorted[k]) < entries.len()
    &&& forall|x: int| 0 <= x < entries.len() ==> #[trigger] appears_in(sorted, x)
    &&& forall|k1: int, k2: int|
        0 <= k1 < k2 < sorted.len() ==> (entry_seq(entries[(#[trigger] sorted[k1]) as int], player)
            < entry_seq(entries[(#[trigger] sorted[k2]) as int], player) || (entry_seq(
            entries[sorted[k1] as int],
            player,
        ) == entry_seq(entries[sorted[k2] as int], player) && sorted[k1] < sorted[k2]))
}

/// `ranges[s]` is the block of positions of `sorted` holding the
/// entries whose `player` sequence is `s`; the blocks tile `sorted`
/// from start to end in sequence order.
pub open spec fn ranges_ok_for(
    entries: Seq<PayoffMatrixEntry>,
    player: Player,
    sorted: Seq<usize>,
    ranges: Seq<(usize, usize)>,
    num_seqs: int,
) -> bool {
    &&& ranges.len() == num_seqs
    &&& num_seqs > 0 ==> (#[trigger] ranges[0]).0 == 0
    &&& num_seqs > 0 ==> ranges[num_seqs - 1].1 == sorted.len()
    &&& forall|s: int| 0 <= s < num_seqs - 1 ==> (#[trigger] ranges[s]).1 == ranges[s + 1].0
    &&& forall|s: int|
        0 <= s < num_seqs ==> {
            &&& (#[trigger] ranges[s]).0 <= ranges[s].1 <= sorted.len()
            &&& forall|k: int|
                0 <= k < sorted.len() ==> ((ranges[s].0 <= k < ranges[s].1) <==> entry_seq(
                    entries[(#[trigger] sorted[k]) as int],
                    player,
                ) == s)
        }
}

/// The blocks of `ranges` never cross: an earlier sequence's block ends
/// no later than a later sequence's block begins.
pub proof fn lemma_ranges_monotone(
    entries: Seq<PayoffMatrixEntry>,
    player: Player,
    sorted: Seq<usize>,
    ranges: Seq<(usize, usize)>,
    num_seqs: int,
    s1: int,
    s2: int,
)
    requires
        ranges_ok_for(entries, player, sorted, ranges, num_seqs),
        0 <= s1 <= s2 < num_seqs,
    ensures
        ranges[s1].1 <= ranges[s2].1,
        ranges[s1].0 <= ranges[s2].0,
    decreases s2 - s1,
{
    if s1 < s2 {
        lemma_ranges_monotone(entries, player, sorted, ranges, num_seqs, s1 + 1, s2);
    }
}


/// Positions between the start of sequence `lo`'s block and the end of
/// sequence `hi`'s block are exactly those whose key lies in
/// `[lo, hi]`.
#[verifier::rlimit(60)]
pub proof fn lemma_block_bounds(
    entries: Seq<PayoffMatrixEntry>,
    player: Player,
    sorted: Seq<usize>,
    ranges: Seq<(usize, usize)>,
    num_seqs: int,
    lo: int,
    hi: int,
)
    requires
        ranges_ok_for(entries, player, sorted, ranges, num_seqs),
        forall|k: int| 0 <= k < sorted.len() ==> (#[trigger] sorted[k]) < entries.len(),
        forall|x: int| #![trigger entries[x]]
            0 <= x < entries.len() ==> 0 <= entry_seq(entries[x], player) < num_seqs,
        0 <= lo <= hi < num_seqs,
    ensures
        ranges[lo].0 <= ranges[hi].1 <= sorted.len(),
        forall|k: int|
            0 <= k < sorted.len() ==> ((ranges[lo].0 <= k < ranges[hi].1) <==> lo <= entry_seq(
                entries[(#[trigger] sorted[k]) as int],
                player,
            ) <= hi),
{
    lemma_ranges_monotone(entries, player, sorted, ranges, num_seqs, lo, hi);
    assert forall|k: int| 0 <= k < sorted.len() implies ((ranges[lo].0 <= k < ranges[hi].1)
        <==> lo <= entry_seq(entries[(#[trigger] sorted[k]) as int], player) <= hi) by {
        let sv = entry_seq(entries[sorted[k] as int], player);
        if lo <= sv <= hi {
            lemma_ranges_monotone(entries, player, sorted, ranges, num_seqs, lo, sv);
            lemma_ranges_monotone(entries, player, sorted, ranges, num_seqs, sv, hi);
        }
        if ranges[lo].0 <= k < ranges[hi].1 {
            if sv < lo {
                lemma_ranges_monotone(entries, player, sorted, ranges, num_seqs, sv + 1, lo);
                assert(k < ranges[sv as int].1);
                assert(ranges[sv as int].1 <= ranges[lo].0);
                assert(false);
            }
            if sv > hi {
                lemma_ranges_monotone(entries, player, sorted, ranges, num_seqs, hi, sv - 1);
                assert(ranges[sv as int].0 <= k);
                assert(ranges[hi].1 <= ranges[sv as int].0);
                assert(false);
            }
        }
    }
}

/// Precomputed leaf-index tables over one game's payoff matrix.
pub struct EFGTools {
    pub num_payoff_entries: usize,

    /// Payoff-entry indices sorted by each player's terminal sequence.
    pub payoffs_sorted_pl1: Vec<usize>,
    pub payoffs_sorted_pl2: Vec<usize>,

    /// For each sequence of each player, the block of sorted positions
    /// holding that sequence's leaves.
    pub payoffs_range_sorted_pl1: Vec<(usize, usize)>,
    pub payoffs_range_sorted_pl2: Vec<(usize, usize)>,

    /// The game the tables were computed over.
    pub game: Ghost<ExtensiveFormGame>,
}

impl EFGTools {
    pub open spec fn sorted_for(self, player: Player) -> Seq<usize> {
        match player {
            Player::Player1 => self.payoffs_sorted_pl1@,
            Player::Player2 => self.payoffs_sorted_pl2@,
        }
    }

    pub open spec fn ranges_for(self, player: Player) -> Seq<(usize, usize)> {
        match player {
            Player::Player1 => self.payoffs_range_sorted_pl1@,
            Player::Player2 => self.payoffs_range_sorted_pl2@,
        }
    }

    pub open spec fn num_seqs_for(self, player: Player) -> int {
        match player {
            Player::Player1 => self.game@.treeplex_pl1.num_sequences as int,
            Player::Player2 => self.game@.treeplex_pl2.num_sequences as int,
        }
    }

    /// All tables are present and correct for the recorded game.
    pub open spec fn wf(self) -> bool {
        &&& self.num_payoff_entries == self.game@.payoff_matrix.entries.len()
        &&& self.game@.payoff_matrix.seqs_bounded(
            self.game@.treeplex_pl1.num_sequences as nat,
            self.game@.treeplex_pl2.num_sequences as nat,
        )
        &&& sorted_ok_for(
            self.game@.payoff_matrix.entries@,
            Player::Player1,
            self.payoffs_sorted_pl1@,
        )
        &&& sorted_ok_for(
            self.game@.payoff_matrix.entries@,
            Player::Player2,
            self.payoffs_sorted_pl2@,
        )
        &&& ranges_ok_for(
            self.game@.payoff_matrix.entries@,
            Player::Player1,
            self.payoffs_sorted_pl1@,
            self.payoffs_range_sorted_pl1@,
            self.game@.treeplex_pl1.num_sequences as int,
        )
        &&& ranges_ok_for(
            self.game@.payoff_matrix.entries@,
            Player::Player2,
            self.payoffs_sorted_pl2@,
            self.payoffs_range_sorted_pl2@,
            self.game@.treeplex_pl2.num_sequences as int,
        )
    }

    /// Builds the leaf-index tables for `game`.
    pub fn new(game: &ExtensiveFormGame) -> (r: EFGTools)
        requires
            game.payoff_matrix.seqs_bounded(
                game.treeplex_pl1.num_sequences as nat,
                game.treeplex_pl2.num_sequences as nat,
            ),
        ensures
            r.game@ == *game,
            r.wf(),
    {
        let payoffs_sorted_pl1 = Self::precompute_payoffs_sorted(game, Player::Player1);
        let payoffs_sorted_pl2 = Self::precompute_payoffs_sorted(game, Player::Player2);
        let payoffs_range_sorted_pl1 = Self::precompute_payoffs_range_sorted_pl1(
            game,
            &payoffs_sorted_pl1,
        );
        let payoffs_range_sorted_pl2 = Self::precompute_payoffs_range_sorted_pl2(
            game,
            &payoffs_sorted_pl2,
        );
        EFGTools {
            num_payoff_entries: game.num_payoff_entries(),
            payoffs_sorted_pl1,
            payoffs_sorted_pl2,
            payoffs_range_sorted_pl1,
            payoffs_range_sorted_pl2,
            game: Ghost(*game),
        }
    }

    /// Entry indices ordered by `player`'s sequence, ties broken by
    /// entry index, collected by one pass per sequence id.
    #[verifier::rlimit(100)]
    fn precompute_payoffs_sorted(game: &ExtensiveFormGame, player: Player) -> (r: Vec<usize>)
        requires
            game.payoff_matrix.seqs_bounded(
                game.treeplex_pl1.num_sequences as nat,
                game.treeplex_pl2.num_sequences as nat,
            ),
        ensures
            sorted_ok_for(game.payoff_matrix.entries@, player, r@),
    {
        let ghost entries = game.payoff_matrix.entries@;
        let n = game.num_payoff_entries();
        let n_seq = game.treeplex(player).num_sequences();
        let mut sorted: Vec<usize> = Vec::new();

        let mut s: usize = 0;
        while s < n_seq
            invariant
                s <= n_seq,
                n == entries.len(),
                forall|k: int| 0 <= k < sorted.len() ==> (#[trigger] sorted@[k]) < n,
                forall|k: int|
                    0 <= k < sorted.len() ==> entry_seq(
                        entries[(#[trigger] sorted@[k]) as int],
                        player,
                    ) < s,
                forall|x: int|
                    #![trigger entries[x]]
                    0 <= x < n && entry_seq(entries[x], player) < s ==> exists|k: int|
                        0 <= k < sorted.len() && (#[trigger] sorted@[k]) == x,
                forall|k1: int, k2: int|
                    0 <= k1 < k2 < sorted.len() ==> (entry_seq(
                        entries[(#[trigger] sorted@[k1]) as int],
                        player,
                    ) < entry_seq(entries[(#[trigger] sorted@[k2]) as int], player) || (entry_seq(
                        entries[sorted@[k1] as int],
                        player,
                    ) == entry_seq(entries[sorted@[k2] as int], player) && sorted@[k1]
                        < sorted@[k2])),
            decreases n_seq - s,
        {
            let mut x: usize = 0;
            while x < n
                invariant
                    x <= n,
                    s < n_seq,
                    n == entries.len(),
                    forall|k: int| 0 <= k < sorted.len() ==> (#[trigger] sorted@[k]) < n,
                    forall|k: int|
                        0 <= k < sorted.len() ==> entry_seq(
                            entries[(#[trigger] sorted@[k]) as int],
                            player,
                        ) <= s,
                    forall|k: int|
                        0 <= k < sorted.len() && entry_seq(
                            entries[(#[trigger] sorted@[k]) as int],
                            player,
                        ) == s ==> sorted@[k] < x,
                    forall|x2: int|
                        #![trigger entries[x2]]
                        0 <= x2 < n && (entry_seq(entries[x2], player) < s || (entry_seq(
                            entries[x2],
                            player,
                        ) == s && x2 < x)) ==> exists|k: int|
                            0 <= k < sorted.len() && (#[trigger] sorted@[k]) == x2,
                    forall|k1: int, k2: int|
                        0 <= k1 < k2 < sorted.len() ==> (entry_seq(
                            entries[(#[trigger] sorted@[k1]) as int],
                            player,
                        ) < entry_seq(entries[(#[trigger] sorted@[k2]) as int], player) || (
                        entry_seq(entries[sorted@[k1] as int], player) == entry_seq(
                            entries[sorted@[k2] as int],
                            player,
                        ) && sorted@[k1] < sorted@[k2])),
                decreases n - x,
            {
                let e = game.payoff_entry(x);
                let key = match player {
                    Player::Player1 => e.seq_pl1,
                    Player::Player2 => e.seq_pl2,
                };
                let ghost old_sorted = sorted@;
                if key == s {
                    sorted.push(x);
                }
                proof {
                    assert forall|x2: int|
                        #![trigger entries[x2]]
                        0 <= x2 < n && (entry_seq(entries[x2], player) < s || (entry_seq(
                            entries[x2],
                            player,
                        ) == s && x2 < x + 1)) implies exists|k: int|
                        0 <= k < sorted.len() && (#[trigger] sorted@[k]) == x2 by {
                        if x2 == x && entry_seq(entries[x2], player) == s {
                            assert(sorted@[sorted.len() - 1] == x2);
                        } else {
                            let k0 = choose|k: int|
                                0 <= k < old_sorted.len() && (#[trigger] old_sorted[k]) == x2;
                            assert(sorted@[k0] == x2);
                        }
                    }
                }
                x = x + 1;
            }
            s = s + 1;
        }
        proof {
            // Every key is a valid sequence id, so every entry index
            // was collected in some bucket.
            assert forall|x: int| 0 <= x < entries.len() implies #[trigger] appears_in(
                sorted@,
                x,
            ) by {
                assert(entry_seq(entries[x], player) < n_seq);
                let k0 = choose|k: int| 0 <= k < sorted.len() && (#[trigger] sorted@[k]) == x;
                assert(0 <= k0 < sorted@.len() && sorted@[k0] == x);
            }
        }
        sorted
    }

    /// Per-sequence position blocks in the player-1 sorted order.
    fn precompute_payoffs_range_sorted_pl1(
        game: &ExtensiveFormGame,
        sorted: &Vec<usize>,
    ) -> (r: Vec<(usize, usize)>)
        requires
            game.payoff_matrix.seqs_bounded(
                game.treeplex_pl1.num_sequences as nat,
                game.treeplex_pl2.num_sequences as nat,
            ),
            sorted_ok_for(game.payoff_matrix.entries@, Player::Player1, sorted@),
        ensures
            ranges_ok_for(
                game.payoff_matrix.entries@,
                Player::Player1,
                sorted@,
                r@,
                game.treeplex_pl1.num_sequences as int,
            ),
    {
        Self::scan_ranges(game, sorted, Player::Player1)
    }

    /// Per-sequence position blocks in the player-2 sorted order.
    fn precompute_payoffs_range_sorted_pl2(
        game: &ExtensiveFormGame,
        sorted: &Vec<usize>,
    ) -> (r: Vec<(usize, usize)>)
        requires
            game.payoff_matrix.seqs_bounded(
                game.treeplex_pl1.num_sequences as nat,
                game.treeplex_pl2.num_sequences as nat,
            ),
            sorted_ok_for(game.payoff_matrix.entries@, Player::Player2, sorted@),
        ensures
            ranges_ok_for(
                game.payoff_matrix.entries@,
                Player::Player2,
                sorted@,
                r@,
                game.treeplex_pl2.num_sequences as int,
            ),
    {
        Self::scan_ranges(game, sorted, Player::Player2)
    }

    /// One pass over the sorted positions: for every sequence id in
    /// order, take as many positions as share that sequence.
    #[verifier::rlimit(100)]
    fn scan_ranges(game: &ExtensiveFormGame, sorted: &Vec<usize>, player: Player) -> (r: Vec<
        (usize, usize),
    >)
        requires
            game.payoff_matrix.seqs_bounded(
                game.treeplex_pl1.num_sequences as nat,
                game.treeplex_pl2.num_sequences as nat,
            ),
            sorted_ok_for(game.payoff_matrix.entries@, player, sorted@),
        ensures
            ranges_ok_for(
                game.payoff_matrix.entries@,
                player,
                sorted@,
                r@,
                match player {
                    Player::Player1 => game.treeplex_pl1.num_sequences as int,
                    Player::Player2 => game.treeplex_pl2.num_sequences as int,
                },
            ),
    {
        let ghost entries = game.payoff_matrix.entries@;
        let n_seq = game.treeplex(player).num_sequences();
        let len = sorted.len();
        let mut ranges: Vec<(usize, usize)> = Vec::new();
        let mut cur: usize = 0;

        let mut s: usize = 0;
        while s < n_seq
            invariant
                s <= n_seq,
                len == sorted.len(),
                ranges.len() == s,
                cur <= len,
                s == 0 ==> cur == 0,
                s > 0 ==> ranges@[s - 1].1 == cur,
                s > 0 ==> ranges@[0].0 == 0,
                forall|k: int|
                    0 <= k < cur ==> entry_seq(entries[(#[trigger] sorted@[k]) as int], player) < s,
                forall|k: int|
                    cur <= k < len ==> entry_seq(entries[(#[trigger] sorted@[k]) as int], player)
                        >= s,
                forall|v: int| 0 <= v < s - 1 ==> (#[trigger] ranges@[v]).1 == ranges@[v + 1].0,
                forall|v: int|
                    0 <= v < s ==> {
                        &&& (#[trigger] ranges@[v]).0 <= ranges@[v].1 <= len
                        &&& forall|k: int|
                            0 <= k < len ==> ((ranges@[v].0 <= k < ranges@[v].1) <==> entry_seq(
                                entries[(#[trigger] sorted@[k]) as int],
                                player,
                            ) == v)
                    },
            decreases n_seq - s,
        {
            let start = cur;
            let mut past_block = false;
            while !past_block && cur < len
                invariant
                    start <= cur <= len,
                    s < n_seq,
                    len == sorted.len(),
                    forall|k: int|
                        start <= k < cur ==> entry_seq(
                            entries[(#[trigger] sorted@[k]) as int],
                            player,
                        ) == s,
                    forall|k: int|
                        cur <= k < len ==> entry_seq(
                            entries[(#[trigger] sorted@[k]) as int],
                            player,
                        ) >= s,
                    past_block ==> cur < len && entry_seq(entries[sorted@[cur as int] as int], player)
                        != s,
                decreases len - cur, if past_block { 0int } else { 1int },
            {
                let e = game.payoff_entry(sorted[cur]);
                let key = match player {
                    Player::Player1 => e.seq_pl1,
                    Player::Player2 => e.seq_pl2,
                };
                if key == s {
                    cur = cur + 1;
                } else {
                    past_block = true;
                }
            }
            proof {
                // Positions past the block hold strictly larger keys:
                // the next key differs from s and the order is sorted.
                assert forall|k: int| cur <= k < len implies entry_seq(
                    entries[(#[trigger] sorted@[k]) as int],
                    player,
                ) >= s + 1 by {
                    if k > cur {
                        assert(entry_seq(entries[sorted@[cur as int] as int], player) <= entry_seq(
                            entries[sorted@[k] as int],
                            player,
                        ));
                    }
                }
            }
            ranges.push((start, cur));
            s = s + 1;
        }
        proof {
            // Every key is a valid sequence id, so the scan exhausted
            // the sorted positions.
            if cur < len {
                assert(sorted@[cur as int] < entries.len());
                assert(entry_seq(entries[sorted@[cur as int] as int], player) < n_seq);
            }
        }
        ranges
    }

    /// Indices of the payoff entries whose `player` leaf sequence lies
    /// at or under information set `infoset_id`, in sequence order.
    #[verifier::rlimit(100)]
    pub fn leaf_indices_at_or_under_infoset(
        &self,
        player: Player,
        treeplex_tools: &TreeplexTools,
        infoset_id: usize,
    ) -> (r: Vec<usize>)
        requires
            self.wf(),
            player == Player::Player1 ==> treeplex_tools.wf_for(self.game@.treeplex_pl1),
            player == Player::Player2 ==> treeplex_tools.wf_for(self.game@.treeplex_pl2),
            player == Player::Player1 ==> self.game@.treeplex_pl1.wf(),
            player == Player::Player2 ==> self.game@.treeplex_pl2.wf(),
            infoset_id < treeplex_tools.seqs_under_infosets.len(),
        ensures
            ({
                let (lo, hi) = treeplex_tools.seqs_under_infosets@[infoset_id as int];
                let l = self.ranges_for(player)[lo as int].0;
                let rend = self.ranges_for(player)[hi as int].1;
                &&& r.len() == rend - l
                &&& forall|j: int|
                    0 <= j < r.len() ==> (#[trigger] r@[j]) == self.sorted_for(player)[l + j]
                &&& forall|j: int|
                    0 <= j < r.len() ==> (#[trigger] r@[j]) < self.game@.payoff_matrix.entries.len()
                        && lo <= entry_seq(
                        self.game@.payoff_matrix.entries@[r@[j] as int],
                        player,
                    ) <= hi
                &&& forall|x: int|
                    #![trigger self.game@.payoff_matrix.entries@[x]]
                    0 <= x < self.game@.payoff_matrix.entries.len() && lo <= entry_seq(
                        self.game@.payoff_matrix.entries@[x],
                        player,
                    ) <= hi ==> exists|j: int| 0 <= j < r.len() && (#[trigger] r@[j]) == x
            }),
    {
        let ghost entries = self.game@.payoff_matrix.entries@;
        let (start_sequence, end_sequence) = treeplex_tools.seqs_under_infoset(infoset_id);
        proof {
            // The descendant range endpoints are genuine sequence ids,
            // and the two blocks bracket exactly the keys in between.
            let t = if player == Player::Player1 {
                self.game@.treeplex_pl1
            } else {
                self.game@.treeplex_pl2
            };
            let lo = treeplex_tools.seqs_under_infosets@[infoset_id as int].0 as int;
            let hi = treeplex_tools.seqs_under_infosets@[infoset_id as int].1 as int;
            crate::treeplex_tools::lemma_under_infoset_range_valid(
                t,
                treeplex_tools.seqs_under_infosets@,
                infoset_id as int,
            );
            lemma_block_bounds(
                entries,
                player,
                self.sorted_for(player),
                self.ranges_for(player),
                self.num_seqs_for(player),
                lo,
                hi,
            );
        }
        let (sorted, ranges) = match player {
            Player::Player1 => (&self.payoffs_sorted_pl1, &self.payoffs_range_sorted_pl1),
            Player::Player2 => (&self.payoffs_sorted_pl2, &self.payoffs_range_sorted_pl2),
        };
        let l = ranges[start_sequence].0;
        let rend = ranges[end_sequence].1;
        let mut r: Vec<usize> = Vec::new();
        let mut k: usize = l;
        #[verifier::loop_isolation(true)]
        while k < rend
            invariant
                l <= k <= rend,
                rend <= sorted.len(),
                r.len() == k - l,
                forall|j: int| 0 <= j < r.len() ==> (#[trigger] r@[j]) == sorted@[l + j],
            decreases rend - k,
        {
            r.push(sorted[k]);
            k = k + 1;
        }
        proof {
            let lo = treeplex_tools.seqs_under_infosets@[infoset_id as int].0 as int;
            let hi = treeplex_tools.seqs_under_infosets@[infoset_id as int].1 as int;
            assert forall|x: int|
                #![trigger entries[x]]
                0 <= x < entries.len() && lo <= entry_seq(entries[x], player)
                    <= hi implies exists|j: int| 0 <= j < r.len() && (#[trigger] r@[j]) == x by {
                assert(appears_in(self.sorted_for(player), x));
                let k0 = choose|k0: int|
                    0 <= k0 < self.sorted_for(player).len() && (
                    #[trigger] self.sorted_for(player)[k0]) == x;
                assert(r@[k0 - l] == x);
            }
        }
        r
    }

    /// Indices of the payoff entries whose `player` leaf sequence is
    /// exactly `sequence_id`, in increasing index order.
    pub fn leaf_indices_at_sequence(&self, player: Player, sequence_id: usize) -> (r: Vec<usize>)
        requires
            self.wf(),
            sequence_id < self.num_seqs_for(player),
        ensures
            forall|j: int|
                0 <= j < r.len() ==> (#[trigger] r@[j]) < self.game@.payoff_matrix.entries.len()
                    && entry_seq(self.game@.payoff_matrix.entries@[r@[j] as int], player)
                    == sequence_id,
            forall|x: int|
                #![trigger self.game@.payoff_matrix.entries@[x]]
                0 <= x < self.game@.payoff_matrix.entries.len() && entry_seq(
                    self.game@.payoff_matrix.entries@[x],
                    player,
                ) == sequence_id ==> exists|j: int| 0 <= j < r.len() && (#[trigger] r@[j]) == x,
            forall|j1: int, j2: int| 0 <= j1 < j2 < r.len() ==> r@[j1] < r@[j2],
    {
        let ghost entries = self.game@.payoff_matrix.entries@;
        let (sorted, ranges) = match player {
            Player::Player1 => (&self.payoffs_sorted_pl1, &self.payoffs_range_sorted_pl1),
            Player::Player2 => (&self.payoffs_sorted_pl2, &self.payoffs_range_sorted_pl2),
        };
        let l = ranges[sequence_id].0;
        let rend = ranges[sequence_id].1;
        let mut r: Vec<usize> = Vec::new();
        let mut k: usize = l;
        while k < rend
            invariant
                l <= k <= rend,
                rend <= sorted.len(),
                r.len() == k - l,
                forall|j: int| 0 <= j < r.len() ==> (#[trigger] r@[j]) == sorted@[l + j],
            decreases rend - k,
        {
            r.push(sorted[k]);
            k = k + 1;
        }
        proof {
            assert forall|x: int|
                #![trigger entries[x]]
                0 <= x < entries.len() && entry_seq(entries[x], player)
                    == sequence_id implies exists|j: int|
                0 <= j < r.len() && (#[trigger] r@[j]) == x by {
                assert(appears_in(self.sorted_for(player), x));
                let k0 = choose|k0: int|
                    0 <= k0 < self.sorted_for(player).len() && (
                    #[trigger] self.sorted_for(player)[k0]) == x;
                assert(r@[k0 - l] == x);
            }
        }
        r
    }
}

} // verus!
