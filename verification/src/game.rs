//! The extensive-form game: two treeplexes, the sparse payoff matrix,
//! and per-information-set subgame labels.

use vstd::prelude::*;

use crate::payoff::PayoffMatrix;
use crate::payoff::PayoffMatrixEntry;
use crate::player::Player;
use crate::treeplex::Treeplex;

verus! {

/// The sign bit of an IEEE-754 double: flipping it negates the value
/// exactly.
pub open spec fn flip_sign(x: u64) -> u64 {
    x ^ 0x8000_0000_0000_0000
}

/// Whether an information set is free or belongs to one subgame.
#[derive(Debug, PartialOrd, Ord, PartialEq, Eq, Clone, Copy, Structural)]
pub enum SubgameOrFree {
    Free,
    Subgame(usize),
}

impl SubgameOrFree {
    /// The wire encoding of a label: `0` is free, `k + 1` is subgame
    /// `k`.
    pub open spec fn spec_to_integer(self) -> int {
        match self {
            SubgameOrFree::Free => 0,
            SubgameOrFree::Subgame(x) => x + 1,
        }
    }

    pub fn to_integer(&self) -> (r: usize)
        requires
            self.spec_to_integer() <= usize::MAX,
        ensures
            r == self.spec_to_integer(),
    {
        match self {
            SubgameOrFree::Free => 0,
            SubgameOrFree::Subgame(x) => *x + 1,
        }
    }

    pub fn from_integer(idx: usize) -> (r: SubgameOrFree)
        ensures
            r.spec_to_integer() == idx,
    {
        if idx == 0 {
            SubgameOrFree::Free
        } else {
            SubgameOrFree::Subgame(idx - 1)
        }
    }
}

/// The label encoding round-trips: decoding the encoding of any label
/// gives the label back.
pub proof fn lemma_subgame_label_round_trip(s: SubgameOrFree)
    requires
        s.spec_to_integer() <= usize::MAX,
    ensures
        forall|r: SubgameOrFree| r.spec_to_integer() == s.spec_to_integer() ==> r == s,
{
}

/// A two-player extensive-form game in sequence form.  Player 1 is the
/// leader, player 2 the follower.
#[derive(Debug)]
pub struct ExtensiveFormGame {
    pub treeplex_pl1: Treeplex,
    pub treeplex_pl2: Treeplex,

    pub payoff_matrix: PayoffMatrix,

    /// Per-infoset subgame labels, one per information set of each
    /// player's treeplex.
    pub subgames_pl1: Vec<SubgameOrFree>,
    pub subgames_pl2: Vec<SubgameOrFree>,

    pub num_subgames: usize,
}

/// Every label in `labels` encodes below `bound`.
pub open spec fn labels_below(labels: Seq<SubgameOrFree>, bound: int) -> bool {
    forall|k: int| 0 <= k < labels.len() ==> (#[trigger] labels[k]).spec_to_integer() <= bound
}

/// Some label of either player attains `bound`.
pub open spec fn label_attained(
    labels_pl1: Seq<SubgameOrFree>,
    labels_pl2: Seq<SubgameOrFree>,
    bound: int,
) -> bool {
    ||| exists|k: int|
        0 <= k < labels_pl1.len() && (#[trigger] labels_pl1[k]).spec_to_integer() == bound
    ||| exists|k: int|
        0 <= k < labels_pl2.len() && (#[trigger] labels_pl2[k]).spec_to_integer() == bound
}

impl ExtensiveFormGame {
    /// `num_subgames` is exactly the largest label encoding of either
    /// player: it bounds every label and, unless zero, some label
    /// attains it.  This determines `num_subgames` from the label
    /// arrays alone (see [`lemma_num_subgames_unique`]).
    pub open spec fn num_subgames_ok(self) -> bool {
        &&& labels_below(self.subgames_pl1@, self.num_subgames as int)
        &&& labels_below(self.subgames_pl2@, self.num_subgames as int)
        &&& (self.num_subgames == 0 || label_attained(
            self.subgames_pl1@,
            self.subgames_pl2@,
            self.num_subgames as int,
        ))
    }

    /// The game's structural invariant: both treeplexes are well
    /// formed, one label per information set, every payoff entry keyed
    /// by valid sequences of both players, and `num_subgames` bounds
    /// all labels.
    pub open spec fn wf(self) -> bool {
        &&& self.treeplex_pl1.wf()
        &&& self.treeplex_pl2.wf()
        &&& self.treeplex_pl1.player == Player::Player1
        &&& self.treeplex_pl2.player == Player::Player2
        &&& self.subgames_pl1.len() == self.treeplex_pl1.infosets.len()
        &&& self.subgames_pl2.len() == self.treeplex_pl2.infosets.len()
        &&& self.payoff_matrix.seqs_bounded(
            self.treeplex_pl1.num_sequences as nat,
            self.treeplex_pl2.num_sequences as nat,
        )
        &&& self.payoff_matrix.pairs_unique()
        &&& labels_below(self.subgames_pl1@, self.num_subgames as int)
        &&& labels_below(self.subgames_pl2@, self.num_subgames as int)
    }

    /// Composes a game, computing the number of subgames as the largest
    /// label of either player.
    pub fn new(
        treeplex_pl1: Treeplex,
        treeplex_pl2: Treeplex,
        payoff_matrix: PayoffMatrix,
        subgames_pl1: Vec<SubgameOrFree>,
        subgames_pl2: Vec<SubgameOrFree>,
    ) -> (r: ExtensiveFormGame)
        requires
            labels_below(subgames_pl1@, usize::MAX as int),
            labels_below(subgames_pl2@, usize::MAX as int),
        ensures
            r.treeplex_pl1 == treeplex_pl1,
            r.treeplex_pl2 == treeplex_pl2,
            r.payoff_matrix == payoff_matrix,
            r.subgames_pl1 == subgames_pl1,
            r.subgames_pl2 == subgames_pl2,
            r.num_subgames_ok(),
    {
        let n1 = Self::compute_num_subgames(&subgames_pl1);
        let n2 = Self::compute_num_subgames(&subgames_pl2);
        let num_subgames = if n1 > n2 {
            n1
        } else {
            n2
        };

        ExtensiveFormGame {
            treeplex_pl1,
            treeplex_pl2,
            payoff_matrix,
            subgames_pl1,
            subgames_pl2,
            num_subgames,
        }
    }

    /// The largest label encoding in `subgames`; `0` when every
    /// information set is free.
    fn compute_num_subgames(subgames: &Vec<SubgameOrFree>) -> (r: usize)
        requires
            labels_below(subgames@, usize::MAX as int),
        ensures
            labels_below(subgames@, r as int),
            r == 0 || exists|k: int|
                0 <= k < subgames.len() && (#[trigger] subgames@[k]).spec_to_integer() == r,
    {
        let mut accum: usize = 0;
        let mut k: usize = 0;
        while k < subgames.len()
            invariant
                k <= subgames.len(),
                forall|j: int| 0 <= j < k ==> (#[trigger] subgames@[j]).spec_to_integer() <= accum,
                accum == 0 || exists|j: int|
                    0 <= j < k && (#[trigger] subgames@[j]).spec_to_integer() == accum,
            decreases subgames.len() - k,
        {
            let v = subgames[k].to_integer();
            if v > accum {
                accum = v;
            }
            k = k + 1;
        }
        accum
    }

    pub fn treeplex(&self, player: Player) -> (r: &Treeplex)
        ensures
            player == Player::Player1 ==> r == &self.treeplex_pl1,
            player == Player::Player2 ==> r == &self.treeplex_pl2,
    {
        match player {
            Player::Player1 => &self.treeplex_pl1,
            Player::Player2 => &self.treeplex_pl2,
        }
    }

    pub fn payoff_matrix(&self) -> (r: &PayoffMatrix)
        ensures
            r == &self.payoff_matrix,
    {
        &self.payoff_matrix
    }

    pub fn payoff_entry(&self, payoff_index: usize) -> (r: PayoffMatrixEntry)
        requires
            payoff_index < self.payoff_matrix.entries.len(),
        ensures
            r == self.payoff_matrix.entries@[payoff_index as int],
    {
        self.payoff_matrix.entries[payoff_index]
    }

    pub fn num_payoff_entries(&self) -> (r: usize)
        ensures
            r == self.payoff_matrix.entries.len(),
    {
        self.payoff_matrix.entries.len()
    }

    pub fn subgame(&self, player: Player, infoset_id: usize) -> (r: SubgameOrFree)
        requires
            player == Player::Player1 ==> infoset_id < self.subgames_pl1.len(),
            player == Player::Player2 ==> infoset_id < self.subgames_pl2.len(),
        ensures
            player == Player::Player1 ==> r == self.subgames_pl1@[infoset_id as int],
            player == Player::Player2 ==> r == self.subgames_pl2@[infoset_id as int],
    {
        match player {
            Player::Player1 => self.subgames_pl1[infoset_id],
            Player::Player2 => self.subgames_pl2[infoset_id],
        }
    }

    pub fn num_subgames(&self) -> (r: usize)
        ensures
            r == self.num_subgames,
    {
        self.num_subgames
    }


    /// Checks one label array against a bound without overflowing: a
    /// free label always fits, a subgame label `k` encodes as `k + 1`.
    fn check_labels_below(labels: &Vec<SubgameOrFree>, bound: usize) -> (r: bool)
        ensures
            r == labels_below(labels@, bound as int),
    {
        let n = labels.len();
        let mut ok = true;
        let mut k: usize = 0;
        while k < n
            invariant
                k <= n,
                n == labels.len(),
                ok == (forall|a: int|
                    0 <= a < k ==> (#[trigger] labels@[a]).spec_to_integer() <= bound),
            decreases n - k,
        {
            let this_ok = match labels[k] {
                SubgameOrFree::Free => true,
                SubgameOrFree::Subgame(x) => x < bound,
            };
            ok = ok && this_ok;
            k = k + 1;
        }
        ok
    }

    /// Whether every payoff entry is keyed by valid sequence ids.
    fn check_seqs_bounded(&self) -> (r: bool)
        ensures
            r == self.payoff_matrix.seqs_bounded(
                self.treeplex_pl1.num_sequences as nat,
                self.treeplex_pl2.num_sequences as nat,
            ),
    {
        let n = self.payoff_matrix.entries.len();
        let mut ok = true;
        let mut a: usize = 0;
        while a < n
            invariant
                a <= n,
                n == self.payoff_matrix.entries.len(),
                ok == (forall|b: int|
                    0 <= b < a ==> (#[trigger] self.payoff_matrix.entries@[b]).seq_pl1
                        < self.treeplex_pl1.num_sequences && self.payoff_matrix.entries@[b].seq_pl2
                        < self.treeplex_pl2.num_sequences),
            decreases n - a,
        {
            let e = self.payoff_matrix.entries[a];
            let this_ok = e.seq_pl1 < self.treeplex_pl1.num_sequences && e.seq_pl2
                < self.treeplex_pl2.num_sequences;
            ok = ok && this_ok;
            a = a + 1;
        }
        ok
    }

    /// Whether no two payoff entries share a sequence pair.
    fn check_pairs_unique(&self) -> (r: bool)
        ensures
            r == self.payoff_matrix.pairs_unique(),
    {
        let n = self.payoff_matrix.entries.len();
        let mut ok = true;
        let mut a: usize = 0;
        while a < n
            invariant
                a <= n,
                n == self.payoff_matrix.entries.len(),
                ok == (forall|c: int, b: int|
                    0 <= c < b < n && c < a ==> !((#[trigger] self.payoff_matrix.entries@[c]).seq_pl1
                        == (#[trigger] self.payoff_matrix.entries@[b]).seq_pl1
                        && self.payoff_matrix.entries@[c].seq_pl2
                        == self.payoff_matrix.entries@[b].seq_pl2)),
            decreases n - a,
        {
            let mut b: usize = a + 1;
            while b < n
                invariant
                    a < b <= n,
                    a < n,
                    n == self.payoff_matrix.entries.len(),
                    ok == ((forall|c: int, d: int|
                        0 <= c < d < n && c < a ==> !((
                        #[trigger] self.payoff_matrix.entries@[c]).seq_pl1 == (
                        #[trigger] self.payoff_matrix.entries@[d]).seq_pl1
                            && self.payoff_matrix.entries@[c].seq_pl2
                            == self.payoff_matrix.entries@[d].seq_pl2)) && (forall|d: int|
                        a < d < b ==> !((#[trigger] self.payoff_matrix.entries@[d]).seq_pl1
                            == self.payoff_matrix.entries@[a as int].seq_pl1
                            && self.payoff_matrix.entries@[d].seq_pl2
                            == self.payoff_matrix.entries@[a as int].seq_pl2))),
                decreases n - b,
            {
                let ea = self.payoff_matrix.entries[a];
                let eb = self.payoff_matrix.entries[b];
                let pair_ok = !(ea.seq_pl1 == eb.seq_pl1 && ea.seq_pl2 == eb.seq_pl2);
                ok = ok && pair_ok;
                b = b + 1;
            }
            a = a + 1;
        }
        ok
    }

    /// Decides the game invariant at run time: whether this game
    /// satisfies [`ExtensiveFormGame::wf`].  Consumers of untrusted
    /// input (a decoded file) call this and abort on `false`, keeping
    /// the fail-fast discipline.
    pub fn check_wf(&self) -> (r: bool)
        ensures
            r == self.wf(),
    {
        let players_ok = match (self.treeplex_pl1.player(), self.treeplex_pl2.player()) {
            (Player::Player1, Player::Player2) => true,
            _ => false,
        };
        players_ok && self.treeplex_pl1.check_wf() && self.treeplex_pl2.check_wf()
            && self.subgames_pl1.len() == self.treeplex_pl1.num_infosets()
            && self.subgames_pl2.len() == self.treeplex_pl2.num_infosets()
            && self.check_seqs_bounded() && self.check_pairs_unique() && Self::check_labels_below(
            &self.subgames_pl1,
            self.num_subgames,
        ) && Self::check_labels_below(&self.subgames_pl2, self.num_subgames)
    }

    /// The zero-sum projection of the game with respect to `player`:
    /// the other player's payoff at every leaf is replaced by the exact
    /// IEEE-754 negation (sign-bit flip) of `player`'s payoff.
    pub fn zero_sum(&self, player: Player) -> (r: ExtensiveFormGame)
        ensures
            r.treeplex_pl1.player == self.treeplex_pl1.player,
            r.treeplex_pl1.num_sequences == self.treeplex_pl1.num_sequences,
            r.treeplex_pl1.infosets@ == self.treeplex_pl1.infosets@,
            r.treeplex_pl2.player == self.treeplex_pl2.player,
            r.treeplex_pl2.num_sequences == self.treeplex_pl2.num_sequences,
            r.treeplex_pl2.infosets@ == self.treeplex_pl2.infosets@,
            r.subgames_pl1@ == self.subgames_pl1@,
            r.subgames_pl2@ == self.subgames_pl2@,
            r.num_subgames == self.num_subgames,
            r.payoff_matrix.entries.len() == self.payoff_matrix.entries.len(),
            forall|a: int|
                0 <= a < self.payoff_matrix.entries.len() ==> {
                    let e = self.payoff_matrix.entries@[a];
                    let f = (#[trigger] r.payoff_matrix.entries@[a]);
                    &&& f.seq_pl1 == e.seq_pl1
                    &&& f.seq_pl2 == e.seq_pl2
                    &&& f.chance_factor == e.chance_factor
                    &&& (player == Player::Player1 ==> f.payoff_pl1 == e.payoff_pl1
                        && f.payoff_pl2 == flip_sign(e.payoff_pl1))
                    &&& (player == Player::Player2 ==> f.payoff_pl2 == e.payoff_pl2
                        && f.payoff_pl1 == flip_sign(e.payoff_pl2))
                },
    {
        let n = self.payoff_matrix.entries.len();
        let mut entries: Vec<PayoffMatrixEntry> = Vec::new();
        let mut a: usize = 0;
        while a < n
            invariant
                a <= n,
                entries.len() == a,
                forall|b: int|
                    0 <= b < a ==> {
                        let e = self.payoff_matrix.entries@[b];
                        let f = (#[trigger] entries@[b]);
                        &&& f.seq_pl1 == e.seq_pl1
                        &&& f.seq_pl2 == e.seq_pl2
                        &&& f.chance_factor == e.chance_factor
                        &&& (player == Player::Player1 ==> f.payoff_pl1 == e.payoff_pl1
                            && f.payoff_pl2 == flip_sign(e.payoff_pl1))
                        &&& (player == Player::Player2 ==> f.payoff_pl2 == e.payoff_pl2
                            && f.payoff_pl1 == flip_sign(e.payoff_pl2))
                    },
            decreases n - a,
        {
            let e = self.payoff_matrix.entries[a];
            let f = match player {
                Player::Player1 => PayoffMatrixEntry::new(
                    e.seq_pl1,
                    e.seq_pl2,
                    e.chance_factor,
                    e.payoff_pl1,
                    e.payoff_pl1 ^ 0x8000_0000_0000_0000,
                ),
                Player::Player2 => PayoffMatrixEntry::new(
                    e.seq_pl1,
                    e.seq_pl2,
                    e.chance_factor,
                    e.payoff_pl2 ^ 0x8000_0000_0000_0000,
                    e.payoff_pl2,
                ),
            };
            entries.push(f);
            a = a + 1;
        }

        let treeplex_pl1 = Treeplex::new(
            self.treeplex_pl1.player,
            self.treeplex_pl1.num_sequences,
            crate::util::copy_vec(&self.treeplex_pl1.infosets),
        );
        let treeplex_pl2 = Treeplex::new(
            self.treeplex_pl2.player,
            self.treeplex_pl2.num_sequences,
            crate::util::copy_vec(&self.treeplex_pl2.infosets),
        );
        ExtensiveFormGame {
            treeplex_pl1,
            treeplex_pl2,
            payoff_matrix: PayoffMatrix::new(entries),
            subgames_pl1: crate::util::copy_vec(&self.subgames_pl1),
            subgames_pl2: crate::util::copy_vec(&self.subgames_pl2),
            num_subgames: self.num_subgames,
        }
    }
}

/// The subgame count is a function of the label arrays: any two games
/// carrying the same labels, each with its count characterized, agree
/// on the count.
pub proof fn lemma_num_subgames_unique(g1: ExtensiveFormGame, g2: ExtensiveFormGame)
    requires
        g1.num_subgames_ok(),
        g2.num_subgames_ok(),
        g1.subgames_pl1@ == g2.subgames_pl1@,
        g1.subgames_pl2@ == g2.subgames_pl2@,
    ensures
        g1.num_subgames == g2.num_subgames,
{
    if g1.num_subgames < g2.num_subgames {
        let b = g2.num_subgames as int;
        assert(label_attained(g2.subgames_pl1@, g2.subgames_pl2@, b));
    }
    if g2.num_subgames < g1.num_subgames {
        let b = g1.num_subgames as int;
        assert(label_attained(g1.subgames_pl1@, g1.subgames_pl2@, b));
    }
}

} // verus!
