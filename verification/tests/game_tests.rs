use efg_lite::efg_tools::EFGTools;
use efg_lite::game::ExtensiveFormGame;
use efg_lite::game::SubgameOrFree;
use efg_lite::infoset::Infoset;
use efg_lite::payoff::PayoffMatrix;
use efg_lite::payoff::PayoffMatrixEntry;
use efg_lite::player::Player;
use efg_lite::treeplex::Treeplex;
use efg_lite::treeplex_tools::TreeplexTools;

/// One-shot rock-paper-scissors treeplex for one player: three action
/// sequences and the empty sequence.
fn rps_treeplex(player: Player) -> Treeplex {
    Treeplex::new(player, 4, vec![Infoset::new(3, 0, 2)])
}

/// The payoff of player 1 when playing `a` against `b`, with actions
/// numbered rock, paper, scissors.
fn rps_payoff(a: usize, b: usize) -> f64 {
    if a == b {
        0.0
    } else if (a == 0 && b == 2) || (a == 1 && b == 0) || (a == 2 && b == 1) {
        1.0
    } else {
        -1.0
    }
}

/// The full rock-paper-scissors game: nine chance-free leaves, the
/// second player's payoff the exact negation of the first player's.
fn rps_game() -> ExtensiveFormGame {
    let mut entries = Vec::new();
    for a in 0..3usize {
        for b in 0..3usize {
            let u = rps_payoff(a, b);
            entries.push(PayoffMatrixEntry::new(
                a,
                b,
                1.0f64.to_bits(),
                u.to_bits(),
                (-u).to_bits(),
            ));
        }
    }
    ExtensiveFormGame::new(
        rps_treeplex(Player::Player1),
        rps_treeplex(Player::Player2),
        PayoffMatrix::new(entries),
        vec![SubgameOrFree::Free],
        vec![SubgameOrFree::Free],
    )
}

#[test]
fn subgame_label_integer_round_trip() {
    assert_eq!(SubgameOrFree::Free.to_integer(), 0);
    assert_eq!(SubgameOrFree::Subgame(0).to_integer(), 1);
    assert_eq!(SubgameOrFree::Subgame(6).to_integer(), 7);
    assert_eq!(SubgameOrFree::from_integer(0), SubgameOrFree::Free);
    assert_eq!(SubgameOrFree::from_integer(7), SubgameOrFree::Subgame(6));
    for k in 0..10usize {
        let l = SubgameOrFree::from_integer(k);
        assert_eq!(l.to_integer(), k);
    }
}

#[test]
fn num_subgames_is_largest_label() {
    let g = ExtensiveFormGame::new(
        rps_treeplex(Player::Player1),
        rps_treeplex(Player::Player2),
        PayoffMatrix::new(vec![]),
        vec![SubgameOrFree::Subgame(1)],
        vec![SubgameOrFree::Free],
    );
    assert_eq!(g.num_subgames(), 2);
    let free = rps_game();
    assert_eq!(free.num_subgames(), 0);
    assert_eq!(free.subgame(Player::Player1, 0), SubgameOrFree::Free);
}

#[test]
fn rps_payoff_matrix_shape() {
    let g = rps_game();
    assert_eq!(g.num_payoff_entries(), 9);
    assert_eq!(g.treeplex(Player::Player1).num_sequences(), 4);
    assert_eq!(g.treeplex(Player::Player2).num_sequences(), 4);
    for k in 0..9 {
        let e = g.payoff_entry(k);
        assert_eq!(f64::from_bits(e.chance_factor), 1.0);
        let u1 = f64::from_bits(e.payoff_pl1);
        let u2 = f64::from_bits(e.payoff_pl2);
        assert!(u1 == -1.0 || u1 == 0.0 || u1 == 1.0);
        assert_eq!(u2, -u1);
        assert_eq!(u1, rps_payoff(e.seq_pl1, e.seq_pl2));
    }
}

#[test]
fn zero_sum_flips_the_sign_bit() {
    let g = rps_game();
    let z = g.zero_sum(Player::Player1);
    assert_eq!(z.num_payoff_entries(), 9);
    for k in 0..9 {
        let e = g.payoff_entry(k);
        let f = z.payoff_entry(k);
        assert_eq!(f.payoff_pl1, e.payoff_pl1);
        assert_eq!(f.payoff_pl2, (-f64::from_bits(e.payoff_pl1)).to_bits());
        // The flip is exact even for the zero payoffs: it produces a
        // genuine negative zero.
        if f64::from_bits(e.payoff_pl1) == 0.0 {
            assert_eq!(f.payoff_pl2, (-0.0f64).to_bits());
        }
    }
}

#[test]
fn leaf_indices_at_sequence_picks_one_row() {
    let g = rps_game();
    let tools = EFGTools::new(&g);
    // Player 1's sequence 0 appears in entries 0, 1 and 2, in index
    // order.
    assert_eq!(tools.leaf_indices_at_sequence(Player::Player1, 0), vec![0, 1, 2]);
    assert_eq!(tools.leaf_indices_at_sequence(Player::Player1, 2), vec![6, 7, 8]);
    // Player 2's sequence 1 appears in the middle column.
    assert_eq!(tools.leaf_indices_at_sequence(Player::Player2, 1), vec![1, 4, 7]);
    // The empty sequence terminates no leaf.
    assert_eq!(tools.leaf_indices_at_sequence(Player::Player1, 3), Vec::<usize>::new());
}

#[test]
fn leaf_indices_under_infoset_cover_all_leaves() {
    let g = rps_game();
    let tools = EFGTools::new(&g);
    let t1_tools = TreeplexTools::new(g.treeplex(Player::Player1));
    let mut all = tools.leaf_indices_at_or_under_infoset(Player::Player1, &t1_tools, 0);
    all.sort();
    assert_eq!(all, (0..9).collect::<Vec<usize>>());
}

/// Best response against the uniform opponent strategy: the expected
/// value of every action is zero, so the game value is zero for both
/// players.  The backward induction here follows the treeplex order.
#[test]
fn rps_best_response_to_uniform_is_zero() {
    let g = rps_game();
    for (me, other) in [(Player::Player1, Player::Player2), (Player::Player2, Player::Player1)] {
        let treeplex = g.treeplex(me);
        let n = treeplex.num_sequences();
        // Sequence-form gradient of my payoffs against the uniform
        // opponent.
        let mut gradient = vec![0.0f64; n];
        for k in 0..g.num_payoff_entries() {
            let e = g.payoff_entry(k);
            let (mine, theirs, payoff) = match me {
                Player::Player1 => (e.seq_pl1, e.seq_pl2, f64::from_bits(e.payoff_pl1)),
                Player::Player2 => (e.seq_pl2, e.seq_pl1, f64::from_bits(e.payoff_pl2)),
            };
            let m = g.treeplex(other).num_sequences();
            assert!(theirs < m - 1);
            let uniform = 1.0 / ((m - 1) as f64);
            gradient[mine] += f64::from_bits(e.chance_factor) * uniform * payoff;
        }
        // One bottom-up pass: maximize at the single information set.
        for infoset in treeplex.infosets().iter() {
            let mut best = f64::NEG_INFINITY;
            for s in infoset.start_sequence..=infoset.end_sequence {
                best = best.max(gradient[s]);
            }
            gradient[infoset.parent_sequence] += best;
        }
        let value = gradient[treeplex.empty_sequence_id()];
        assert!(value.abs() < 1e-12, "best-response value {} is not zero", value);
    }
}
