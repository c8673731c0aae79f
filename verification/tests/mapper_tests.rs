use efg_lite::game::ExtensiveFormGame;
use efg_lite::game::SubgameOrFree;
use efg_lite::game_mapper::GameMapper;
use efg_lite::payoff::PayoffMatrix;
use efg_lite::subgame::preprocess_treeplex_subgames;
use efg_lite::subgame::relevant_infosets;
use efg_lite::treeplex_tools::TreeplexTools;
use efg_lite::infoset::Infoset;
use efg_lite::player::Player;
use efg_lite::treeplex::Treeplex;
use efg_lite::treeplex_builder::TreeplexBuilder;
use efg_lite::treeplex_mapper::TreeplexMapper;

fn kuhn_treeplex_pl1() -> Treeplex {
    Treeplex::new(
        Player::Player1,
        13,
        vec![
            Infoset::new(6, 0, 1),
            Infoset::new(8, 2, 3),
            Infoset::new(10, 4, 5),
            Infoset::new(12, 6, 7),
            Infoset::new(12, 8, 9),
            Infoset::new(12, 10, 11),
        ],
    )
}

/// Marks information sets 0 and 3 as the subgame: the head (12, 6, 7)
/// together with the interior set (6, 0, 1) hanging below it.
fn subgame_mapper(t: &Treeplex) -> TreeplexMapper {
    let rel = vec![true, false, false, true, false, false];
    TreeplexMapper::new(t, &rel)
}

#[test]
fn sequence_packing() {
    let t = kuhn_treeplex_pl1();
    let m = subgame_mapper(&t);
    // Relevant sequences are 0, 1 (interior actions) and 6, 7 (head
    // actions), packed in original order.
    assert_eq!(m.num_skinny_sequences(), 5);
    assert_eq!(m.skinny_empty_seq(), 4);
    assert_eq!(m.seq_to_skinny_seq(0), 0);
    assert_eq!(m.seq_to_skinny_seq(1), 1);
    assert_eq!(m.seq_to_skinny_seq(6), 2);
    assert_eq!(m.seq_to_skinny_seq(7), 3);
    assert!(m.is_sequence_mapped(0));
    assert!(!m.is_sequence_mapped(2));
    assert!(!m.is_sequence_mapped(12));
}

#[test]
fn sequence_mapping_round_trip() {
    let t = kuhn_treeplex_pl1();
    let m = subgame_mapper(&t);
    for s in 0..13usize {
        if m.is_sequence_mapped(s) {
            assert_eq!(m.skinny_seq_to_seq(m.seq_to_skinny_seq(s)), s);
        }
    }
    for k in 0..4usize {
        assert_eq!(m.seq_to_skinny_seq(m.skinny_seq_to_seq(k)), k);
    }
}

#[test]
fn infoset_packing_heads_last() {
    let t = kuhn_treeplex_pl1();
    let m = subgame_mapper(&t);
    assert_eq!(m.num_skinny_infosets(), 2);
    // The interior information set comes first; the head, whose parent
    // sequence 12 lies outside the subgame, comes last.
    assert_eq!(m.skinny_infoset_to_infoset(0), 0);
    assert_eq!(m.skinny_infoset_to_infoset(1), 3);
    assert_eq!(m.infoset_to_skinny_infoset(0), 0);
    assert_eq!(m.infoset_to_skinny_infoset(3), 1);
    assert!(m.is_infoset_mapped(0));
    assert!(!m.is_infoset_mapped(1));
}

#[test]
fn skinny_treeplex_from_mapper() {
    let t = kuhn_treeplex_pl1();
    let m = subgame_mapper(&t);
    let builder = TreeplexBuilder::new(&t);
    let skinny = builder.treeplex_from_mapper(&m);
    assert_eq!(skinny.player(), Player::Player1);
    assert_eq!(skinny.num_sequences(), 5);
    assert_eq!(skinny.num_infosets(), 2);
    // Interior set keeps its mapped parent; the head is redirected to
    // the skinny empty sequence.
    assert_eq!(skinny.infosets()[0], Infoset::new(2, 0, 1));
    assert_eq!(skinny.infosets()[1], Infoset::new(4, 2, 3));
}

#[test]
fn whole_treeplex_mapping_is_identity_packing() {
    let t = kuhn_treeplex_pl1();
    let rel = vec![true; 6];
    let m = TreeplexMapper::new(&t, &rel);
    assert_eq!(m.num_skinny_sequences(), 13);
    for s in 0..12usize {
        assert_eq!(m.seq_to_skinny_seq(s), s);
    }
    let builder = TreeplexBuilder::new(&t);
    let skinny = builder.treeplex_from_mapper(&m);
    assert_eq!(skinny.num_sequences(), 13);
    assert_eq!(skinny.infosets().as_slice(), t.infosets().as_slice());
}

#[test]
fn game_mapper_holds_both_packings() {
    let t = kuhn_treeplex_pl1();
    let leader = subgame_mapper(&t);
    let follower = subgame_mapper(&t);
    let gm = GameMapper::new(leader, follower);
    assert_eq!(gm.mapper_leader.num_skinny_sequences(), 5);
    assert_eq!(gm.mapper_follower.num_skinny_infosets(), 2);
}

/// Leaves of a two-subgame game split into the two subgames' mapped
/// leaves plus the free leaves, with no leaf mapped twice.
#[test]
fn subgame_leaves_partition() {
    let t1 = kuhn_treeplex_pl1();
    let t2 = Treeplex::new(Player::Player2, 13, t1.infosets().clone());
    // Information set 0 forms one subgame, information set 2 another;
    // their relevant sequences are {0, 1} and {4, 5}.
    let labels = [1usize, 0, 2, 0, 0, 0];
    let entry_pairs = [(0usize, 1usize), (4, 5), (8, 9), (0, 8), (12, 12)];

    let mut mapped_counts = vec![0usize; 2];
    let mut mapped_by = vec![Vec::new(); entry_pairs.len()];
    for subgame in 0..2usize {
        let rel: Vec<bool> = labels.iter().map(|&l| l == subgame + 1).collect();
        let mapper_pl1 = TreeplexMapper::new(&t1, &rel);
        let mapper_pl2 = TreeplexMapper::new(&t2, &rel);
        for (k, (s1, s2)) in entry_pairs.iter().enumerate() {
            if mapper_pl1.is_sequence_mapped(*s1) || mapper_pl2.is_sequence_mapped(*s2) {
                mapped_counts[subgame] += 1;
                mapped_by[k].push(subgame);
            }
        }
    }

    // No leaf belongs to two subgames.
    for owners in mapped_by.iter() {
        assert!(owners.len() <= 1);
    }
    let free = mapped_by.iter().filter(|owners| owners.is_empty()).count();
    assert_eq!(mapped_counts[0], 2);
    assert_eq!(mapped_counts[1], 1);
    assert_eq!(free, 2);
    assert_eq!(mapped_counts[0] + mapped_counts[1] + free, entry_pairs.len());
}

/// Subgame preprocessing on a two-subgame game: heads are the labeled
/// information sets reachable without crossing a subgame, and every
/// sequence below a head points back to it.
#[test]
fn preprocess_records_heads_and_sequence_owners() {
    let t1 = kuhn_treeplex_pl1();
    let t2 = Treeplex::new(Player::Player2, 13, t1.infosets().clone());
    let labels = vec![
        SubgameOrFree::Subgame(0),
        SubgameOrFree::Free,
        SubgameOrFree::Subgame(1),
        SubgameOrFree::Free,
        SubgameOrFree::Free,
        SubgameOrFree::Free,
    ];
    let game = ExtensiveFormGame::new(
        t1,
        t2,
        PayoffMatrix::new(vec![]),
        labels.clone(),
        labels,
    );
    let tools = TreeplexTools::new(game.treeplex(Player::Player1));
    let (heads, seq_to_head) = preprocess_treeplex_subgames(&game, Player::Player1, &tools);

    assert_eq!(heads.len(), 2);
    assert_eq!(heads[0], vec![0]);
    assert_eq!(heads[1], vec![2]);

    // Sequences under the two heads point at them; everything on the
    // trunk is unowned.
    assert_eq!(seq_to_head[0], Some(0));
    assert_eq!(seq_to_head[1], Some(0));
    assert_eq!(seq_to_head[4], Some(2));
    assert_eq!(seq_to_head[5], Some(2));
    for s in [2usize, 3, 6, 7, 8, 9, 10, 11, 12] {
        assert_eq!(seq_to_head[s], None);
    }

    let rel0 = relevant_infosets(&game, Player::Player1, 0);
    assert_eq!(rel0, vec![true, false, false, false, false, false]);
    let rel1 = relevant_infosets(&game, Player::Player1, 1);
    assert_eq!(rel1, vec![false, false, true, false, false, false]);
}
