use efg_lite::infoset::Infoset;
use efg_lite::renumber::renumber_forest;
use efg_lite::player::Player;
use efg_lite::treeplex::Treeplex;
use efg_lite::treeplex_tools::TreeplexTools;

/// The leading player's treeplex of Kuhn poker: 13 sequences, six
/// information sets stored bottom-up.
fn kuhn_treeplex_pl1() -> Treeplex {
    Treeplex::new(
        Player::Player1,
        13,
        vec![
            Infoset::new(6, 0, 1),
            Infoset::new(8, 2, 3),
            Infoset::new(10, 4, 5),
            Infoset::new(12, 6, 7),
            Infoset::new(12, 8, 9),
            Infoset::new(12, 10, 11),
        ],
    )
}

#[test]
fn it_works() {
    assert_eq!(2 + 2, 4);
}

#[test]
fn treeplex_accessors() {
    let t = kuhn_treeplex_pl1();
    assert_eq!(t.num_sequences(), 13);
    assert_eq!(t.num_infosets(), 6);
    assert_eq!(t.empty_sequence_id(), 12);
    assert!(t.has_sequence(0));
    assert!(t.has_sequence(12));
    assert!(!t.has_sequence(13));
    assert_eq!(t.player(), Player::Player1);
    assert_eq!(t.infosets()[0], Infoset::new(6, 0, 1));
}

#[test]
fn fill_seq_to_infoset_range_blocks() {
    let mut t = kuhn_treeplex_pl1();
    t.fill_seq_to_infoset_range();
    // Sequence 6 is followed by exactly the first information set.
    assert_eq!(t.seq_to_infoset_range(6), (0, 1));
    assert_eq!(t.seq_to_infoset_range(8), (1, 2));
    assert_eq!(t.seq_to_infoset_range(10), (2, 3));
    // The empty sequence is followed by the last three.
    assert_eq!(t.seq_to_infoset_range(12), (3, 6));
    // A terminal sequence has an empty block.
    let (a, b) = t.seq_to_infoset_range(0);
    assert_eq!(a, b);
}

#[test]
fn tools_seq_to_infoset_range() {
    let t = kuhn_treeplex_pl1();
    let tools = TreeplexTools::new(&t);
    assert_eq!(tools.num_sequences(), 13);
    assert_eq!(tools.num_infosets(), 6);
    assert_eq!(tools.seq_to_infoset_range(6), (0, 1));
    assert_eq!(tools.seq_to_infoset_range(12), (3, 6));
    let (a, b) = tools.seq_to_infoset_range(5);
    assert_eq!(a, b);
}

#[test]
fn tools_seqs_under() {
    let t = kuhn_treeplex_pl1();
    let tools = TreeplexTools::new(&t);
    // A leaf sequence is its own only descendant.
    assert_eq!(tools.seqs_under_seq(0), (0, 0));
    // Sequence 6 leads to information set 0, whose actions are 0 and 1.
    assert_eq!(tools.seqs_under_seq(6), (0, 6));
    // The empty sequence reaches everything below it.
    assert_eq!(tools.seqs_under_seq(12), (0, 12));
    // Information set 3 owns sequences 6 and 7 and, below 6, also 0 and 1.
    assert_eq!(tools.seqs_under_infoset(3), (0, 7));
    assert_eq!(tools.seqs_under_infoset(0), (0, 1));
    // Information set 2 hangs below sequence 10, so its sequences 4
    // and 5 are also under information set 5.
    assert_eq!(tools.seqs_under_infoset(5), (4, 11));
}

#[test]
fn tools_parent_infosets() {
    let t = kuhn_treeplex_pl1();
    let tools = TreeplexTools::new(&t);
    assert_eq!(tools.parent_infoset_of_seq(0), Some(0));
    assert_eq!(tools.parent_infoset_of_seq(1), Some(0));
    assert_eq!(tools.parent_infoset_of_seq(7), Some(3));
    assert_eq!(tools.parent_infoset_of_seq(11), Some(5));
    // The empty sequence hangs below no information set.
    assert_eq!(tools.parent_infoset_of_seq(12), None);
}

#[test]
fn player_negation() {
    assert_eq!(Player::Player1.neg(), Player::Player2);
    assert_eq!(Player::Player2.neg(), Player::Player1);
    assert_eq!(Player::Player1.neg().neg(), Player::Player1);
}

#[test]
fn renumber_forest_inverts_discovery_order() {
    // Two information sets: the root one (two actions, below the empty
    // sequence) and one below the root's first action.
    let parent_seq = vec![4usize, 0];
    let num_actions = vec![2usize, 2];
    let mut children = vec![Vec::new(); 5];
    children[4] = vec![0usize];
    children[0] = vec![1usize];

    let (t, order, seq_map) =
        renumber_forest(Player::Player1, &parent_seq, &num_actions, &children).unwrap();
    assert_eq!(t.num_sequences(), 5);
    assert_eq!(t.num_infosets(), 2);
    // The deeper information set comes first; the root hangs off the
    // empty sequence id 4.
    assert_eq!(t.infosets()[0], Infoset::new(3, 0, 1));
    assert_eq!(t.infosets()[1], Infoset::new(4, 2, 3));
    assert_eq!(order, vec![1, 0]);
    // Ids are handed out in discovery order and inverted: the root's
    // first action gets the highest non-empty id.
    assert_eq!(seq_map, vec![3, 2, 1, 0, 4]);
    // The result is usable by the rest of the library.
    let tools = TreeplexTools::new(&t);
    assert_eq!(tools.seqs_under_seq(3), (0, 3));
}

#[test]
fn renumber_forest_rejects_unreachable_sets() {
    // One information set recorded under its own action slot: the
    // discovery tables of a cyclic game tree.
    let parent_seq = vec![0usize];
    let num_actions = vec![1usize];
    let mut children = vec![Vec::new(); 2];
    children[0] = vec![0usize];

    assert!(renumber_forest(Player::Player1, &parent_seq, &num_actions, &children).is_none());
}
