use efg_lite::codec::deserialize_vector;
use efg_lite::codec::serialize_vector;
use efg_lite::game::ExtensiveFormGame;
use efg_lite::game::SubgameOrFree;
use efg_lite::infoset::Infoset;
use efg_lite::payoff::PayoffMatrix;
use efg_lite::payoff::PayoffMatrixEntry;
use efg_lite::player::Player;
use efg_lite::treeplex::Treeplex;

fn sample_game() -> ExtensiveFormGame {
    let t1 = Treeplex::new(
        Player::Player1,
        5,
        vec![Infoset::new(2, 0, 1), Infoset::new(4, 2, 3)],
    );
    let t2 = Treeplex::new(Player::Player2, 3, vec![Infoset::new(2, 0, 1)]);
    let entries = vec![
        PayoffMatrixEntry::new(0, 0, 0.5f64.to_bits(), 1.25f64.to_bits(), (-1.25f64).to_bits()),
        PayoffMatrixEntry::new(1, 0, 0.5f64.to_bits(), (-0.0f64).to_bits(), 0.0f64.to_bits()),
        PayoffMatrixEntry::new(3, 1, 1.0f64.to_bits(), 3.75f64.to_bits(), 0.125f64.to_bits()),
    ];
    ExtensiveFormGame::new(
        t1,
        t2,
        PayoffMatrix::new(entries),
        vec![SubgameOrFree::Subgame(0), SubgameOrFree::Free],
        vec![SubgameOrFree::Subgame(0)],
    )
}

#[test]
fn infoset_round_trip() {
    let inf = Infoset::new(6, 0, 1);
    let mut bytes = Vec::new();
    inf.serialize(&mut bytes);
    assert_eq!(bytes.len(), 12);
    let (back, pos) = Infoset::deserialize(&bytes, 0).unwrap();
    assert_eq!(back, inf);
    assert_eq!(pos, 12);
}

#[test]
fn treeplex_round_trip() {
    let t = Treeplex::new(
        Player::Player1,
        5,
        vec![Infoset::new(2, 0, 1), Infoset::new(4, 2, 3)],
    );
    let mut bytes = Vec::new();
    t.serialize(&mut bytes);
    let (back, pos) = Treeplex::deserialize(Player::Player1, &bytes, 0).unwrap();
    assert_eq!(pos, bytes.len());
    assert_eq!(back.player(), Player::Player1);
    assert_eq!(back.num_sequences(), 5);
    assert_eq!(back.infosets().as_slice(), t.infosets().as_slice());
}

#[test]
fn game_round_trip_is_bit_exact() {
    let g = sample_game();
    let mut bytes = Vec::new();
    g.serialize(&mut bytes);
    let (back, pos) = ExtensiveFormGame::deserialize(&bytes, 0).unwrap();
    assert_eq!(pos, bytes.len());
    assert_eq!(back.treeplex_pl1.num_sequences, g.treeplex_pl1.num_sequences);
    assert_eq!(back.treeplex_pl1.infosets, g.treeplex_pl1.infosets);
    assert_eq!(back.treeplex_pl2.num_sequences, g.treeplex_pl2.num_sequences);
    assert_eq!(back.treeplex_pl2.infosets, g.treeplex_pl2.infosets);
    assert_eq!(back.subgames_pl1, g.subgames_pl1);
    assert_eq!(back.subgames_pl2, g.subgames_pl2);
    assert_eq!(back.num_subgames, g.num_subgames);
    assert_eq!(back.payoff_matrix.entries.len(), g.payoff_matrix.entries.len());
    for k in 0..g.payoff_matrix.entries.len() {
        // Every floating field comes back bit for bit, the negative
        // zero included.
        assert_eq!(back.payoff_matrix.entries[k], g.payoff_matrix.entries[k]);
    }
}

#[test]
fn vector_round_trip_is_bit_exact() {
    let values = vec![0.0f64, -0.0, 1.0, -1.5, 0.1, f64::INFINITY, f64::NEG_INFINITY];
    let bits: Vec<u64> = values.iter().map(|v| v.to_bits()).collect();
    let mut bytes = Vec::new();
    serialize_vector(&bits, &mut bytes);
    assert_eq!(bytes.len(), 4 + 8 * bits.len());
    let (back, pos) = deserialize_vector(&bytes, 0).unwrap();
    assert_eq!(pos, bytes.len());
    assert_eq!(back, bits);
    for (k, v) in values.iter().enumerate() {
        assert_eq!(f64::from_bits(back[k]).to_bits(), v.to_bits());
    }
}

#[test]
fn truncated_input_is_a_decode_failure() {
    let g = sample_game();
    let mut bytes = Vec::new();
    g.serialize(&mut bytes);
    // Any strict prefix fails to decode rather than panicking.
    for cut in [0, 1, 4, 11, bytes.len() - 1] {
        let prefix: Vec<u8> = bytes[..cut].to_vec();
        assert!(ExtensiveFormGame::deserialize(&prefix, 0).is_none());
    }
    let mut vec_bytes = Vec::new();
    serialize_vector(&vec![1.0f64.to_bits()], &mut vec_bytes);
    let prefix: Vec<u8> = vec_bytes[..vec_bytes.len() - 1].to_vec();
    assert!(deserialize_vector(&prefix, 0).is_none());
}
