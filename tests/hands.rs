use poker_cfr::hands::{card_from_str, preflop_hand_from_cards, preflop_hand_from_str, Hand};
use poker_cfr::matchups::MatchupTable;
use poker_cfr::utils::enumerate_combos;

#[test]
fn test_index() {
    assert_eq!(Hand::get_index(1, 0), 0);
    assert_eq!(Hand::get_index(51, 50), 168);
}

#[test]
fn test_display() {
    assert_eq!(Hand(1, 0).name(), "22");
    assert_eq!(Hand(48, 0).name(), "A2s");
}

#[test]
fn test_from_index() {
    for i in 0..51 {
        for j in i + 1..52 {
            assert_eq!(Hand(i, j).name(), Hand::index_to_str(Hand::get_index(j, i)));
        }
    }
}

#[test]
fn grid_names() {
    assert_eq!(Hand::index_to_str(0), "22");
    assert_eq!(Hand::index_to_str(1), "32o");
    assert_eq!(Hand::index_to_str(13), "32s");
    assert_eq!(Hand::index_to_str(168), "AA");
    assert_eq!(Hand::index_to_str(12 * 13 + 11), "AKs");
    assert_eq!(Hand(50, 45).name(), "AKo");
}

#[test]
fn cards_by_name() {
    assert_eq!(card_from_str("2s"), Some(0));
    assert_eq!(card_from_str("2c"), Some(3));
    assert_eq!(card_from_str("Th"), Some(33));
    assert_eq!(card_from_str("Ac"), Some(51));
    assert_eq!(card_from_str("1s"), None);
    assert_eq!(card_from_str("Ax"), None);
    assert_eq!(card_from_str("As "), None);
    assert_eq!(card_from_str(""), None);
}

#[test]
fn classes_by_name() {
    assert_eq!(preflop_hand_from_str("22"), Some(0));
    assert_eq!(preflop_hand_from_str("32s"), Some(1));
    assert_eq!(preflop_hand_from_str("A2s"), Some(12));
    assert_eq!(preflop_hand_from_str("32o"), Some(13));
    assert_eq!(preflop_hand_from_str("AKs"), Some(155));
    assert_eq!(preflop_hand_from_str("AKo"), Some(167));
    assert_eq!(preflop_hand_from_str("AA"), Some(168));
    assert_eq!(preflop_hand_from_str("KAs"), None);
    assert_eq!(preflop_hand_from_str("AKx"), None);
    assert_eq!(preflop_hand_from_str("AK"), None);
    assert_eq!(preflop_hand_from_str("AAs"), None);
    assert_eq!(preflop_hand_from_str("A"), None);
}

#[test]
fn classes_of_cards() {
    // Two deuces.
    assert_eq!(preflop_hand_from_cards(0, 1), 0);
    // Ace and king of spades, either order.
    assert_eq!(preflop_hand_from_cards(48, 44), 155);
    assert_eq!(preflop_hand_from_cards(44, 48), 155);
    // Ace of hearts, king of spades.
    assert_eq!(preflop_hand_from_cards(49, 44), 167);
    // Three of spades, deuce of spades.
    assert_eq!(preflop_hand_from_cards(4, 0), 1);
}

#[test]
fn test_enumerate_combos() {
    let x = enumerate_combos(
        vec![0, 1, 2, 3, 4, 5, 6, 7, 8, 9, 10, 11, 12, 13, 14, 15],
        2,
    );
    assert_eq!(x.len(), 120);

    let x = enumerate_combos(
        vec![0, 1, 2, 3, 4, 5, 6, 7, 8, 9, 10, 11, 12, 13, 14, 15],
        3,
    );
    assert_eq!(x.len(), 560);
}

#[test]
fn combos_in_order() {
    assert_eq!(
        enumerate_combos(vec![1, 2, 3, 4], 2),
        vec![vec![1, 2], vec![1, 3], vec![1, 4], vec![2, 3], vec![2, 4], vec![3, 4]]
    );
    assert_eq!(enumerate_combos(vec![7, 8, 9], 3), vec![vec![7, 8, 9]]);
    assert_eq!(enumerate_combos(vec![7, 8, 9], 1), vec![vec![7], vec![8], vec![9]]);
}

#[test]
fn matchup_counts() {
    let mut t = MatchupTable::default();
    t.count_matchup(3, 7);
    t.count_matchup(5, 5);
    assert_eq!(t.get(3, 7), 1);
    assert_eq!(t.get(7, 3), 1);
    assert_eq!(t.get(5, 5), 2);
    assert_eq!(t.sum(), 4);
}

#[test]
fn tally_of_all_deals() {
    let cards: Vec<usize> = (0..52).collect();
    let deals = enumerate_combos(cards, 4);
    assert_eq!(deals.len(), 270725);
    let t = MatchupTable::tally_grid(&deals);
    assert_eq!(t.sum(), 6 * 270725);
    // AA against AA: the six ways to split the four aces in two pairs,
    // each counted in both orders.
    assert_eq!(t.get(168, 168), 6);

    let cards: Vec<u8> = (0..52).collect();
    let deals = enumerate_combos(cards, 4);
    let t = MatchupTable::tally_table(&deals);
    assert_eq!(t.sum(), 6 * 270725);
    assert_eq!(t.get(168, 168), 6);
}

#[test]
fn class_names_round_trip() {
    assert_eq!(poker_cfr::hands::preflop_hand_name(1), "32s");
    assert_eq!(poker_cfr::hands::preflop_hand_name(13), "32o");
    for h in 0..169usize {
        let name = poker_cfr::hands::preflop_hand_name(h);
        assert_eq!(preflop_hand_from_str(&name), Some(h as u8));
    }
}
