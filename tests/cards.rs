use mini_holdem::cards::{
    compare_hand_ranks, get_best_hand, get_best_hand_rank, rank_hand, Card, HandCategory,
    HandRank, ShowdownDecidingFactor,
};
use std::cmp::Ordering;

fn c(rank: u8, suit: u8) -> Card {
    Card { rank, suit }
}

#[test]
fn card_byte_is_suit_then_rank() {
    assert_eq!(c(12, 3).to_byte(), 0x3c);
    assert_eq!(c(0, 0).to_byte(), 0);
    let back = Card::from_byte(0x25).unwrap();
    assert_eq!((back.rank, back.suit), (5, 2));
}

#[test]
fn card_byte_rejects_bad_rank_and_suit() {
    assert!(Card::from_byte(0x0d).is_none());
    assert!(Card::from_byte(0x40).is_none());
    assert!(Card::from_byte(255).is_none());
}

#[test]
fn cards_compare_by_rank_only() {
    assert!(c(4, 0) == c(4, 3));
    assert!(c(4, 0) != c(5, 0));
}

#[test]
fn category_bytes_round_trip() {
    assert_eq!(HandCategory::RoyalFlush.to_byte(), 9);
    assert_eq!(HandCategory::from_byte(6), Some(HandCategory::FullHouse));
    assert_eq!(HandCategory::from_byte(10), None);
}

#[test]
fn royal_flush_is_found() {
    let cards = [c(8, 1), c(9, 1), c(0, 2), c(10, 1), c(11, 1), c(3, 0), c(12, 1)];
    let rank = get_best_hand_rank(&cards);
    assert_eq!(rank.category, HandCategory::RoyalFlush);
    assert!(rank.primary.is_none());
    assert_eq!(rank.kickers.iter().map(|k| k.rank).collect::<Vec<_>>(), vec![12, 11, 10, 9, 8]);
}

#[test]
fn wheel_is_a_straight() {
    let cards = [c(12, 0), c(0, 1), c(1, 2), c(2, 3), c(3, 0), c(7, 1), c(9, 2)];
    let rank = get_best_hand_rank(&cards);
    assert_eq!(rank.category, HandCategory::Straight);
}

#[test]
fn full_house_takes_the_triple_first() {
    let cards = [c(4, 0), c(4, 1), c(9, 0), c(9, 1), c(9, 2), c(4, 2), c(1, 3)];
    let rank = get_best_hand_rank(&cards);
    assert_eq!(rank.category, HandCategory::FullHouse);
    assert_eq!(rank.primary.unwrap().rank, 9);
    assert_eq!(rank.secondary.unwrap().rank, 4);
    assert!(rank.kickers.is_empty());
}

#[test]
fn two_pair_puts_the_higher_pair_first() {
    let cards = [c(2, 0), c(2, 1), c(10, 0), c(10, 1), c(6, 2), c(0, 3), c(4, 2)];
    let rank = get_best_hand_rank(&cards);
    assert_eq!(rank.category, HandCategory::TwoPair);
    assert_eq!(rank.primary.unwrap().rank, 10);
    assert_eq!(rank.secondary.unwrap().rank, 2);
    assert_eq!(rank.kickers.iter().map(|k| k.rank).collect::<Vec<_>>(), vec![6]);
}

#[test]
fn high_card_keeps_five_kickers_descending() {
    let cards = [c(0, 0), c(2, 1), c(5, 2), c(7, 3), c(9, 0), c(12, 1), c(1, 2)];
    let (five, rank) = get_best_hand(&cards);
    assert_eq!(rank.category, HandCategory::HighCard);
    assert_eq!(rank.kickers.iter().map(|k| k.rank).collect::<Vec<_>>(), vec![12, 9, 7, 5, 2]);
    let mut ranks: Vec<u8> = five.iter().map(|k| k.rank).collect();
    ranks.sort();
    assert_eq!(ranks, vec![2, 5, 7, 9, 12]);
}

fn all_fives(cards: &[Card; 7]) -> Vec<[Card; 5]> {
    let mut fives = Vec::new();
    for a in 0..7 {
        for b in a + 1..7 {
            let kept: Vec<Card> = (0..7).filter(|&i| i != a && i != b).map(|i| cards[i]).collect();
            fives.push([kept[0], kept[1], kept[2], kept[3], kept[4]]);
        }
    }
    fives
}

#[test]
fn best_hand_beats_every_five_card_subset() {
    let hands = [
        [c(3, 0), c(3, 1), c(8, 2), c(8, 3), c(8, 0), c(11, 1), c(3, 2)],
        [c(0, 1), c(4, 1), c(9, 1), c(2, 1), c(11, 0), c(11, 1), c(5, 1)],
        [c(6, 0), c(7, 1), c(8, 2), c(9, 3), c(10, 0), c(10, 1), c(2, 2)],
    ];
    for cards in hands.iter() {
        let best = get_best_hand_rank(cards);
        let fives = all_fives(cards);
        assert_eq!(fives.len(), 21);
        for five in fives.iter() {
            let (ord, _) = compare_hand_ranks(&rank_hand(five), &best);
            assert_ne!(ord, Ordering::Greater);
        }
    }
    let best = get_best_hand_rank(&hands[0]);
    assert_eq!(best.category, HandCategory::FullHouse);
    assert_eq!(best.primary.unwrap().rank, 8);
    assert_eq!(best.secondary.unwrap().rank, 3);
    assert_eq!(get_best_hand_rank(&hands[1]).category, HandCategory::Flush);
    assert_eq!(get_best_hand_rank(&hands[2]).category, HandCategory::Straight);
}

#[test]
fn four_of_a_kind_keeps_one_kicker() {
    let rank = rank_hand(&[c(5, 0), c(5, 1), c(5, 2), c(5, 3), c(9, 0)]);
    assert_eq!(rank.category, HandCategory::FourKind);
    assert_eq!(rank.primary.unwrap().rank, 5);
    assert_eq!(rank.kickers.iter().map(|k| k.rank).collect::<Vec<_>>(), vec![9]);
}

#[test]
fn three_of_a_kind_keeps_two_kickers() {
    let rank = rank_hand(&[c(2, 0), c(11, 1), c(2, 2), c(2, 3), c(6, 0)]);
    assert_eq!(rank.category, HandCategory::ThreeKind);
    assert_eq!(rank.kickers.iter().map(|k| k.rank).collect::<Vec<_>>(), vec![11, 6]);
}

#[test]
fn straight_flush_below_the_ace() {
    let rank = rank_hand(&[c(7, 2), c(3, 2), c(4, 2), c(5, 2), c(6, 2)]);
    assert_eq!(rank.category, HandCategory::StraightFlush);
}

fn rank_of(category: HandCategory, primary: Option<u8>, secondary: Option<u8>, kickers: &[u8]) -> HandRank {
    HandRank {
        category,
        primary: primary.map(|r| c(r, 0)),
        secondary: secondary.map(|r| c(r, 1)),
        kickers: kickers.iter().map(|&r| c(r, 2)).collect(),
    }
}

#[test]
fn equal_hands_tie_with_no_deciding_factor() {
    let a = rank_of(HandCategory::TwoPair, Some(9), Some(3), &[5]);
    let b = rank_of(HandCategory::TwoPair, Some(9), Some(3), &[5]);
    let (ord, why) = compare_hand_ranks(&a, &b);
    assert_eq!(ord, Ordering::Equal);
    assert!(matches!(why, ShowdownDecidingFactor::Tie));
}

#[test]
fn category_decides_first() {
    let a = rank_of(HandCategory::Flush, None, None, &[12, 9, 7, 5, 2]);
    let b = rank_of(HandCategory::Straight, None, None, &[11, 10, 9, 8, 7]);
    let (ord, why) = compare_hand_ranks(&a, &b);
    assert_eq!(ord, Ordering::Greater);
    assert!(matches!(why, ShowdownDecidingFactor::Category));
}

#[test]
fn kicker_decides_between_equal_pairs() {
    let a = rank_of(HandCategory::OnePair, Some(7), None, &[12, 9, 3]);
    let b = rank_of(HandCategory::OnePair, Some(7), None, &[12, 10, 3]);
    let (ord, why) = compare_hand_ranks(&a, &b);
    assert_eq!(ord, Ordering::Less);
    match why {
        ShowdownDecidingFactor::Kicker(x, y) => assert_eq!((x.rank, y.rank), (9, 10)),
        _ => panic!("expected a kicker"),
    }
}

#[test]
fn secondary_decides_between_two_pairs() {
    let a = rank_of(HandCategory::TwoPair, Some(9), Some(4), &[1]);
    let b = rank_of(HandCategory::TwoPair, Some(9), Some(2), &[11]);
    let (ord, why) = compare_hand_ranks(&a, &b);
    assert_eq!(ord, Ordering::Greater);
    assert!(matches!(why, ShowdownDecidingFactor::Secondary(_, _)));
}

#[test]
fn same_ranks_in_other_suits_tie() {
    let a = rank_hand(&[c(0, 0), c(0, 1), c(9, 2), c(7, 3), c(5, 0)]);
    let b = rank_hand(&[c(0, 2), c(0, 3), c(9, 0), c(7, 1), c(5, 2)]);
    assert_eq!(a.category, HandCategory::OnePair);
    let (ord, why) = compare_hand_ranks(&a, &b);
    assert_eq!(ord, Ordering::Equal);
    assert!(matches!(why, ShowdownDecidingFactor::Tie));
}
