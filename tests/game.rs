use mini_holdem::cards::Card;
use mini_holdem::game::{
    compute_pots, deal_game, make_game, split_winnings, Event, Game, Player, PlayerAction,
};

fn c(rank: u8, suit: u8) -> Card {
    Card { rank, suit }
}

fn player(money: u32, contribution: u32, folded: bool) -> Player {
    Player { money, total_contribution: contribution, private_cards: [c(0, 0), c(1, 0)], has_folded: folded }
}

/// Seat 0 holds the ace; the board has no pair, straight or flush.
fn high_card_deck() -> Vec<Card> {
    vec![
        c(12, 1), c(1, 2),
        c(11, 3), c(3, 0),
        c(10, 2), c(4, 3),
        c(0, 0), c(2, 1), c(5, 2), c(7, 3), c(9, 0),
    ]
}

fn three_players(money: u32) -> Vec<(u8, u32)> {
    vec![(0, money), (1, money), (2, money)]
}

#[test]
fn pots_sum_to_contributions_and_skip_folded() {
    let players = vec![player(0, 15, false), player(100, 50, false), player(100, 50, true)];
    let pots = compute_pots(&players);
    assert_eq!(pots.len(), 2);
    assert_eq!(pots[0].money, 45);
    assert_eq!(pots[0].eligible_players, vec![0, 1]);
    assert_eq!(pots[1].money, 70);
    assert_eq!(pots[1].eligible_players, vec![1]);
    assert_eq!(pots.iter().map(|p| p.money).sum::<u32>(), 115);
}

#[test]
fn no_contributions_no_pots() {
    let players = vec![player(10, 0, false), player(10, 0, false)];
    assert!(compute_pots(&players).is_empty());
}

#[test]
fn remainder_goes_to_the_first_winners() {
    let shares = split_winnings(101, 3);
    assert_eq!(shares, vec![34, 34, 33]);
    assert_eq!(shares.iter().sum::<u32>(), 101);
    assert_eq!(split_winnings(100, 3), vec![34, 33, 33]);
    assert_eq!(split_winnings(99, 3), vec![33, 33, 33]);
    assert_eq!(split_winnings(7, 1), vec![7]);
}

#[test]
fn dealing_posts_blinds() {
    let game = deal_game(three_players(1000), &high_card_deck()).unwrap();
    assert_eq!(game.players[1].money, 995);
    assert_eq!(game.players[1].total_contribution, 5);
    assert_eq!(game.players[2].money, 990);
    assert_eq!(game.players[2].total_contribution, 10);
    assert_eq!(game.current_bet, 10);
    assert_eq!(game.current_turn, 0);
    assert_eq!(game.players[0].private_cards[0].rank, 12);
    assert_eq!(game.public_cards[4].rank, 9);
}

#[test]
fn dealing_needs_three_players_with_more_than_ten() {
    assert!(deal_game(vec![(0, 1000), (1, 1000)], &high_card_deck()).is_none());
    assert!(deal_game(vec![(0, 1000), (1, 10), (2, 1000)], &high_card_deck()).is_none());
    assert!(deal_game(vec![(0, 1000), (1, 1000), (1, 1000)], &high_card_deck()).is_none());
    assert!(deal_game(vec![(0, 1000), (1, 1000), (3, 1000)], &high_card_deck()).is_none());
}

#[test]
fn dealing_takes_seats_in_any_order() {
    let game = deal_game(vec![(1, 100), (2, 300), (0, 200)], &high_card_deck()).unwrap();
    assert_eq!(game.players[0].money, 200);
    assert_eq!(game.players[1].money + game.players[1].total_contribution, 100);
    assert_eq!(game.players[2].money + game.players[2].total_contribution, 300);
    assert_eq!(game.current_bet, 10);
    assert!(make_game(vec![(2, 1000), (0, 1000), (1, 1000)]).is_some());
}

#[test]
fn dealing_rejects_repeated_cards() {
    let mut deck = high_card_deck();
    deck[3] = deck[0];
    assert!(deal_game(three_players(1000), &deck).is_none());
}

#[test]
fn make_game_shuffles_and_deals() {
    let game = make_game(three_players(1000)).unwrap();
    assert_eq!(game.players.len(), 3);
    let mut seen = Vec::new();
    for p in &game.players {
        for card in p.private_cards.iter() {
            seen.push((card.rank, card.suit));
        }
    }
    for card in game.public_cards.iter() {
        seen.push((card.rank, card.suit));
    }
    let len = seen.len();
    seen.sort();
    seen.dedup();
    assert_eq!(seen.len(), len);
    assert!(make_game(vec![(0, 1000), (1, 1000)]).is_none());
}

fn act(game: &mut Game, action: PlayerAction) -> Vec<Event> {
    game.advance_game(action).expect("legal action")
}

#[test]
fn highest_kicker_wins_the_whole_pot() {
    let mut game = deal_game(three_players(1000), &high_card_deck()).unwrap();
    act(&mut game, PlayerAction::AddMoney(10));
    act(&mut game, PlayerAction::AddMoney(5));
    act(&mut game, PlayerAction::Check);
    let events = act(&mut game, PlayerAction::Check);
    assert!(events.iter().any(|e| matches!(e, Event::RevealFlop(_))));
    assert_eq!(game.current_phase, 1);
    for _ in 0..2 {
        for _ in 0..3 {
            act(&mut game, PlayerAction::Check);
        }
    }
    assert_eq!(game.current_phase, 3);
    act(&mut game, PlayerAction::Check);
    act(&mut game, PlayerAction::Check);
    let events = act(&mut game, PlayerAction::Check);
    assert!(matches!(events.last(), Some(Event::Showdown(_))));
    assert_eq!(game.current_phase, 4);
    let steps = game.evaluate_showdown();
    assert_eq!(steps.len(), 1);
    assert_eq!(steps[0].winners, vec![0]);
    assert_eq!(steps[0].winnings, 30);
    assert_eq!(steps[0].eligible_players, vec![0, 1, 2]);
    assert_eq!(game.players[0].money, 1020);
    assert_eq!(game.players[1].money, 990);
    assert_eq!(game.players[2].money, 990);
    assert!(game.advance_game(PlayerAction::Check).is_none());
}

#[test]
fn short_all_in_is_legal_and_keeps_the_bet() {
    let mut game = deal_game(vec![(0, 1000), (1, 20), (2, 1000)], &high_card_deck()).unwrap();
    act(&mut game, PlayerAction::AddMoney(50));
    assert_eq!(game.current_bet, 50);
    let events = act(&mut game, PlayerAction::AddMoney(15));
    assert_eq!(game.current_bet, 50);
    assert_eq!(game.players[1].money, 0);
    assert_eq!(game.players[1].total_contribution, 20);
    let pots = events
        .iter()
        .find_map(|e| match e {
            Event::UpdatePots(p) => Some(p.clone()),
            _ => None,
        })
        .unwrap();
    assert_eq!(pots.len(), 3);
    assert_eq!((pots[0].money, pots[0].eligible_players.clone()), (30, vec![0, 1, 2]));
    assert_eq!((pots[1].money, pots[1].eligible_players.clone()), (20, vec![0, 1]));
    assert_eq!((pots[2].money, pots[2].eligible_players.clone()), (30, vec![0]));
}

#[test]
fn illegal_actions_change_nothing() {
    let mut game = deal_game(three_players(1000), &high_card_deck()).unwrap();
    assert!(game.advance_game(PlayerAction::AddMoney(0)).is_none());
    assert!(game.advance_game(PlayerAction::AddMoney(5)).is_none());
    assert!(game.advance_game(PlayerAction::AddMoney(5000)).is_none());
    assert!(game.advance_game(PlayerAction::Check).is_none());
    assert_eq!(game.current_turn, 0);
    assert_eq!(game.players[0].money, 1000);
}

#[test]
fn folding_down_to_one_player_goes_to_showdown() {
    let mut game = deal_game(three_players(1000), &high_card_deck()).unwrap();
    act(&mut game, PlayerAction::Fold);
    let events = act(&mut game, PlayerAction::Fold);
    assert_eq!(game.current_phase, 4);
    match events.last() {
        Some(Event::Showdown(hands)) => {
            assert_eq!(hands.len(), 1);
            assert_eq!(hands[0].player, 2);
        }
        _ => panic!("expected a showdown"),
    }
    let steps = game.evaluate_showdown();
    assert_eq!(steps.len(), 1);
    assert_eq!(steps[0].winners, vec![2]);
    assert_eq!(steps[0].winnings, 15);
    assert_eq!((steps[0].pot_start_index, steps[0].pot_end_index), (0, 1));
    assert_eq!(game.players[2].money, 1005);
}

#[test]
fn raise_makes_the_raiser_last_bettor() {
    let mut game = deal_game(three_players(1000), &high_card_deck()).unwrap();
    let events = act(&mut game, PlayerAction::AddMoney(40));
    assert!(matches!(events[0], Event::UpdateCurrentBet(40)));
    assert!(matches!(events[1], Event::OwnedMoneyChange(0, 960)));
    assert_eq!(game.last_bettor, 0);
    assert_eq!(game.current_turn, 1);
}

#[test]
fn make_game_deals_from_a_shuffled_deck() {
    // In suit-then-rank order the deck would give seat 0 the 2 and 3 of suit 0.
    let mut differs = false;
    for _ in 0..5 {
        let game = make_game(three_players(1000)).unwrap();
        let p = game.players[0].private_cards;
        if (p[0].rank, p[0].suit, p[1].rank, p[1].suit) != (0, 0, 1, 0) {
            differs = true;
        }
    }
    assert!(differs);
}

#[test]
fn full_deck_holds_each_card_once() {
    let deck = mini_holdem::game::full_deck();
    assert_eq!(deck.len(), 52);
    let mut bytes: Vec<u8> = deck.iter().map(|c| c.to_byte()).collect();
    bytes.sort();
    bytes.dedup();
    assert_eq!(bytes.len(), 52);
}

#[test]
fn eligible_seats_are_listed_strongest_first() {
    let deck = vec![
        c(10, 2), c(4, 3),
        c(11, 3), c(3, 0),
        c(12, 1), c(1, 2),
        c(0, 0), c(2, 1), c(5, 2), c(7, 3), c(9, 0),
    ];
    let mut game = deal_game(three_players(1000), &deck).unwrap();
    act(&mut game, PlayerAction::AddMoney(10));
    act(&mut game, PlayerAction::AddMoney(5));
    for _ in 0..11 {
        act(&mut game, PlayerAction::Check);
    }
    assert_eq!(game.current_phase, 4);
    let steps = game.evaluate_showdown();
    assert_eq!(steps.len(), 1);
    assert_eq!(steps[0].winners, vec![2]);
    assert_eq!(steps[0].eligible_players, vec![2, 1, 0]);
    assert_eq!(game.players[2].money, 1020);
}
