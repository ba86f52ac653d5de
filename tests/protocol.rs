use mini_holdem::cards::{Card, HandCategory, HandRank, ShowdownDecidingFactor};
use mini_holdem::events::{ClientBound, GameEvent, GamePlayerAction, PlayerState, ServerBound};
use mini_holdem::framing::{frame_packet, PacketReader};
use mini_holdem::game::{Pot, ShowdownHand, ShowdownStep};
use mini_holdem::protocol::{
    decode_client_bound, decode_server_bound, encode_client_bound, encode_server_bound,
};

fn c(rank: u8, suit: u8) -> Card {
    Card { rank, suit }
}

fn client_round_trip(x: ClientBound) -> ClientBound {
    let bytes = encode_client_bound(x.clone());
    let back = decode_client_bound(&bytes).expect("decodes");
    assert_eq!(encode_client_bound(back.clone()), bytes);
    back
}

#[test]
fn login_encodes_tag_and_name() {
    let bytes = encode_server_bound(ServerBound::Login("alice".to_string()));
    assert_eq!(bytes, vec![0, 0, b'a', b'l', b'i', b'c', b'e']);
    match decode_server_bound(&bytes) {
        Some(ServerBound::Login(name)) => assert_eq!(name, "alice"),
        _ => panic!("expected a login"),
    }
}

#[test]
fn add_money_is_little_endian() {
    let bytes = encode_server_bound(ServerBound::GameAction(GamePlayerAction::AddMoney(0x01020304)));
    assert_eq!(bytes, vec![1, 1, 4, 3, 2, 1]);
    assert!(matches!(
        decode_server_bound(&bytes),
        Some(ServerBound::GameAction(GamePlayerAction::AddMoney(0x01020304)))
    ));
}

#[test]
fn server_bound_simple_commands_round_trip() {
    for cmd in [
        ServerBound::Disconnect,
        ServerBound::Ready(true),
        ServerBound::Ready(false),
        ServerBound::GetPlayerList,
        ServerBound::GameAction(GamePlayerAction::Check),
        ServerBound::GameAction(GamePlayerAction::Fold),
    ] {
        let bytes = encode_server_bound(cmd.clone());
        let back = decode_server_bound(&bytes).unwrap();
        assert_eq!(encode_server_bound(back), bytes);
    }
}

#[test]
fn server_bound_rejects_short_and_unknown() {
    assert!(decode_server_bound(&vec![0]).is_none());
    assert!(decode_server_bound(&vec![0, 0]).is_none());
    assert!(decode_server_bound(&vec![1, 1, 5, 0]).is_none());
    assert!(decode_server_bound(&vec![7, 7]).is_none());
    assert!(decode_server_bound(&vec![0, 0, 0xff]).is_none());
}

#[test]
fn player_list_round_trips() {
    let list = vec![
        (PlayerState::Ready, 1000, "bob".to_string()),
        (PlayerState::NotReady, 5, "carol".to_string()),
    ];
    let bytes = encode_client_bound(ClientBound::UpdatePlayerList(list));
    assert_eq!(&bytes[0..8], &[0, 0, 1, 0xe8, 3, 0, 0, b'b']);
    match client_round_trip(ClientBound::UpdatePlayerList(vec![
        (PlayerState::Ready, 1000, "bob".to_string()),
        (PlayerState::NotReady, 5, "carol".to_string()),
    ])) {
        ClientBound::UpdatePlayerList(back) => {
            assert_eq!(back.len(), 2);
            assert_eq!(back[1].2, "carol");
            assert_eq!(back[1].1, 5);
            assert_eq!(back[0].0, PlayerState::Ready);
        }
        _ => panic!("expected a player list"),
    }
}

#[test]
fn pots_round_trip() {
    let pots = vec![
        Pot { money: 30, eligible_players: vec![0, 1, 2] },
        Pot { money: 20, eligible_players: vec![] },
    ];
    let bytes = encode_client_bound(ClientBound::GameEvent(GameEvent::UpdatePots(pots)));
    assert_eq!(bytes, vec![1, 6, 30, 0, 0, 0, 0, 1, 2, 255, 20, 0, 0, 0, 255]);
    match decode_client_bound(&bytes) {
        Some(ClientBound::GameEvent(GameEvent::UpdatePots(back))) => {
            assert_eq!(back.len(), 2);
            assert_eq!(back[0].eligible_players, vec![0, 1, 2]);
            assert_eq!(back[1].money, 20);
        }
        _ => panic!("expected pots"),
    }
}

#[test]
fn truncated_pot_list_fails_to_decode() {
    assert!(decode_client_bound(&vec![1, 6, 30, 0, 0, 0, 0, 1, 2]).is_none());
    assert!(decode_client_bound(&vec![1, 6, 30, 0, 0]).is_none());
}

#[test]
fn bad_card_byte_fails_to_decode() {
    assert!(decode_client_bound(&vec![1, 9, 0x0e]).is_none());
    assert!(decode_client_bound(&vec![1, 0, 0x01, 0x50]).is_none());
    assert!(decode_client_bound(&vec![9, 9, 9]).is_none());
}

#[test]
fn reveal_and_turn_events_round_trip() {
    match client_round_trip(ClientBound::GameEvent(GameEvent::RevealFlop([c(1, 0), c(12, 3), c(5, 2)]))) {
        ClientBound::GameEvent(GameEvent::RevealFlop(cards)) => {
            assert_eq!((cards[1].rank, cards[1].suit), (12, 3));
        }
        _ => panic!("expected a flop"),
    }
    assert!(matches!(
        client_round_trip(ClientBound::GameEvent(GameEvent::NextPlayer(2))),
        ClientBound::GameEvent(GameEvent::NextPlayer(2))
    ));
    assert!(matches!(
        client_round_trip(ClientBound::GameEvent(GameEvent::PlayerAction(1, GamePlayerAction::AddMoney(77)))),
        ClientBound::GameEvent(GameEvent::PlayerAction(1, GamePlayerAction::AddMoney(77)))
    ));
    assert!(matches!(
        client_round_trip(ClientBound::GameEvent(GameEvent::OwnedMoneyChange(2, 990))),
        ClientBound::GameEvent(GameEvent::OwnedMoneyChange(2, 990))
    ));
    assert!(matches!(client_round_trip(ClientBound::YourIndex(4)), ClientBound::YourIndex(4)));
}

#[test]
fn showdown_hands_round_trip() {
    let hand = ShowdownHand {
        player: 1,
        private_cards: [c(3, 0), c(3, 1)],
        best_cards: [c(3, 0), c(3, 1), c(9, 2), c(7, 3), c(5, 0)],
        rank: HandRank {
            category: HandCategory::OnePair,
            primary: Some(c(3, 0)),
            secondary: None,
            kickers: vec![c(9, 2), c(7, 3), c(5, 0)],
        },
    };
    let bytes = encode_client_bound(ClientBound::GameEvent(GameEvent::Showdown(vec![hand])));
    assert_eq!(bytes.len(), 2 + 16);
    assert_eq!(&bytes[10..18], &[1, 0x03, 255, 0x29, 0x37, 0x05, 255, 255]);
    match decode_client_bound(&bytes) {
        Some(ClientBound::GameEvent(GameEvent::Showdown(back))) => {
            assert_eq!(back.len(), 1);
            assert_eq!(back[0].rank.category, HandCategory::OnePair);
            assert_eq!(back[0].rank.kickers.len(), 3);
            assert!(back[0].rank.secondary.is_none());
        }
        _ => panic!("expected a showdown"),
    }
}

#[test]
fn showdown_steps_round_trip() {
    let step = ShowdownStep {
        winners: vec![0, 2],
        winnings: 101,
        pot_start_index: 0,
        pot_end_index: 1,
        eligible_players: vec![0, 1, 2],
        win_reason: ShowdownDecidingFactor::Kicker(c(12, 0), c(11, 1)),
    };
    let tie = ShowdownStep {
        winners: vec![1],
        winnings: 5,
        pot_start_index: 2,
        pot_end_index: 2,
        eligible_players: vec![1],
        win_reason: ShowdownDecidingFactor::Tie,
    };
    let bytes = encode_client_bound(ClientBound::GameEvent(GameEvent::ShowdownSteps(vec![step, tie])));
    match decode_client_bound(&bytes) {
        Some(ClientBound::GameEvent(GameEvent::ShowdownSteps(back))) => {
            assert_eq!(back.len(), 2);
            assert_eq!(back[0].winners, vec![0, 2]);
            assert_eq!(back[0].winnings, 101);
            assert_eq!(back[0].eligible_players, vec![0, 1, 2]);
            assert!(matches!(back[0].win_reason, ShowdownDecidingFactor::Kicker(a, b) if a.rank == 12 && b.rank == 11));
            assert!(matches!(back[1].win_reason, ShowdownDecidingFactor::Tie));
        }
        _ => panic!("expected steps"),
    }
}

#[test]
fn framing_prefixes_the_length() {
    assert_eq!(frame_packet(&vec![1, 2, 3]), Some(vec![3, 1, 2, 3]));
    assert!(frame_packet(&vec![0u8; 256]).is_none());
}

#[test]
fn reader_gathers_framed_messages_and_skips_filler() {
    let mut reader = PacketReader::new();
    let mut bytes = vec![0u8, 0];
    bytes.extend(frame_packet(&vec![1, 2, 3]).unwrap());
    bytes.push(0);
    bytes.extend(frame_packet(&vec![9]).unwrap());
    bytes.extend(vec![4, 7]);
    let out = reader.push_bytes(&bytes);
    assert_eq!(out, vec![vec![1, 2, 3], vec![9]]);
    assert_eq!(reader.push_byte(8), None);
    assert_eq!(reader.push_byte(9), None);
    assert_eq!(reader.push_byte(10), Some(vec![7, 8, 9, 10]));
}
