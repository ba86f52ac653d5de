use mini_holdem::events::{ClientBound, GameEvent, GamePlayerAction, PlayerState, ServerBound};
use mini_holdem::lobby::{Lobby, Outgoing, Recipient};

fn login(lobby: &mut Lobby, client: u64, name: &str) -> Vec<Outgoing> {
    lobby.handle_message(client, ServerBound::Login(name.to_string()))
}

#[test]
fn login_adds_a_user_and_broadcasts_the_list() {
    let mut lobby = Lobby::new(1000);
    let out = login(&mut lobby, 7, "alice");
    assert_eq!(lobby.users.len(), 1);
    assert_eq!(lobby.users[0].username, "alice");
    assert_eq!(lobby.users[0].money, 1000);
    assert!(matches!(out[0].to, Recipient::Everyone));
    match &out[0].message {
        ClientBound::UpdatePlayerList(list) => {
            assert_eq!(list.len(), 1);
            assert_eq!(list[0].0, PlayerState::NotReady);
        }
        _ => panic!("expected the player list"),
    }
    assert!(out.iter().any(|o| matches!(o.to, Recipient::Connection(7)) && matches!(o.message, ClientBound::YourIndex(0))));
}

#[test]
fn login_rejects_bad_and_taken_names() {
    let mut lobby = Lobby::new(1000);
    login(&mut lobby, 1, "alice");
    assert!(login(&mut lobby, 2, "ALICE").is_empty());
    assert!(login(&mut lobby, 3, "al").is_empty());
    assert!(login(&mut lobby, 4, "al ice").is_empty());
    assert!(login(&mut lobby, 5, "abcdefghijklmnopq").is_empty());
    assert!(login(&mut lobby, 6, "alicé").is_empty());
    assert!(login(&mut lobby, 1, "bobby").is_empty());
    assert_eq!(lobby.users.len(), 1);
}

#[test]
fn player_list_request_answers_privately() {
    let mut lobby = Lobby::new(1000);
    login(&mut lobby, 1, "alice");
    let out = lobby.handle_message(9, ServerBound::GetPlayerList);
    assert_eq!(out.len(), 1);
    assert!(matches!(out[0].to, Recipient::Connection(9)));
}

#[test]
fn three_ready_players_start_a_hand() {
    let mut lobby = Lobby::new(1000);
    for (id, name) in [(1, "alice"), (2, "bobby"), (3, "carol")] {
        login(&mut lobby, id, name);
    }
    lobby.handle_message(1, ServerBound::Ready(true));
    lobby.handle_message(2, ServerBound::Ready(true));
    assert!(lobby.game.is_none());
    let out = lobby.handle_message(3, ServerBound::Ready(true));
    let game = lobby.game.as_ref().expect("a hand started");
    assert_eq!(game.players.len(), 3);
    assert_eq!(out.iter().filter(|o| matches!(o.message, ClientBound::GameStarted(_))).count(), 3);
    assert!(out.iter().any(|o| matches!(o.message, ClientBound::GameEvent(GameEvent::NextPlayer(0)))));
    let before = lobby.game.as_ref().unwrap().players[1].money;
    lobby.handle_message(2, ServerBound::GameAction(GamePlayerAction::AddMoney(100)));
    assert_eq!(lobby.game.as_ref().unwrap().players[1].money, before);
    let out = lobby.handle_message(1, ServerBound::GameAction(GamePlayerAction::Fold));
    assert!(out.iter().any(|o| matches!(o.message, ClientBound::GameEvent(GameEvent::NextPlayer(1)))));
}

#[test]
fn disconnect_outside_a_hand_removes_the_user() {
    let mut lobby = Lobby::new(1000);
    login(&mut lobby, 1, "alice");
    login(&mut lobby, 2, "bobby");
    let out = lobby.handle_message(1, ServerBound::Disconnect);
    assert_eq!(lobby.users.len(), 1);
    assert_eq!(lobby.users[0].username, "bobby");
    assert!(matches!(&out[0].message, ClientBound::PlayerLeft(name) if name == "alice"));
}

#[test]
fn leaving_mid_hand_folds_and_leaves_at_the_end() {
    let mut lobby = Lobby::new(1000);
    for (id, name) in [(1, "alice"), (2, "bobby"), (3, "carol")] {
        login(&mut lobby, id, name);
        lobby.handle_message(id, ServerBound::Ready(true));
    }
    assert!(lobby.game.is_some());
    lobby.handle_message(2, ServerBound::Disconnect);
    assert!(lobby.users[1].leaving);
    assert!(lobby.game.as_ref().unwrap().players[1].has_folded);
    let out = lobby.handle_message(1, ServerBound::GameAction(GamePlayerAction::Fold));
    assert!(lobby.game.is_none());
    assert!(out.iter().any(|o| matches!(o.message, ClientBound::GameEvent(GameEvent::ShowdownSteps(_)))));
    assert_eq!(lobby.users.len(), 2);
    assert_eq!(lobby.users[1].username, "carol");
    assert_eq!(lobby.users[1].money, 1005);
    assert_eq!(lobby.users[0].money, 1000);
}

#[test]
fn the_lobby_holds_eleven_users() {
    let mut lobby = Lobby::new(1000);
    for id in 0..11u64 {
        assert!(!login(&mut lobby, id, &format!("player{id}")).is_empty());
    }
    assert!(login(&mut lobby, 11, "player11").is_empty());
    assert_eq!(lobby.users.len(), 11);
}

#[test]
fn leaving_out_of_turn_can_end_the_hand() {
    let mut lobby = Lobby::new(1000);
    for (id, name) in [(1, "alice"), (2, "bobby"), (3, "carol")] {
        login(&mut lobby, id, name);
        lobby.handle_message(id, ServerBound::Ready(true));
    }
    lobby.handle_message(1, ServerBound::GameAction(GamePlayerAction::Fold));
    let out = lobby.handle_message(3, ServerBound::Disconnect);
    assert!(lobby.game.is_none());
    assert!(matches!(&out[0].message, ClientBound::PlayerLeft(name) if name == "carol"));
    assert!(matches!(out[1].message, ClientBound::GameEvent(GameEvent::InGamePlayerLeave(2))));
    assert!(out.iter().any(|o| matches!(o.message, ClientBound::GameEvent(GameEvent::ShowdownSteps(_)))));
    assert_eq!(lobby.users.len(), 2);
    assert_eq!(lobby.users[1].username, "bobby");
    assert_eq!(lobby.users[1].money, 1010);
}
