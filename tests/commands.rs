use mini_holdem::commands::handle_command;
use mini_holdem::events::{GamePlayerAction, ServerBound};

fn parse(line: &str) -> Option<ServerBound> {
    handle_command(&line.as_bytes().to_vec())
}

#[test]
fn simple_verbs_parse() {
    assert!(matches!(parse("ready"), Some(ServerBound::Ready(true))));
    assert!(matches!(parse("notready"), Some(ServerBound::Ready(false))));
    assert!(matches!(parse("check"), Some(ServerBound::GameAction(GamePlayerAction::Check))));
    assert!(matches!(parse("fold"), Some(ServerBound::GameAction(GamePlayerAction::Fold))));
    assert!(matches!(parse("leave"), Some(ServerBound::Disconnect)));
}

#[test]
fn join_takes_a_valid_username() {
    match parse("join alice") {
        Some(ServerBound::Login(name)) => assert_eq!(name, "alice"),
        _ => panic!("expected a login"),
    }
    assert!(parse("join al").is_none());
    assert!(parse("join al ice").is_none());
    assert!(parse("join abcdefghijklmnopq").is_none());
    assert!(parse("join alicé").is_none());
    assert!(parse("join").is_none());
}

#[test]
fn addmoney_reads_a_u32() {
    assert!(matches!(
        parse("addmoney 250"),
        Some(ServerBound::GameAction(GamePlayerAction::AddMoney(250)))
    ));
    assert!(matches!(
        parse("addmoney 4294967295"),
        Some(ServerBound::GameAction(GamePlayerAction::AddMoney(4294967295)))
    ));
    assert!(parse("addmoney 4294967296").is_none());
    assert!(parse("addmoney 12a").is_none());
    assert!(parse("addmoney ").is_none());
}

#[test]
fn unknown_lines_are_no_command() {
    assert!(parse("").is_none());
    assert!(parse("readyy").is_none());
    assert!(parse("raise 5").is_none());
}
