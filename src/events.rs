//! The messages exchanged between clients and the server.
use crate::cards::{Card, HandRankModel};
use crate::game::{Event, PlayerAction, Pot, PotModel, ShowdownHand, ShowdownStep, StepModel};
use vstd::prelude::*;

verus! {

/// A command from a client to the server.
#[derive(Debug, Clone)]
pub enum ServerBound {
    Login(String),
    Disconnect,
    Ready(bool),
    GetPlayerList,
    GameAction(GamePlayerAction),
}

/// An event from the server to a client.
#[derive(Debug, Clone)]
pub enum ClientBound {
    /// Each player's state, money and username.
    UpdatePlayerList(Vec<(PlayerState, u32, String)>),
    YourIndex(u8),
    PlayerLeft(String),
    PlayerJoined(String),
    /// The receiver's private cards.
    GameStarted([Card; 2]),
    GameEvent(GameEvent),
}

/// What a player did: any `AddMoney` is a call, bet, raise or all-in.
#[derive(Debug, Clone, Copy, PartialEq, Eq, Structural)]
pub enum GamePlayerAction {
    Check,
    AddMoney(u32),
    Fold,
}

#[derive(Debug, Clone)]
pub enum GameEvent {
    PlayerAction(u8, GamePlayerAction),
    OwnedMoneyChange(u8, u32),
    NextPlayer(u8),
    UpdateCurrentBet(u32),
    UpdatePots(Vec<Pot>),
    RevealFlop([Card; 3]),
    RevealTurn(Card),
    RevealRiver(Card),
    Showdown(Vec<ShowdownHand>),
    ShowdownSteps(Vec<ShowdownStep>),
    InGamePlayerLeave(u8),
}

/// A player's state in the lobby.
#[derive(Debug, Clone, Copy, PartialEq, Eq, Structural)]
pub enum PlayerState {
    NotReady,
    Ready,
    InGame,
    Folded,
    Left,
}

pub open spec fn player_state_index(s: PlayerState) -> u8 {
    match s {
        PlayerState::NotReady => 0,
        PlayerState::Ready => 1,
        PlayerState::InGame => 2,
        PlayerState::Folded => 3,
        PlayerState::Left => 4,
    }
}

pub open spec fn player_state_of_byte(b: u8) -> Option<PlayerState> {
    if b == 0 {
        Some(PlayerState::NotReady)
    } else if b == 1 {
        Some(PlayerState::Ready)
    } else if b == 2 {
        Some(PlayerState::InGame)
    } else if b == 3 {
        Some(PlayerState::Folded)
    } else if b == 4 {
        Some(PlayerState::Left)
    } else {
        None
    }
}

impl PlayerState {
    pub fn from_byte(byte: u8) -> (r: Option<PlayerState>)
        ensures
            r == player_state_of_byte(byte),
    {
        match byte {
            0 => Some(PlayerState::NotReady),
            1 => Some(PlayerState::Ready),
            2 => Some(PlayerState::InGame),
            3 => Some(PlayerState::Folded),
            4 => Some(PlayerState::Left),
            _ => None,
        }
    }

    pub fn to_byte(&self) -> (r: u8)
        ensures
            r == player_state_index(*self),
            player_state_of_byte(r) == Some(*self),
    {
        match *self {
            PlayerState::NotReady => 0,
            PlayerState::Ready => 1,
            PlayerState::InGame => 2,
            PlayerState::Folded => 3,
            PlayerState::Left => 4,
        }
    }
}

// ---------------------------------------------------------------------
// Models.
// ---------------------------------------------------------------------

pub struct ShowdownHandModel {
    pub player: u8,
    pub private_cards: Seq<Card>,
    pub best_cards: Seq<Card>,
    pub rank: HandRankModel,
}

impl View for ShowdownHand {
    type V = ShowdownHandModel;

    open spec fn view(&self) -> ShowdownHandModel {
        ShowdownHandModel {
            player: self.player,
            private_cards: self.private_cards@,
            best_cards: self.best_cards@,
            rank: self.rank@,
        }
    }
}

pub enum ServerBoundModel {
    Login(Seq<char>),
    Disconnect,
    Ready(bool),
    GetPlayerList,
    GameAction(GamePlayerAction),
}

pub enum GameEventModel {
    PlayerAction(u8, GamePlayerAction),
    OwnedMoneyChange(u8, u32),
    NextPlayer(u8),
    UpdateCurrentBet(u32),
    UpdatePots(Seq<PotModel>),
    RevealFlop(Seq<Card>),
    RevealTurn(Card),
    RevealRiver(Card),
    Showdown(Seq<ShowdownHandModel>),
    ShowdownSteps(Seq<StepModel>),
    InGamePlayerLeave(u8),
}

pub enum ClientBoundModel {
    UpdatePlayerList(Seq<(PlayerState, u32, Seq<char>)>),
    YourIndex(u8),
    PlayerLeft(Seq<char>),
    PlayerJoined(Seq<char>),
    GameStarted(Seq<Card>),
    GameEvent(GameEventModel),
}

impl View for ServerBound {
    type V = ServerBoundModel;

    open spec fn view(&self) -> ServerBoundModel {
        match self {
            ServerBound::Login(s) => ServerBoundModel::Login(s@),
            ServerBound::Disconnect => ServerBoundModel::Disconnect,
            ServerBound::Ready(b) => ServerBoundModel::Ready(*b),
            ServerBound::GetPlayerList => ServerBoundModel::GetPlayerList,
            ServerBound::GameAction(a) => ServerBoundModel::GameAction(*a),
        }
    }
}

pub open spec fn player_list_view(v: Seq<(PlayerState, u32, String)>) -> Seq<(PlayerState, u32, Seq<char>)> {
    Seq::new(v.len(), |i: int| (v[i].0, v[i].1, v[i].2@))
}

pub open spec fn pots_view(v: Seq<Pot>) -> Seq<PotModel> {
    Seq::new(v.len(), |i: int| v[i]@)
}

pub open spec fn hands_view(v: Seq<ShowdownHand>) -> Seq<ShowdownHandModel> {
    Seq::new(v.len(), |i: int| v[i]@)
}

pub open spec fn steps_view(v: Seq<ShowdownStep>) -> Seq<StepModel> {
    Seq::new(v.len(), |i: int| v[i]@)
}

impl View for GameEvent {
    type V = GameEventModel;

    open spec fn view(&self) -> GameEventModel {
        match self {
            GameEvent::PlayerAction(p, a) => GameEventModel::PlayerAction(*p, *a),
            GameEvent::OwnedMoneyChange(p, m) => GameEventModel::OwnedMoneyChange(*p, *m),
            GameEvent::NextPlayer(p) => GameEventModel::NextPlayer(*p),
            GameEvent::UpdateCurrentBet(m) => GameEventModel::UpdateCurrentBet(*m),
            GameEvent::UpdatePots(v) => GameEventModel::UpdatePots(pots_view(v@)),
            GameEvent::RevealFlop(c) => GameEventModel::RevealFlop(c@),
            GameEvent::RevealTurn(c) => GameEventModel::RevealTurn(*c),
            GameEvent::RevealRiver(c) => GameEventModel::RevealRiver(*c),
            GameEvent::Showdown(v) => GameEventModel::Showdown(hands_view(v@)),
            GameEvent::ShowdownSteps(v) => GameEventModel::ShowdownSteps(steps_view(v@)),
            GameEvent::InGamePlayerLeave(p) => GameEventModel::InGamePlayerLeave(*p),
        }
    }
}

impl View for ClientBound {
    type V = ClientBoundModel;

    open spec fn view(&self) -> ClientBoundModel {
        match self {
            ClientBound::UpdatePlayerList(v) => ClientBoundModel::UpdatePlayerList(
                player_list_view(v@),
            ),
            ClientBound::YourIndex(i) => ClientBoundModel::YourIndex(*i),
            ClientBound::PlayerLeft(s) => ClientBoundModel::PlayerLeft(s@),
            ClientBound::PlayerJoined(s) => ClientBoundModel::PlayerJoined(s@),
            ClientBound::GameStarted(c) => ClientBoundModel::GameStarted(c@),
            ClientBound::GameEvent(e) => ClientBoundModel::GameEvent(e@),
        }
    }
}

pub open spec fn wire_action(a: PlayerAction) -> GamePlayerAction {
    match a {
        PlayerAction::Fold => GamePlayerAction::Fold,
        PlayerAction::Check => GamePlayerAction::Check,
        PlayerAction::AddMoney(m) => GamePlayerAction::AddMoney(m),
    }
}

pub open spec fn game_action(a: GamePlayerAction) -> PlayerAction {
    match a {
        GamePlayerAction::Fold => PlayerAction::Fold,
        GamePlayerAction::Check => PlayerAction::Check,
        GamePlayerAction::AddMoney(m) => PlayerAction::AddMoney(m),
    }
}

impl GamePlayerAction {
    /// The betting action this wire action asks for.
    pub fn to_player_action(&self) -> (r: PlayerAction)
        ensures
            r == game_action(*self),
    {
        match *self {
            GamePlayerAction::Fold => PlayerAction::Fold,
            GamePlayerAction::Check => PlayerAction::Check,
            GamePlayerAction::AddMoney(m) => PlayerAction::AddMoney(m),
        }
    }
}

/// The wire form of an event of the game.
pub open spec fn event_model(e: Event) -> GameEventModel {
    match e {
        Event::PlayerAction(p, a) => GameEventModel::PlayerAction(p, wire_action(a)),
        Event::OwnedMoneyChange(p, m) => GameEventModel::OwnedMoneyChange(p, m),
        Event::NextPlayer(p) => GameEventModel::NextPlayer(p),
        Event::UpdateCurrentBet(m) => GameEventModel::UpdateCurrentBet(m),
        Event::UpdatePots(v) => GameEventModel::UpdatePots(pots_view(v@)),
        Event::RevealFlop(c) => GameEventModel::RevealFlop(c@),
        Event::RevealTurn(c) => GameEventModel::RevealTurn(c),
        Event::RevealRiver(c) => GameEventModel::RevealRiver(c),
        Event::Showdown(v) => GameEventModel::Showdown(hands_view(v@)),
    }
}

impl GameEvent {
    /// The event to send for an event of the game.
    pub fn from_event(e: Event) -> (r: GameEvent)
        ensures
            r@ == event_model(e),
    {
        match e {
            Event::PlayerAction(p, a) => GameEvent::PlayerAction(
                p,
                match a {
                    PlayerAction::Fold => GamePlayerAction::Fold,
                    PlayerAction::Check => GamePlayerAction::Check,
                    PlayerAction::AddMoney(m) => GamePlayerAction::AddMoney(m),
                },
            ),
            Event::OwnedMoneyChange(p, m) => GameEvent::OwnedMoneyChange(p, m),
            Event::NextPlayer(p) => GameEvent::NextPlayer(p),
            Event::UpdateCurrentBet(m) => GameEvent::UpdateCurrentBet(m),
            Event::UpdatePots(v) => GameEvent::UpdatePots(v),
            Event::RevealFlop(c) => GameEvent::RevealFlop(c),
            Event::RevealTurn(c) => GameEvent::RevealTurn(c),
            Event::RevealRiver(c) => GameEvent::RevealRiver(c),
            Event::Showdown(v) => GameEvent::Showdown(v),
        }
    }
}

} // verus!
