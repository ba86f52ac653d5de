//! The lobby: who is connected, who is ready, and the hand in play. It is
//! the single writer of all game state; it takes one command at a time and
//! answers with the messages to send.
use crate::events::{
    player_list_view, ClientBound, ClientBoundModel, GameEvent, PlayerState, ServerBound,
};
use crate::events::game_action;
use crate::cards::{all_distinct, all_wf, Card};
use crate::events::{event_model, steps_view, GameEventModel};
use crate::game::{
    action_legal, advance_post, dealt_from, fold_post, lobby_ok, make_game, showdown_post, Event, Game,
    Player, PlayerAction, ShowdownStep,
};
use vstd::prelude::*;
use vstd::utf8::encode_utf8;

verus! {

/// The most users the lobby holds, so that every message it sends fits a
/// frame of 255 bytes: a player list of 11 users with 16-character names
/// takes 244, the hands of a showdown of 11 take 178, and steps go one to
/// a message.
pub const MAX_USERS: usize = 11;

/// A connected, logged-in player. Their seat is their index in the lobby.
pub struct User {
    pub connection: u64,
    pub username: String,
    pub money: u32,
    pub ready: bool,
    /// Left during a hand; removed when the hand ends.
    pub leaving: bool,
}

/// Who a message goes to.
#[derive(Debug, Clone, Copy, PartialEq, Eq, Structural)]
pub enum Recipient {
    Everyone,
    Connection(u64),
}

pub struct Outgoing {
    pub to: Recipient,
    pub message: ClientBound,
}

pub struct Lobby {
    pub users: Vec<User>,
    pub default_money: u32,
    pub game: Option<Game>,
}

pub open spec fn lower(b: u8) -> u8 {
    if 65 <= b <= 90 {
        (b + 32) as u8
    } else {
        b
    }
}

/// The two names are equal but for ASCII case.
pub open spec fn same_name(a: Seq<u8>, b: Seq<u8>) -> bool {
    a.len() == b.len() && forall|i: int| 0 <= i < a.len() ==> lower(a[i]) == lower(b[i])
}

/// 3 to 16 ASCII characters, no space.
pub open spec fn name_acceptable(a: Seq<u8>) -> bool {
    3 <= a.len() <= 16 && forall|i: int| 0 <= i < a.len() ==> a[i] < 128 && a[i] != 32
}

/// `name` may join the lobby: it is acceptable, no one has it in any case,
/// and a seat is free.
pub open spec fn may_join(users: Seq<User>, name: Seq<char>) -> bool {
    &&& users.len() < MAX_USERS
    &&& name_acceptable(encode_utf8(name))
    &&& forall|i: int| 0 <= i < users.len() ==> !same_name(encode_utf8(users[i].username@), encode_utf8(name))
}

/// The seat of the first user on `client`, or -1.
pub open spec fn seat_of(users: Seq<User>, client: u64) -> int
    decreases users.len(),
{
    if users.len() == 0 {
        -1
    } else {
        let s = seat_of(users.drop_last(), client);
        if s >= 0 {
            s
        } else if users.last().connection == client {
            users.len() - 1
        } else {
            -1
        }
    }
}

/// How a user shows in the player list.
pub open spec fn state_of(users: Seq<User>, game: Option<Game>, i: int) -> PlayerState {
    if users[i].leaving {
        PlayerState::Left
    } else if game is Some && i < game->0.players@.len() {
        if game->0.players@[i].has_folded {
            PlayerState::Folded
        } else {
            PlayerState::InGame
        }
    } else if users[i].ready {
        PlayerState::Ready
    } else {
        PlayerState::NotReady
    }
}

pub open spec fn user_list(users: Seq<User>, game: Option<Game>) -> Seq<(PlayerState, u32, Seq<char>)> {
    Seq::new(users.len(), |i: int| (state_of(users, game, i), users[i].money, users[i].username@))
}

fn name_bytes(name: &String) -> (r: &[u8])
    ensures
        r@ == encode_utf8(name@),
{
    name.as_str().as_bytes()
}

fn to_lower(b: u8) -> (r: u8)
    ensures
        r == lower(b),
{
    if 65 <= b && b <= 90 {
        b + 32
    } else {
        b
    }
}

fn names_match(a: &[u8], b: &[u8]) -> (r: bool)
    ensures
        r == same_name(a@, b@),
{
    if a.len() != b.len() {
        return false;
    }
    let mut i: usize = 0;
    while i < a.len()
        invariant
            0 <= i <= a.len(),
            a.len() == b.len(),
            forall|j: int| 0 <= j < i ==> lower(a@[j]) == lower(b@[j]),
        decreases a.len() - i,
    {
        if to_lower(a[i]) != to_lower(b[i]) {
            return false;
        }
        i = i + 1;
    }
    true
}

fn acceptable(a: &[u8]) -> (r: bool)
    ensures
        r == name_acceptable(a@),
{
    if a.len() < 3 || a.len() > 16 {
        return false;
    }
    let mut i: usize = 0;
    while i < a.len()
        invariant
            0 <= i <= a.len(),
            forall|j: int| 0 <= j < i ==> a@[j] < 128 && a@[j] != 32,
        decreases a.len() - i,
    {
        if a[i] >= 128 || a[i] == 32 {
            return false;
        }
        i = i + 1;
    }
    true
}

fn broadcast(out: &mut Vec<Outgoing>, message: ClientBound)
    ensures
        final(out)@ == old(out)@.push(Outgoing { to: Recipient::Everyone, message }),
{
    out.push(Outgoing { to: Recipient::Everyone, message });
}

fn send_to(out: &mut Vec<Outgoing>, connection: u64, message: ClientBound)
    ensures
        final(out)@ == old(out)@.push(Outgoing { to: Recipient::Connection(connection), message }),
{
    out.push(Outgoing { to: Recipient::Connection(connection), message });
}

impl Lobby {
    pub open spec fn wf(&self) -> bool {
        &&& self.users.len() <= MAX_USERS
        &&& self.game matches Some(g) ==> g.wf() && g.current_phase < 4 && g.players@.len()
            <= self.users.len()
    }

    pub fn new(default_money: u32) -> (r: Lobby)
        ensures
            r.wf(),
            r.users@.len() == 0,
            r.game is None,
            r.default_money == default_money,
    {
        Lobby { users: Vec::new(), default_money, game: None }
    }

    /// The seat of the user on connection `client`.
    pub fn find_id_from_client(&self, client: u64) -> (r: Option<u8>)
        requires
            self.users.len() <= MAX_USERS,
        ensures
            r is None <==> seat_of(self.users@, client) < 0,
            r is Some ==> r->0 == seat_of(self.users@, client),
            r is Some ==> r->0 < self.users.len() && self.users@[r->0 as int].connection == client,
    {
        let mut i: usize = 0;
        while i < self.users.len()
            invariant
                0 <= i <= self.users.len() <= MAX_USERS,
                seat_of(self.users@.subrange(0, i as int), client) < 0,
            decreases self.users.len() - i,
        {
            assert(self.users@.subrange(0, i + 1).drop_last() =~= self.users@.subrange(0, i as int));
            if self.users[i].connection == client {
                proof {
                    lemma_seat_of_prefix(self.users@, client, i as int + 1);
                }
                return Some(i as u8);
            }
            i = i + 1;
        }
        assert(self.users@.subrange(0, self.users.len() as int) =~= self.users@);
        None
    }

    /// The player list as it shows now.
    pub fn player_list(&self) -> (r: Vec<(PlayerState, u32, String)>)
        ensures
            player_list_view(r@) == user_list(self.users@, self.game),
    {
        let mut r: Vec<(PlayerState, u32, String)> = Vec::new();
        let mut i: usize = 0;
        while i < self.users.len()
            invariant
                0 <= i <= self.users.len(),
                r.len() == i,
                forall|j: int|
                    0 <= j < i ==> #[trigger] player_list_view(r@)[j] == user_list(
                        self.users@,
                        self.game,
                    )[j],
            decreases self.users.len() - i,
        {
            let u = &self.users[i];
            let state = if u.leaving {
                PlayerState::Left
            } else {
                match &self.game {
                    Some(g) => if i < g.players.len() {
                        if g.players[i].has_folded {
                            PlayerState::Folded
                        } else {
                            PlayerState::InGame
                        }
                    } else if u.ready {
                        PlayerState::Ready
                    } else {
                        PlayerState::NotReady
                    },
                    None => if u.ready {
                        PlayerState::Ready
                    } else {
                        PlayerState::NotReady
                    },
                }
            };
            assert(state == state_of(self.users@, self.game, i as int));
            let name = u.username.clone();
            let ghost old_r = r@;
            r.push((state, u.money, name));
            assert forall|j: int| 0 <= j < i + 1 implies #[trigger] player_list_view(r@)[j]
                == user_list(self.users@, self.game)[j] by {
                if j < i {
                    assert(r@[j] == old_r[j]);
                    assert(player_list_view(old_r)[j] == user_list(self.users@, self.game)[j]);
                }
            }
            i = i + 1;
        }
        assert(player_list_view(r@) =~= user_list(self.users@, self.game));
        r
    }

    /// Sends the player list: to one connection, or to everyone together
    /// with each user's own seat.
    fn send_player_list_update(&self, out: &mut Vec<Outgoing>, private_id: Option<u64>)
        requires
            self.users.len() <= MAX_USERS,
        ensures
            final(out)@.subrange(0, old(out)@.len() as int) == old(out)@,
            list_update_sent(final(out)@, old(out)@.len() as int, self.users@, self.game, private_id),
    {
        let list = self.player_list();
        let message = ClientBound::UpdatePlayerList(list);
        assert(message@ == ClientBoundModel::UpdatePlayerList(user_list(self.users@, self.game)));
        match private_id {
            Some(id) => {
                send_to(out, id, message);
                assert(out@[old(out)@.len() as int] == Outgoing { to: Recipient::Connection(id), message });
                assert(out@.subrange(0, old(out)@.len() as int) =~= old(out)@);
            },
            None => {
                broadcast(out, message);
                let ghost first = out@;
                let ghost start = old(out)@.len() as int;
                assert(first.subrange(0, start) =~= old(out)@);
                let mut i: usize = 0;
                while i < self.users.len()
                    invariant
                        0 <= i <= self.users.len() <= MAX_USERS,
                        out@.len() == first.len() + i,
                        first.len() == start + 1,
                        0 <= start,
                        out@.subrange(0, first.len() as int) == first,
                        forall|j: int|
                            0 <= j < i ==> (#[trigger] out@[start + 1 + j]).to == Recipient::Connection(
                                self.users@[j].connection,
                            ) && out@[start + 1 + j].message@ == ClientBoundModel::YourIndex(j as u8),
                    decreases self.users.len() - i,
                {
                    let ghost before = out@;
                    send_to(out, self.users[i].connection, ClientBound::YourIndex(i as u8));
                    assert(out@.subrange(0, first.len() as int) =~= before.subrange(0, first.len() as int));
                    assert forall|j: int| 0 <= j < i + 1 implies (#[trigger] out@[start + 1 + j]).to
                        == Recipient::Connection(self.users@[j].connection) && out@[start + 1
                        + j].message@ == ClientBoundModel::YourIndex(j as u8) by {
                        if j < i {
                            assert(out@[start + 1 + j] == before[start + 1 + j]);
                        }
                    }
                    i = i + 1;
                }
                assert(out@[start] == first[start]);
                assert(out@.subrange(0, start) =~= first.subrange(0, start));
            },
        }
    }
}

/// From position `from`, `out` holds the player list of `users` and
/// `game`: for one connection, or for everyone followed by each user's
/// own seat, to that user. Nothing follows.
pub open spec fn list_update_sent(
    out: Seq<Outgoing>,
    from: int,
    users: Seq<User>,
    game: Option<Game>,
    private_id: Option<u64>,
) -> bool {
    &&& 0 <= from
    &&& out.len() == from + 1 + if private_id is Some {
        0
    } else {
        users.len() as int
    }
    &&& out[from].to == match private_id {
        Some(id) => Recipient::Connection(id),
        None => Recipient::Everyone,
    }
    &&& out[from].message@ == ClientBoundModel::UpdatePlayerList(user_list(users, game))
    &&& private_id is None ==> forall|j: int|
        0 <= j < users.len() ==> (#[trigger] out[from + 1 + j]).to == Recipient::Connection(
            users[j].connection,
        ) && out[from + 1 + j].message@ == ClientBoundModel::YourIndex(j as u8)
}

/// From position `from`, `out` holds what starting the hand `g` for
/// `users` sends: each seat its private cards, everyone the blinds' stacks
/// and the first player to act, then the player list. Nothing follows.
pub open spec fn start_sent(out: Seq<Outgoing>, from: int, users: Seq<User>, g: Game) -> bool {
    let n = users.len() as int;
    &&& 0 <= from
    &&& n >= 3
    &&& from + n + 3 <= out.len()
    &&& forall|i: int|
        0 <= i < n ==> (#[trigger] out[from + i]).to == Recipient::Connection(users[i].connection)
            && out[from + i].message@ == ClientBoundModel::GameStarted(g.players@[i].private_cards@)
    &&& out[from + n].to == Recipient::Everyone
    &&& out[from + n].message@ == ClientBoundModel::GameEvent(
        GameEventModel::OwnedMoneyChange(1, g.players@[1].money),
    )
    &&& out[from + n + 1].to == Recipient::Everyone
    &&& out[from + n + 1].message@ == ClientBoundModel::GameEvent(
        GameEventModel::OwnedMoneyChange(2, g.players@[2].money),
    )
    &&& out[from + n + 2].to == Recipient::Everyone
    &&& out[from + n + 2].message@ == ClientBoundModel::GameEvent(
        GameEventModel::NextPlayer(g.current_turn),
    )
    &&& list_update_sent(out, from + n + 3, users, Some(g), None)
}

/// Every user is ready.
pub open spec fn all_ready(users: Seq<User>) -> bool {
    forall|i: int| 0 <= i < users.len() ==> #[trigger] users[i].ready
}

/// The lobby as `make_game` takes it: each seat with its money.
pub open spec fn seats_and_money(users: Seq<User>) -> Seq<(u8, u32)> {
    Seq::new(users.len(), |i: int| (i as u8, users[i].money))
}

/// `g` is a hand that `make_game` deals to `users`: from some order of the
/// 52 cards, with the blinds posted.
pub open spec fn started_from(g: Game, users: Seq<User>) -> bool {
    &&& g.wf()
    &&& exists|deck: Seq<Card>|
        deck.len() == 52 && all_wf(deck) && all_distinct(deck) && #[trigger] dealt_from(
            g,
            seats_and_money(users),
            deck,
        )
}

/// `game` follows `game0` once the users are `users`: a hand in play stays;
/// with none, one starts exactly when everyone is ready and the lobby can
/// start one, and it is then dealt to `users`.
pub open spec fn starts_if_ready(game0: Option<Game>, game: Option<Game>, users: Seq<User>) -> bool {
    &&& game0 is Some ==> game == game0
    &&& game0 is None ==> (game is Some <==> all_ready(users) && lobby_ok(seats_and_money(users)))
    &&& game0 is None && game is Some ==> started_from(game->0, users)
}

/// The messages that announce `events`, in order.
pub open spec fn event_messages(events: Seq<Event>) -> Seq<ClientBoundModel> {
    Seq::new(events.len(), |k: int| ClientBoundModel::GameEvent(event_model(events[k])))
}

/// `out` holds `msgs`, for everyone, from position `from` on.
pub open spec fn sent_to_everyone(out: Seq<Outgoing>, from: int, msgs: Seq<ClientBoundModel>) -> bool {
    &&& 0 <= from
    &&& from + msgs.len() <= out.len()
    &&& forall|k: int|
        0 <= k < msgs.len() ==> (#[trigger] out[from + k]).to == Recipient::Everyone && out[from
            + k].message@ == msgs[k]
}

/// The users with the stacks that the hand `g` left its seats.
pub open spec fn paid_users(users: Seq<User>, g: Game) -> Seq<User> {
    Seq::new(
        users.len(),
        |s: int|
            if s < g.players@.len() {
                User { money: g.players@[s].money, ..users[s] }
            } else {
                users[s]
            },
    )
}

/// The users who have not left, in order.
pub open spec fn remove_leaving(users: Seq<User>) -> Seq<User>
    decreases users.len(),
{
    if users.len() == 0 {
        Seq::empty()
    } else if users.last().leaving {
        remove_leaving(users.drop_last())
    } else {
        remove_leaving(users.drop_last()).push(users.last())
    }
}

/// What the lobby does once its hand has become `g1` with `events`,
/// having `users0` and having sent `out0`, when it ends with `users`,
/// `game` and `out`: each event is announced to everyone, in order. A hand
/// that goes on is kept. At showdown the pots are paid out, each step is
/// sent on its own, the stacks go back to the users, those who left are let
/// go, the hand ends, and the new player list is sent.
pub open spec fn settled(
    users0: Seq<User>,
    g1: Game,
    events: Seq<Event>,
    users: Seq<User>,
    game: Option<Game>,
    out0: Seq<Outgoing>,
    out: Seq<Outgoing>,
) -> bool {
    &&& out.len() >= out0.len()
    &&& out.subrange(0, out0.len() as int) == out0
    &&& sent_to_everyone(out, out0.len() as int, event_messages(events))
    &&& if g1.current_phase < 4 {
        &&& users == users0
        &&& game == Some(g1)
        &&& out.len() == out0.len() + events.len()
    } else {
        exists|g2: Game, steps: Seq<ShowdownStep>|
            #![trigger showdown_post(g1, g2, steps)]
            {
                let at = (out0.len() + events.len()) as int;
                &&& showdown_post(g1, g2, steps)
                &&& game is None
                &&& users == remove_leaving(paid_users(users0, g2))
                &&& at + steps.len() <= out.len()
                &&& forall|k: int|
                    0 <= k < steps.len() ==> (#[trigger] out[at + k]).to == Recipient::Everyone
                        && out[at + k].message@ == ClientBoundModel::GameEvent(
                        GameEventModel::ShowdownSteps(seq![steps[k]@]),
                    )
                &&& list_update_sent(out, at + steps.len(), users, None, None)
            }
    }
}

/// What the lobby does with `action` on its hand `g`: an illegal action
/// changes nothing and sends nothing; a legal one moves the hand on as
/// `Game::advance_game` says and is `settled`.
pub open spec fn lobby_advanced(
    users0: Seq<User>,
    g: Game,
    action: PlayerAction,
    users: Seq<User>,
    game: Option<Game>,
    out0: Seq<Outgoing>,
    out: Seq<Outgoing>,
) -> bool {
    if !action_legal(g, action) {
        users == users0 && game == Some(g) && out == out0
    } else {
        exists|g1: Game, events: Seq<Event>|
            #![trigger advance_post(g, action, g1, events)]
            advance_post(g, action, g1, events) && settled(users0, g1, events, users, game, out0, out)
    }
}

impl Lobby {
    /// Starts a hand when no hand is in play, the lobby can start one
    /// (`lobby_ok`: three to 23 players, each with more than 10) and
    /// everyone is ready.
    #[verifier::loop_isolation(false)]
    fn check_for_game_start(&mut self, out: &mut Vec<Outgoing>)
        requires
            old(self).wf(),
        ensures
            final(self).wf(),
            final(self).users == old(self).users,
            final(self).default_money == old(self).default_money,
            old(self).game is Some ==> final(self).game == old(self).game,
            old(self).game is None ==> (final(self).game is Some <==> all_ready(old(self).users@)
                && lobby_ok(seats_and_money(old(self).users@))),
            old(self).game is None && final(self).game is Some ==> started_from(
                final(self).game->0,
                old(self).users@,
            ),
            old(self).game is None && final(self).game is Some ==> final(out)@.subrange(
                0,
                old(out)@.len() as int,
            ) == old(out)@ && start_sent(
                final(out)@,
                old(out)@.len() as int,
                old(self).users@,
                final(self).game->0,
            ),
            !(old(self).game is None && final(self).game is Some) ==> final(out)@ == old(out)@,
    {
        if self.game.is_some() || self.users.len() < 3 {
            return;
        }
        let mut i: usize = 0;
        while i < self.users.len()
            invariant
                0 <= i <= self.users.len(),
                forall|j: int| 0 <= j < i ==> #[trigger] self.users@[j].ready,
            decreases self.users.len() - i,
        {
            if !self.users[i].ready {
                return;
            }
            i = i + 1;
        }
        let mut lobby_players: Vec<(u8, u32)> = Vec::new();
        let mut i: usize = 0;
        while i < self.users.len()
            invariant
                0 <= i <= self.users.len() <= MAX_USERS,
                lobby_players@ =~= seats_and_money(self.users@).subrange(0, i as int),
            decreases self.users.len() - i,
        {
            lobby_players.push((i as u8, self.users[i].money));
            i = i + 1;
        }
        assert(lobby_players@ =~= seats_and_money(self.users@));
        match make_game(lobby_players) {
            None => {},
            Some(g) => {
                assert(g.current_phase == 0 && g.players@.len() == self.users@.len());
                let ghost out0 = out@;
                let ghost from = out0.len() as int;
                let ghost users0 = self.users@;
                let mut i: usize = 0;
                while i < g.players.len()
                    invariant
                        0 <= i <= g.players.len(),
                        g.players.len() == self.users.len(),
                        self.users@ == users0,
                        out@.len() == from + i,
                        out@.subrange(0, from) == out0,
                        forall|j: int|
                            0 <= j < i ==> (#[trigger] out@[from + j]).to == Recipient::Connection(
                                users0[j].connection,
                            ) && out@[from + j].message@ == ClientBoundModel::GameStarted(
                                g.players@[j].private_cards@,
                            ),
                    decreases g.players.len() - i,
                {
                    let ghost before = out@;
                    send_to(out, self.users[i].connection, ClientBound::GameStarted(g.players[i].private_cards));
                    assert(out@.subrange(0, from) =~= before.subrange(0, from));
                    assert forall|j: int| 0 <= j < i + 1 implies (#[trigger] out@[from + j]).to
                        == Recipient::Connection(users0[j].connection) && out@[from + j].message@
                        == ClientBoundModel::GameStarted(g.players@[j].private_cards@) by {
                        if j < i {
                            assert(out@[from + j] == before[from + j]);
                        }
                    }
                    i = i + 1;
                }
                let ghost seats_sent = out@;
                broadcast(out, ClientBound::GameEvent(GameEvent::OwnedMoneyChange(1, g.players[1].money)));
                broadcast(out, ClientBound::GameEvent(GameEvent::OwnedMoneyChange(2, g.players[2].money)));
                broadcast(out, ClientBound::GameEvent(GameEvent::NextPlayer(g.current_turn)));
                let ghost before_list = out@;
                assert(before_list.subrange(0, seats_sent.len() as int) =~= seats_sent);
                assert(seats_sent.len() == from + users0.len());
                assert(before_list.len() == seats_sent.len() + 3);
                self.game = Some(g);
                self.send_player_list_update(out, None);
                let ghost n = self.users@.len() as int;
                assert forall|j: int| 0 <= j < before_list.len() implies out@[j] == before_list[j] by {
                    assert(out@.subrange(0, before_list.len() as int)[j] == before_list[j]);
                }
                assert(out@[from + n] == before_list[from + n]);
                assert(out@[from + n + 1] == before_list[from + n + 1]);
                assert(out@[from + n + 2] == before_list[from + n + 2]);
                assert forall|j: int| 0 <= j < n implies #[trigger] out@[from + j] == seats_sent[from + j] by {
                    assert(before_list.subrange(0, seats_sent.len() as int)[from + j] == seats_sent[from + j]);
                }
                assert(out@.subrange(0, from) =~= out0) by {
                    assert forall|j: int| 0 <= j < from implies out@[j] == out0[j] by {
                        assert(before_list.subrange(0, seats_sent.len() as int)[j] == seats_sent[j]);
                        assert(seats_sent.subrange(0, from)[j] == seats_sent[j]);
                    }
                }
            },
        }
    }

    /// Announces the events of the hand `game` and, at showdown, settles it.
    #[verifier::loop_isolation(false)]
    #[verifier::rlimit(80)]
    fn settle(&mut self, game: Game, events: Vec<Event>, out: &mut Vec<Outgoing>)
        requires
            old(self).game is None,
            old(self).users.len() <= MAX_USERS,
            game.wf(),
            game.players@.len() <= old(self).users.len(),
        ensures
            final(self).wf(),
            final(self).default_money == old(self).default_money,
            final(out)@.subrange(0, old(out)@.len() as int) == old(out)@,
            settled(
                old(self).users@,
                game,
                events@,
                final(self).users@,
                final(self).game,
                old(out)@,
                final(out)@,
            ),
    {
        let ghost users0 = self.users@;
        let ghost out0 = out@;
        let ghost g1 = game;
        let ghost ev = events@;
        let mut game = game;
        let mut events = events;
        assert(events@.subrange(0, ev.len() as int) =~= ev);
        assert(out@.subrange(0, out0.len() as int) =~= out0);
        while events.len() > 0
            invariant
                self.game is None,
                self.users == old(self).users,
                self.default_money == old(self).default_money,
                events.len() <= ev.len(),
                events@ == ev.subrange(ev.len() - events.len(), ev.len() as int),
                out@.len() == out0.len() + (ev.len() - events.len()),
                out@.subrange(0, out0.len() as int) == out0,
                forall|k: int|
                    0 <= k < ev.len() - events.len() ==> (#[trigger] out@[out0.len() + k]).to
                        == Recipient::Everyone && out@[out0.len() + k].message@ == event_messages(
                        ev,
                    )[k],
            decreases events.len(),
        {
            let ghost done = ev.len() - events.len();
            let e = events.remove(0);
            assert(e == ev[done]);
            let ghost before = out@;
            broadcast(out, ClientBound::GameEvent(GameEvent::from_event(e)));
            assert(events@ =~= ev.subrange(ev.len() - events.len(), ev.len() as int));
            assert(out@.subrange(0, out0.len() as int) =~= before.subrange(0, out0.len() as int));
            assert forall|k: int| 0 <= k < ev.len() - events.len() implies (#[trigger] out@[out0.len()
                + k]).to == Recipient::Everyone && out@[out0.len() + k].message@ == event_messages(
                ev,
            )[k] by {
                if k < done {
                    assert(out@[out0.len() + k] == before[out0.len() + k]);
                }
            }
        }
        assert(sent_to_everyone(out@, out0.len() as int, event_messages(ev)));
        let ghost after_events = out@;
        let ghost at = out@.len() as int;
        if game.current_phase < 4 {
            self.game = Some(game);
            return;
        }
        let steps = game.evaluate_showdown();
        let ghost g2 = game;
        let ghost sv = steps@;
        let mut steps = steps;
        assert(steps@.subrange(0, sv.len() as int) =~= sv);
        assert(out@.subrange(0, at) =~= after_events);
        while steps.len() > 0
            invariant
                self.game is None,
                self.users == old(self).users,
                self.default_money == old(self).default_money,
                steps.len() <= sv.len(),
                steps@ == sv.subrange(sv.len() - steps.len(), sv.len() as int),
                out@.len() == at + (sv.len() - steps.len()),
                out@.subrange(0, at) == after_events,
                forall|k: int|
                    0 <= k < sv.len() - steps.len() ==> (#[trigger] out@[at + k]).to
                        == Recipient::Everyone && out@[at + k].message@ == ClientBoundModel::GameEvent(
                        GameEventModel::ShowdownSteps(seq![sv[k]@]),
                    ),
            decreases steps.len(),
        {
            let ghost done = sv.len() - steps.len();
            let st = steps.remove(0);
            assert(st == sv[done]);
            let mut one: Vec<ShowdownStep> = Vec::new();
            one.push(st);
            assert(steps_view(one@) =~= seq![sv[done]@]);
            let ghost before = out@;
            broadcast(out, ClientBound::GameEvent(GameEvent::ShowdownSteps(one)));
            assert(steps@ =~= sv.subrange(sv.len() - steps.len(), sv.len() as int));
            assert(out@.subrange(0, at) =~= before.subrange(0, at));
            assert forall|k: int| 0 <= k < sv.len() - steps.len() implies (#[trigger] out@[at + k]).to
                == Recipient::Everyone && out@[at + k].message@ == ClientBoundModel::GameEvent(
                GameEventModel::ShowdownSteps(seq![sv[k]@]),
            ) by {
                if k < done {
                    assert(out@[at + k] == before[at + k]);
                }
            }
        }
        let ghost after_steps = out@;
        let mut i: usize = 0;
        while i < game.players.len()
            invariant
                0 <= i <= game.players.len() <= self.users.len() <= MAX_USERS,
                game.players@.len() == g2.players@.len(),
                game == g2,
                self.users.len() == old(self).users.len(),
                self.game is None,
                self.default_money == old(self).default_money,
                forall|j: int| 0 <= j < i ==> #[trigger] self.users@[j] == paid_users(users0, g2)[j],
                forall|j: int| i <= j < self.users.len() ==> #[trigger] self.users@[j] == users0[j],
            decreases game.players.len() - i,
        {
            let u = self.users.remove(i);
            let v = User { money: game.players[i].money, ..u };
            self.users.insert(i, v);
            i = i + 1;
        }
        assert(self.users@ =~= paid_users(users0, g2));
        let ghost paid = self.users@;
        let mut kept: Vec<User> = Vec::new();
        assert(paid.subrange(0, 0) =~= Seq::<User>::empty());
        assert(self.users@ =~= paid.subrange(0, paid.len() as int));
        while self.users.len() > 0
            invariant
                self.game is None,
                self.default_money == old(self).default_money,
                paid.len() <= MAX_USERS,
                self.users.len() <= paid.len(),
                self.users@ == paid.subrange(paid.len() - self.users.len(), paid.len() as int),
                kept@ == remove_leaving(paid.subrange(0, paid.len() - self.users.len())),
                kept.len() <= paid.len() - self.users.len(),
            decreases self.users.len(),
        {
            let ghost d = paid.len() - self.users.len();
            let u = self.users.remove(0);
            assert(u == paid[d]);
            assert(paid.subrange(0, d + 1).drop_last() =~= paid.subrange(0, d));
            if !u.leaving {
                kept.push(u);
            }
            assert(self.users@ =~= paid.subrange(paid.len() - self.users.len(), paid.len() as int));
        }
        assert(paid.subrange(0, paid.len() as int) =~= paid);
        self.users = kept;
        self.send_player_list_update(out, None);
        assert(out@.subrange(0, after_steps.len() as int) == after_steps);
        assert forall|k: int| 0 <= k < sv.len() implies (#[trigger] out@[at + k]) == after_steps[at + k] by {
            assert(out@.subrange(0, after_steps.len() as int)[at + k] == after_steps[at + k]);
        }
        assert(out@.subrange(0, at) =~= after_events) by {
            assert forall|k: int| 0 <= k < at implies out@[k] == after_events[k] by {
                assert(out@.subrange(0, after_steps.len() as int)[k] == after_steps[k]);
                assert(after_steps.subrange(0, at)[k] == after_events[k]);
            }
        }
        assert(out@.subrange(0, out0.len() as int) =~= out0) by {
            assert forall|k: int| 0 <= k < out0.len() implies out@[k] == out0[k] by {
                assert(out@.subrange(0, at)[k] == after_events[k]);
                assert(after_events.subrange(0, out0.len() as int)[k] == after_events[k]);
            }
        }
        assert forall|k: int| 0 <= k < ev.len() implies (#[trigger] out@[out0.len() + k]) == after_events[out0.len() + k] by {
            assert(out@.subrange(0, at)[out0.len() + k] == after_events[out0.len() + k]);
        }
        assert(showdown_post(g1, g2, sv));
    }

    /// Applies the acting player's action to the hand and sends what
    /// happened, as `lobby_advanced` says.
    fn advance_game(&mut self, action: PlayerAction, out: &mut Vec<Outgoing>)
        requires
            old(self).wf(),
            old(self).game is Some,
        ensures
            final(self).wf(),
            final(self).default_money == old(self).default_money,
            final(out)@.subrange(0, old(out)@.len() as int) == old(out)@,
            lobby_advanced(
                old(self).users@,
                old(self).game->0,
                action,
                final(self).users@,
                final(self).game,
                old(out)@,
                final(out)@,
            ),
    {
        let ghost g = self.game->0;
        let mut game = self.game.take().unwrap();
        match game.advance_game(action) {
            None => {
                self.game = Some(game);
                assert(out@.subrange(0, out@.len() as int) =~= out@);
            },
            Some(events) => {
                let ghost g1 = game;
                let ghost ev = events@;
                self.settle(game, events, out);
                assert(advance_post(g, action, g1, ev));
            },
        }
    }

    /// Handles one command from connection `client` and gives the messages to send.
    /// Rule violations and commands that do not apply change nothing.
    #[verifier::loop_isolation(false)]
    pub fn handle_message(&mut self, client: u64, command: ServerBound) -> (out: Vec<Outgoing>)
        requires
            old(self).wf(),
        ensures
            final(self).wf(),
            final(self).default_money == old(self).default_money,
            ({
                let s = seat_of(old(self).users@, client);
                let users0 = old(self).users@;
                let game0 = old(self).game;
                let users = final(self).users@;
                let game = final(self).game;
                match command {
                    ServerBound::Login(name) => {
                        &&& game == game0
                        &&& s < 0 && may_join(users0, name@) ==> users == users0.push(
                            User {
                                connection: client,
                                username: name,
                                money: old(self).default_money,
                                ready: false,
                                leaving: false,
                            },
                        ) && list_update_sent(out@, 0, users, game, None)
                        &&& !(s < 0 && may_join(users0, name@)) ==> users == users0 && out@.len()
                            == 0
                    },
                    ServerBound::Ready(b) => {
                        let users1 = users0.update(s, User { ready: b, ..users0[s] });
                        let n = users1.len() as int;
                        &&& s < 0 ==> users == users0 && game == game0 && out@.len() == 0
                        &&& s >= 0 ==> {
                            &&& users == users1
                            &&& starts_if_ready(game0, game, users1)
                            &&& list_update_sent(out@.subrange(0, 1 + n), 0, users1, game0, None)
                            &&& game0 is None && game is Some ==> start_sent(out@, 1 + n, users1, game->0)
                            &&& !(game0 is None && game is Some) ==> out@.len() == 1 + n
                        }
                    },
                    ServerBound::Disconnect => {
                        let g = game0->0;
                        let marked = users0.update(s, User { leaving: true, ..users0[s] });
                        let rest = users0.remove(s);
                        let m = rest.len() as int;
                        let left = ClientBoundModel::PlayerLeft(users0[s].username@);
                        &&& s < 0 ==> users == users0 && game == game0 && out@.len() == 0
                        &&& s >= 0 && game0 is None ==> {
                            &&& users == rest
                            &&& starts_if_ready(game0, game, rest)
                            &&& out@.len() >= 1
                            &&& out@[0].to == Recipient::Everyone && out@[0].message@ == left
                            &&& list_update_sent(out@.subrange(0, 2 + m), 1, rest, None, None)
                            &&& game is Some ==> start_sent(out@, 2 + m, rest, game->0)
                            &&& game is None ==> out@.len() == 2 + m
                        }
                        &&& s >= 0 && game0 is Some && users0[s].leaving ==> users == users0 && game
                            == game0 && out@.len() == 0
                        &&& s >= 0 && game0 is Some && !users0[s].leaving ==> {
                            &&& out@.len() >= 1
                            &&& out@[0].to == Recipient::Everyone && out@[0].message@ == left
                            &&& s < g.players@.len() ==> out@.len() >= 2 && out@[1].to
                                == Recipient::Everyone && out@[1].message@ == ClientBoundModel::GameEvent(
                                GameEventModel::InGamePlayerLeave(s as u8),
                            )
                            &&& s < g.players@.len() && g.current_turn == s ==> lobby_advanced(
                                marked,
                                g,
                                PlayerAction::Fold,
                                users,
                                game,
                                out@.subrange(0, 2),
                                out@,
                            )
                            &&& s < g.players@.len() && g.current_turn != s ==> exists|
                                g1: Game,
                                events: Seq<Event>,
                            |
                                #![trigger fold_post(g, s, g1, events)]
                                fold_post(g, s, g1, events) && settled(
                                    marked,
                                    g1,
                                    events,
                                    users,
                                    game,
                                    out@.subrange(0, 2),
                                    out@,
                                )
                            &&& s >= g.players@.len() ==> users == marked && game == game0
                                && out@.len() == 1
                        }
                    },
                    ServerBound::GetPlayerList => {
                        &&& users == users0
                        &&& game == game0
                        &&& out@.len() >= 1
                        &&& out@[0].to == Recipient::Connection(client)
                        &&& out@[0].message@ == ClientBoundModel::UpdatePlayerList(
                            user_list(users0, game0),
                        )
                    },
                    ServerBound::GameAction(a) => {
                        &&& (s < 0 || game0 is None || game0->0.current_turn != s) ==> users
                            == users0 && game == game0 && out@.len() == 0
                        &&& s >= 0 && game0 is Some && game0->0.current_turn == s ==> lobby_advanced(
                            users0,
                            game0->0,
                            game_action(a),
                            users,
                            game,
                            Seq::empty(),
                            out@,
                        )
                    },
                }
            }),
    {
        let mut out: Vec<Outgoing> = Vec::new();
        let seat = self.find_id_from_client(client);
        match command {
            ServerBound::GetPlayerList => {
                self.send_player_list_update(&mut out, Some(client));
            },
            ServerBound::Login(name) => {
                if seat.is_none() && self.users.len() < MAX_USERS {
                    let bytes = name_bytes(&name);
                    if acceptable(bytes) {
                        let mut i: usize = 0;
                        while i < self.users.len()
                            invariant
                                0 <= i <= self.users.len(),
                                bytes@ == encode_utf8(name@),
                                forall|j: int|
                                    0 <= j < i ==> !same_name(
                                        encode_utf8(#[trigger] self.users@[j].username@),
                                        encode_utf8(name@),
                                    ),
                            decreases self.users.len() - i,
                        {
                            if names_match(name_bytes(&self.users[i].username), bytes) {
                                return out;
                            }
                            i = i + 1;
                        }
                        self.users.push(
                            User {
                                connection: client,
                                username: name,
                                money: self.default_money,
                                ready: false,
                                leaving: false,
                            },
                        );
                        self.send_player_list_update(&mut out, None);
                    }
                }
            },
            ServerBound::Ready(ready) => {
                if let Some(s) = seat {
                    let s = s as usize;
                    let u = self.users.remove(s);
                    self.users.insert(s, User { ready, ..u });
                    assert(self.users@ =~= old(self).users@.update(
                        s as int,
                        User { ready, ..old(self).users@[s as int] },
                    ));
                    self.send_player_list_update(&mut out, None);
                    self.check_for_game_start(&mut out);
                }
            },
            ServerBound::Disconnect => {
                if let Some(s) = seat {
                    let s = s as usize;
                    match self.game.take() {
                        None => {
                            broadcast(&mut out, ClientBound::PlayerLeft(self.users[s].username.clone()));
                            let ghost first = out@;
                            self.users.remove(s);
                            self.send_player_list_update(&mut out, None);
                            assert(out@[0] == first[0]) by {
                                assert(out@.subrange(0, 1)[0] == first[0]);
                            }
                            let ghost after_list = out@;
                            self.check_for_game_start(&mut out);
                            assert(out@[0] == after_list[0]) by {
                                if out@ != after_list {
                                    assert(out@.subrange(0, after_list.len() as int)[0] == after_list[0]);
                                }
                            }
                        },
                        Some(mut g) => {
                            if self.users[s].leaving {
                                self.game = Some(g);
                            } else {
                                broadcast(&mut out, ClientBound::PlayerLeft(self.users[s].username.clone()));
                                let u = self.users.remove(s);
                                self.users.insert(s, User { leaving: true, ..u });
                                assert(self.users@ =~= old(self).users@.update(
                                    s as int,
                                    User { leaving: true, ..old(self).users@[s as int] },
                                ));
                                if s < g.players.len() {
                                    broadcast(
                                        &mut out,
                                        ClientBound::GameEvent(GameEvent::InGamePlayerLeave(s as u8)),
                                    );
                                    if g.current_turn as usize == s {
                                        assert(out@.len() == 2);
                                        let ghost before = out@;
                                        self.game = Some(g);
                                        self.advance_game(PlayerAction::Fold, &mut out);
                                        assert(out@.subrange(0, 2) == before);
                                        assert(out@[0] == before[0] && out@[1] == before[1]) by {
                                            assert(out@.subrange(0, 2)[0] == out@[0]);
                                            assert(out@.subrange(0, 2)[1] == out@[1]);
                                        }
                                    } else {
                                        let ghost g0 = g;
                                        let ghost before = out@;
                                        let events = g.fold_out(s);
                                        let ghost g1 = g;
                                        let ghost ev = events@;
                                        self.settle(g, events, &mut out);
                                        assert(fold_post(g0, s as int, g1, ev));
                                        assert(out@[0] == before[0] && out@[1] == before[1]) by {
                                            assert(out@.subrange(0, 2)[0] == out@[0]);
                                            assert(out@.subrange(0, 2)[1] == out@[1]);
                                        }
                                    }
                                } else {
                                    self.game = Some(g);
                                }
                            }
                        },
                    }
                }
            },
            ServerBound::GameAction(action) => {
                if let Some(s) = seat {
                    match &self.game {
                        Some(g) => {
                            if g.current_turn == s {
                                self.advance_game(action.to_player_action(), &mut out);
                            }
                        },
                        None => {},
                    }
                }
            },
        }
        out
    }
}

proof fn lemma_seat_of_prefix(users: Seq<User>, client: u64, k: int)
    requires
        0 < k <= users.len(),
        users[k - 1].connection == client,
        seat_of(users.subrange(0, k - 1), client) < 0,
    ensures
        seat_of(users, client) == k - 1,
    decreases users.len(),
{
    if users.len() == k {
        assert(users.drop_last() =~= users.subrange(0, k - 1));
    } else {
        assert(users.drop_last().subrange(0, k - 1) =~= users.subrange(0, k - 1));
        lemma_seat_of_prefix(users.drop_last(), client, k);
    }
}

} // verus!
