//! The wire protocol: each message is a two-byte tag, fixed-width fields,
//! then variable-length fields. Integers are 4-byte little-endian, a card
//! is `suit << 4 | rank`, lists end with the byte 255, and a username is the
//! undelimited tail of its message.
use crate::cards::{
    card_of_byte, category_index, category_of_byte, lemma_card_byte, Card, HandCategory,
    HandRank, HandRankModel, ShowdownDecidingFactor,
};
use crate::events::{
    ClientBound, ClientBoundModel, GameEvent, GameEventModel, GamePlayerAction, PlayerState,
    ServerBound, ServerBoundModel,
};
use crate::game::{Pot, PotModel, ShowdownHand, ShowdownStep, StepModel};
use vstd::prelude::*;
use vstd::utf8::{decode_utf8, encode_utf8, is_ascii_chars, valid_utf8};

verus! {

broadcast use {vstd::utf8::encode_utf8_decode_utf8, vstd::utf8::encode_utf8_valid_utf8};

// ---------------------------------------------------------------------
// Fields.
// ---------------------------------------------------------------------

pub open spec fn le_bytes(m: u32) -> Seq<u8> {
    seq![(m & 0xff) as u8, ((m >> 8u32) & 0xff) as u8, ((m >> 16u32) & 0xff) as u8, (m >> 24u32) as u8]
}

pub open spec fn le_value(b0: u8, b1: u8, b2: u8, b3: u8) -> u32 {
    (b0 as u32) | ((b1 as u32) << 8u32) | ((b2 as u32) << 16u32) | ((b3 as u32) << 24u32)
}

/// The integer in the four bytes of `m` from `i`.
pub open spec fn le_at(m: Seq<u8>, i: int) -> u32 {
    le_value(m[i], m[i + 1], m[i + 2], m[i + 3])
}

pub proof fn lemma_le_round_trip(m: u32)
    ensures
        le_value(le_bytes(m)[0], le_bytes(m)[1], le_bytes(m)[2], le_bytes(m)[3]) == m,
{
    assert((((m & 0xff) as u8) as u32) | (((((m >> 8u32) & 0xff) as u8) as u32) << 8u32) | (((((m
        >> 16u32) & 0xff) as u8) as u32) << 16u32) | ((((m >> 24u32) as u8) as u32) << 24u32) == m)
        by (bit_vector);
}

/// Appends `money` as four little-endian bytes.
fn append_money(msg: &mut Vec<u8>, money: u32)
    ensures
        final(msg)@ == old(msg)@ + le_bytes(money),
{
    msg.push((money & 0xff) as u8);
    msg.push(((money >> 8) & 0xff) as u8);
    msg.push(((money >> 16) & 0xff) as u8);
    msg.push((money >> 24) as u8);
    assert(final(msg)@ =~= old(msg)@ + le_bytes(money));
}

/// Reads four little-endian bytes from `idx`.
fn get_money_from_bytes(msg: &Vec<u8>, idx: usize) -> (r: u32)
    requires
        idx + 4 <= msg.len(),
    ensures
        r == le_at(msg@, idx as int),
{
    (msg[idx] as u32) | ((msg[idx + 1] as u32) << 8) | ((msg[idx + 2] as u32) << 16) | ((msg[idx
        + 3] as u32) << 24)
}

/// Appends the UTF-8 bytes of `username`.
fn append_username(msg: &mut Vec<u8>, username: &String)
    ensures
        final(msg)@ == old(msg)@ + encode_utf8(username@),
{
    let bytes = username.as_str().as_bytes();
    let ghost start = msg@;
    let mut i: usize = 0;
    while i < bytes.len()
        invariant
            0 <= i <= bytes.len(),
            bytes@ == encode_utf8(username@),
            msg@ == start + bytes@.subrange(0, i as int),
        decreases bytes.len() - i,
    {
        msg.push(bytes[i]);
        i = i + 1;
        assert(msg@ =~= start + bytes@.subrange(0, i as int));
    }
    assert(bytes@.subrange(0, bytes.len() as int) =~= bytes@);
}

/// Relies on std's `String::from_utf8`: it accepts exactly the byte strings
/// that are valid UTF-8, and then holds the characters they encode.
#[verifier::external_body]
pub(crate) fn string_from_utf8(bytes: Vec<u8>) -> (r: Option<String>)
    ensures
        r is Some <==> valid_utf8(bytes@),
        r is Some ==> r->0@ == decode_utf8(bytes@),
{
    String::from_utf8(bytes).ok()
}

fn bytes_between(msg: &Vec<u8>, from: usize, to: usize) -> (r: Vec<u8>)
    requires
        from <= to <= msg.len(),
    ensures
        r@ == msg@.subrange(from as int, to as int),
{
    let mut r: Vec<u8> = Vec::new();
    let mut i: usize = from;
    while i < to
        invariant
            from <= i <= to <= msg.len(),
            r@ == msg@.subrange(from as int, i as int),
        decreases to - i,
    {
        r.push(msg[i]);
        i = i + 1;
        assert(r@ =~= msg@.subrange(from as int, i as int));
    }
    r
}

/// A username: not empty, ASCII.
pub open spec fn name_ok(s: Seq<char>) -> bool {
    s.len() > 0 && is_ascii_chars(s)
}

proof fn lemma_ascii_bytes(s: Seq<char>)
    requires
        is_ascii_chars(s),
    ensures
        encode_utf8(s).len() == s.len(),
        forall|i: int| 0 <= i < s.len() ==> #[trigger] encode_utf8(s)[i] < 128,
{
    vstd::utf8::is_ascii_chars_encode_utf8(s);
    assert forall|i: int| 0 <= i < s.len() implies #[trigger] encode_utf8(s)[i] < 128 by {
        assert('\0' <= s[i] <= '\u{7f}');
        assert(s[i] as u8 == encode_utf8(s)[i]);
    }
}

// ---------------------------------------------------------------------
// Client to server.
// ---------------------------------------------------------------------

pub open spec fn server_bound_bytes(x: ServerBoundModel) -> Seq<u8> {
    match x {
        ServerBoundModel::Login(name) => seq![0u8, 0u8] + encode_utf8(name),
        ServerBoundModel::Disconnect => seq![0u8, 2u8],
        ServerBoundModel::Ready(b) => seq![0u8, 3u8, if b { 1u8 } else { 0u8 }],
        ServerBoundModel::GetPlayerList => seq![0u8, 4u8],
        ServerBoundModel::GameAction(a) => match a {
            GamePlayerAction::Check => seq![1u8, 0u8],
            GamePlayerAction::AddMoney(m) => seq![1u8, 1u8] + le_bytes(m),
            GamePlayerAction::Fold => seq![1u8, 2u8],
        },
    }
}

/// What a client-to-server message decodes to.
pub open spec fn parse_server_bound(m: Seq<u8>) -> Option<ServerBoundModel> {
    if m.len() < 2 {
        None
    } else if m[0] == 0 && m[1] == 0 {
        let tail = m.subrange(2, m.len() as int);
        if m.len() < 3 || !valid_utf8(tail) {
            None
        } else {
            Some(ServerBoundModel::Login(decode_utf8(tail)))
        }
    } else if m[0] == 0 && m[1] == 2 {
        Some(ServerBoundModel::Disconnect)
    } else if m[0] == 0 && m[1] == 3 {
        if m.len() < 3 {
            None
        } else {
            Some(ServerBoundModel::Ready(m[2] != 0))
        }
    } else if m[0] == 0 && m[1] == 4 {
        Some(ServerBoundModel::GetPlayerList)
    } else if m[0] == 1 && m[1] == 0 {
        Some(ServerBoundModel::GameAction(GamePlayerAction::Check))
    } else if m[0] == 1 && m[1] == 1 {
        if m.len() < 6 {
            None
        } else {
            Some(ServerBoundModel::GameAction(GamePlayerAction::AddMoney(le_at(m, 2))))
        }
    } else if m[0] == 1 && m[1] == 2 {
        Some(ServerBoundModel::GameAction(GamePlayerAction::Fold))
    } else {
        None
    }
}

pub open spec fn server_bound_ok(x: ServerBoundModel) -> bool {
    match x {
        ServerBoundModel::Login(name) => name_ok(name),
        _ => true,
    }
}

pub fn encode_server_bound(event: ServerBound) -> (r: Vec<u8>)
    ensures
        r@ == server_bound_bytes(event@),
{
    match event {
        ServerBound::Login(username) => {
            let mut msg = vec![0u8, 0u8];
            append_username(&mut msg, &username);
            msg
        },
        ServerBound::Disconnect => vec![0u8, 2u8],
        ServerBound::Ready(ready) => vec![0u8, 3u8, if ready { 1u8 } else { 0u8 }],
        ServerBound::GetPlayerList => vec![0u8, 4u8],
        ServerBound::GameAction(action) => match action {
            GamePlayerAction::Check => vec![1u8, 0u8],
            GamePlayerAction::AddMoney(money) => {
                let mut msg = vec![1u8, 1u8];
                append_money(&mut msg, money);
                msg
            },
            GamePlayerAction::Fold => vec![1u8, 2u8],
        },
    }
}

pub open spec fn server_view(r: Option<ServerBound>) -> Option<ServerBoundModel> {
    match r {
        Some(x) => Some(x@),
        None => None,
    }
}

/// Decodes a client-to-server message; `None` on a short message, an
/// unknown tag or a username that is not UTF-8.
pub fn decode_server_bound(msg: &Vec<u8>) -> (r: Option<ServerBound>)
    ensures
        server_view(r) == parse_server_bound(msg@),
{
    if msg.len() < 2 {
        return None;
    }
    let (a, b) = (msg[0], msg[1]);
    if a == 0 && b == 0 {
        if msg.len() < 3 {
            return None;
        }
        let tail = bytes_between(msg, 2, msg.len());
        match string_from_utf8(tail) {
            Some(name) => Some(ServerBound::Login(name)),
            None => None,
        }
    } else if a == 0 && b == 2 {
        Some(ServerBound::Disconnect)
    } else if a == 0 && b == 3 {
        if msg.len() < 3 {
            return None;
        }
        Some(ServerBound::Ready(msg[2] != 0))
    } else if a == 0 && b == 4 {
        Some(ServerBound::GetPlayerList)
    } else if a == 1 && b == 0 {
        Some(ServerBound::GameAction(GamePlayerAction::Check))
    } else if a == 1 && b == 1 {
        if msg.len() < 6 {
            return None;
        }
        Some(ServerBound::GameAction(GamePlayerAction::AddMoney(get_money_from_bytes(msg, 2))))
    } else if a == 1 && b == 2 {
        Some(ServerBound::GameAction(GamePlayerAction::Fold))
    } else {
        None
    }
}

/// Every client-to-server message decodes back to itself.
pub proof fn lemma_server_bound_round_trip(x: ServerBoundModel)
    requires
        server_bound_ok(x),
    ensures
        parse_server_bound(server_bound_bytes(x)) == Some(x),
{
    let m = server_bound_bytes(x);
    match x {
        ServerBoundModel::Login(name) => {
            lemma_ascii_bytes(name);
            assert(m.subrange(2, m.len() as int) =~= encode_utf8(name));
        },
        ServerBoundModel::GameAction(GamePlayerAction::AddMoney(v)) => {
            lemma_le_round_trip(v);
        },
        _ => {},
    }
}

// ---------------------------------------------------------------------
// Server to client: encoding.
// ---------------------------------------------------------------------

pub open spec fn cards_bytes(cs: Seq<Card>) -> Seq<u8> {
    Seq::new(cs.len(), |i: int| cs[i].spec_byte())
}

pub open spec fn option_card_byte(c: Option<Card>) -> u8 {
    match c {
        Some(c) => c.spec_byte(),
        None => 255,
    }
}

pub open spec fn player_entry_bytes(e: (PlayerState, u32, Seq<char>)) -> Seq<u8> {
    seq![crate::events::player_state_index(e.0)] + le_bytes(e.1) + encode_utf8(e.2) + seq![255u8]
}

pub open spec fn pot_bytes(p: PotModel) -> Seq<u8> {
    le_bytes(p.money) + p.eligible_players.push(255)
}

/// Kickers take five slots; the unused ones hold 255.
pub open spec fn kicker_slots(k: Seq<Card>) -> Seq<u8> {
    let m = if k.len() < 5 {
        k.len() as int
    } else {
        5
    };
    cards_bytes(k.subrange(0, m)) + Seq::new((5 - m) as nat, |i: int| 255u8)
}

pub open spec fn hand_bytes(h: crate::events::ShowdownHandModel) -> Seq<u8> {
    seq![h.player] + cards_bytes(h.private_cards) + cards_bytes(h.best_cards) + seq![
        category_index(h.rank.category),
        option_card_byte(h.rank.primary),
        option_card_byte(h.rank.secondary),
    ] + kicker_slots(h.rank.kickers)
}

pub open spec fn factor_bytes(f: ShowdownDecidingFactor) -> Seq<u8> {
    match f {
        ShowdownDecidingFactor::Category => seq![0u8, 255u8, 255u8],
        ShowdownDecidingFactor::Primary(a, b) => seq![1u8, a.spec_byte(), b.spec_byte()],
        ShowdownDecidingFactor::Secondary(a, b) => seq![2u8, a.spec_byte(), b.spec_byte()],
        ShowdownDecidingFactor::Kicker(a, b) => seq![3u8, a.spec_byte(), b.spec_byte()],
        ShowdownDecidingFactor::Tie => seq![255u8, 255u8, 255u8],
    }
}

pub open spec fn step_bytes(s: StepModel) -> Seq<u8> {
    s.winners.push(255) + le_bytes(s.winnings) + seq![s.pot_start_index, s.pot_end_index]
        + s.eligible_players.push(255) + factor_bytes(s.win_reason)
}

pub open spec fn action_bytes(p: u8, a: GamePlayerAction) -> Seq<u8> {
    match a {
        GamePlayerAction::Check => seq![1u8, 3u8, p, 0u8],
        GamePlayerAction::AddMoney(m) => seq![1u8, 3u8, p, 1u8] + le_bytes(m),
        GamePlayerAction::Fold => seq![1u8, 3u8, p, 2u8],
    }
}

pub open spec fn players_bytes(s: Seq<(PlayerState, u32, Seq<char>)>) -> Seq<u8>
    decreases s.len(),
{
    if s.len() == 0 {
        Seq::empty()
    } else {
        players_bytes(s.drop_last()) + player_entry_bytes(s.last())
    }
}

proof fn lemma_players_bytes_front(s: Seq<(PlayerState, u32, Seq<char>)>)
    requires
        s.len() > 0,
    ensures
        players_bytes(s) == player_entry_bytes(s[0]) + players_bytes(s.drop_first()),
    decreases s.len(),
{
    if s.len() == 1 {
        assert(players_bytes(s.drop_last()) == Seq::<u8>::empty());
        assert(players_bytes(s.drop_first()) == Seq::<u8>::empty());
        assert(players_bytes(s) =~= player_entry_bytes(s[0]) + players_bytes(s.drop_first()));
    } else {
        lemma_players_bytes_front(s.drop_last());
        assert(s.drop_last().drop_first() =~= s.drop_first().drop_last());
        assert(s.drop_first().last() == s.last());
        assert(players_bytes(s) =~= player_entry_bytes(s[0]) + players_bytes(s.drop_first()));
    }
}

pub open spec fn pots_bytes(s: Seq<PotModel>) -> Seq<u8>
    decreases s.len(),
{
    if s.len() == 0 {
        Seq::empty()
    } else {
        pots_bytes(s.drop_last()) + pot_bytes(s.last())
    }
}

proof fn lemma_pots_bytes_front(s: Seq<PotModel>)
    requires
        s.len() > 0,
    ensures
        pots_bytes(s) == pot_bytes(s[0]) + pots_bytes(s.drop_first()),
    decreases s.len(),
{
    if s.len() == 1 {
        assert(pots_bytes(s.drop_last()) == Seq::<u8>::empty());
        assert(pots_bytes(s.drop_first()) == Seq::<u8>::empty());
        assert(pots_bytes(s) =~= pot_bytes(s[0]) + pots_bytes(s.drop_first()));
    } else {
        lemma_pots_bytes_front(s.drop_last());
        assert(s.drop_last().drop_first() =~= s.drop_first().drop_last());
        assert(s.drop_first().last() == s.last());
        assert(pots_bytes(s) =~= pot_bytes(s[0]) + pots_bytes(s.drop_first()));
    }
}

pub open spec fn hands_bytes(s: Seq<crate::events::ShowdownHandModel>) -> Seq<u8>
    decreases s.len(),
{
    if s.len() == 0 {
        Seq::empty()
    } else {
        hands_bytes(s.drop_last()) + hand_bytes(s.last())
    }
}

proof fn lemma_hands_bytes_front(s: Seq<crate::events::ShowdownHandModel>)
    requires
        s.len() > 0,
    ensures
        hands_bytes(s) == hand_bytes(s[0]) + hands_bytes(s.drop_first()),
    decreases s.len(),
{
    if s.len() == 1 {
        assert(hands_bytes(s.drop_last()) == Seq::<u8>::empty());
        assert(hands_bytes(s.drop_first()) == Seq::<u8>::empty());
        assert(hands_bytes(s) =~= hand_bytes(s[0]) + hands_bytes(s.drop_first()));
    } else {
        lemma_hands_bytes_front(s.drop_last());
        assert(s.drop_last().drop_first() =~= s.drop_first().drop_last());
        assert(s.drop_first().last() == s.last());
        assert(hands_bytes(s) =~= hand_bytes(s[0]) + hands_bytes(s.drop_first()));
    }
}

pub open spec fn steps_bytes(s: Seq<StepModel>) -> Seq<u8>
    decreases s.len(),
{
    if s.len() == 0 {
        Seq::empty()
    } else {
        steps_bytes(s.drop_last()) + step_bytes(s.last())
    }
}

proof fn lemma_steps_bytes_front(s: Seq<StepModel>)
    requires
        s.len() > 0,
    ensures
        steps_bytes(s) == step_bytes(s[0]) + steps_bytes(s.drop_first()),
    decreases s.len(),
{
    if s.len() == 1 {
        assert(steps_bytes(s.drop_last()) == Seq::<u8>::empty());
        assert(steps_bytes(s.drop_first()) == Seq::<u8>::empty());
        assert(steps_bytes(s) =~= step_bytes(s[0]) + steps_bytes(s.drop_first()));
    } else {
        lemma_steps_bytes_front(s.drop_last());
        assert(s.drop_last().drop_first() =~= s.drop_first().drop_last());
        assert(s.drop_first().last() == s.last());
        assert(steps_bytes(s) =~= step_bytes(s[0]) + steps_bytes(s.drop_first()));
    }
}

pub open spec fn game_event_bytes(e: GameEventModel) -> Seq<u8> {
    match e {
        GameEventModel::PlayerAction(p, a) => action_bytes(p, a),
        GameEventModel::OwnedMoneyChange(p, m) => seq![0u8, 2u8, p] + le_bytes(m),
        GameEventModel::NextPlayer(p) => seq![1u8, 2u8, p],
        GameEventModel::UpdateCurrentBet(m) => seq![1u8, 5u8] + le_bytes(m),
        GameEventModel::UpdatePots(ps) => seq![1u8, 6u8] + pots_bytes(ps),
        GameEventModel::RevealFlop(cs) => seq![1u8, 8u8] + cards_bytes(cs),
        GameEventModel::RevealTurn(c) => seq![1u8, 9u8, c.spec_byte()],
        GameEventModel::RevealRiver(c) => seq![1u8, 10u8, c.spec_byte()],
        GameEventModel::Showdown(hs) => seq![1u8, 11u8] + hands_bytes(hs),
        GameEventModel::ShowdownSteps(ss) => seq![1u8, 13u8] + steps_bytes(ss),
        GameEventModel::InGamePlayerLeave(p) => seq![1u8, 14u8, p],
    }
}

pub open spec fn client_bound_bytes(x: ClientBoundModel) -> Seq<u8> {
    match x {
        ClientBoundModel::UpdatePlayerList(l) => seq![0u8, 0u8] + players_bytes(l),
        ClientBoundModel::YourIndex(i) => seq![0u8, 4u8, i],
        ClientBoundModel::PlayerLeft(s) => seq![0u8, 5u8] + encode_utf8(s),
        ClientBoundModel::PlayerJoined(s) => seq![0u8, 6u8] + encode_utf8(s),
        ClientBoundModel::GameStarted(cs) => seq![1u8, 0u8] + cards_bytes(cs),
        ClientBoundModel::GameEvent(e) => game_event_bytes(e),
    }
}

fn option_card_to_byte(card: Option<Card>) -> (r: u8)
    ensures
        r == option_card_byte(card),
{
    match card {
        Some(card) => card.to_byte(),
        None => 255u8,
    }
}

fn append_cards(msg: &mut Vec<u8>, cards: &[Card])
    ensures
        final(msg)@ == old(msg)@ + cards_bytes(cards@),
{
    let ghost start = msg@;
    let mut i: usize = 0;
    while i < cards.len()
        invariant
            0 <= i <= cards.len(),
            msg@ == start + cards_bytes(cards@.subrange(0, i as int)),
        decreases cards.len() - i,
    {
        msg.push(cards[i].to_byte());
        i = i + 1;
        assert(msg@ =~= start + cards_bytes(cards@.subrange(0, i as int)));
    }
    assert(cards@.subrange(0, cards.len() as int) =~= cards@);
}

fn append_ids(msg: &mut Vec<u8>, ids: &Vec<u8>)
    ensures
        final(msg)@ == old(msg)@ + ids@.push(255),
{
    let ghost start = msg@;
    let mut i: usize = 0;
    while i < ids.len()
        invariant
            0 <= i <= ids.len(),
            msg@ == start + ids@.subrange(0, i as int),
        decreases ids.len() - i,
    {
        msg.push(ids[i]);
        i = i + 1;
        assert(msg@ =~= start + ids@.subrange(0, i as int));
    }
    msg.push(255);
    assert(msg@ =~= start + ids@.push(255));
}

fn append_hand(msg: &mut Vec<u8>, h: &ShowdownHand)
    ensures
        final(msg)@ == old(msg)@ + hand_bytes(h@),
{
    let ghost start = msg@;
    msg.push(h.player);
    append_cards(msg, &h.private_cards);
    append_cards(msg, &h.best_cards);
    msg.push(h.rank.category.to_byte());
    msg.push(option_card_to_byte(h.rank.primary));
    msg.push(option_card_to_byte(h.rank.secondary));
    let k = &h.rank.kickers;
    let n = if k.len() < 5 {
        k.len()
    } else {
        5
    };
    let ghost mid = msg@;
    let mut i: usize = 0;
    while i < n
        invariant
            0 <= i <= n <= 5,
            n <= k.len(),
            msg@ == mid + cards_bytes(k@.subrange(0, i as int)),
        decreases n - i,
    {
        msg.push(k[i].to_byte());
        i = i + 1;
        assert(msg@ =~= mid + cards_bytes(k@.subrange(0, i as int)));
    }
    let ghost mid2 = msg@;
    let mut j: usize = n;
    while j < 5
        invariant
            n <= j <= 5,
            msg@ == mid2 + Seq::new((j - n) as nat, |i: int| 255u8),
        decreases 5 - j,
    {
        msg.push(255u8);
        j = j + 1;
        assert(msg@ =~= mid2 + Seq::new((j - n) as nat, |i: int| 255u8));
    }
    assert(msg@ =~= start + hand_bytes(h@));
}

fn append_factor(msg: &mut Vec<u8>, f: ShowdownDecidingFactor)
    ensures
        final(msg)@ == old(msg)@ + factor_bytes(f),
{
    let ghost start = msg@;
    match f {
        ShowdownDecidingFactor::Category => {
            msg.push(0u8);
            msg.push(255u8);
            msg.push(255u8);
        },
        ShowdownDecidingFactor::Primary(a, b) => {
            msg.push(1u8);
            msg.push(a.to_byte());
            msg.push(b.to_byte());
        },
        ShowdownDecidingFactor::Secondary(a, b) => {
            msg.push(2u8);
            msg.push(a.to_byte());
            msg.push(b.to_byte());
        },
        ShowdownDecidingFactor::Kicker(a, b) => {
            msg.push(3u8);
            msg.push(a.to_byte());
            msg.push(b.to_byte());
        },
        ShowdownDecidingFactor::Tie => {
            msg.push(255u8);
            msg.push(255u8);
            msg.push(255u8);
        },
    }
    assert(msg@ =~= start + factor_bytes(f));
}

fn append_step(msg: &mut Vec<u8>, s: &ShowdownStep)
    ensures
        final(msg)@ == old(msg)@ + step_bytes(s@),
{
    let ghost start = msg@;
    append_ids(msg, &s.winners);
    append_money(msg, s.winnings);
    msg.push(s.pot_start_index);
    msg.push(s.pot_end_index);
    append_ids(msg, &s.eligible_players);
    append_factor(msg, s.win_reason);
    assert(msg@ =~= start + step_bytes(s@));
}

fn append_pot(msg: &mut Vec<u8>, p: &Pot)
    ensures
        final(msg)@ == old(msg)@ + pot_bytes(p@),
{
    let ghost start = msg@;
    append_money(msg, p.money);
    append_ids(msg, &p.eligible_players);
    assert(msg@ =~= start + pot_bytes(p@));
}

fn encode_game_event(msg: &mut Vec<u8>, event: &GameEvent)
    requires
        old(msg)@.len() == 0,
    ensures
        final(msg)@ == game_event_bytes(event@),
{
    match event {
        GameEvent::PlayerAction(player, action) => {
            msg.push(1u8);
            msg.push(3u8);
            msg.push(*player);
            match action {
                GamePlayerAction::Check => msg.push(0u8),
                GamePlayerAction::AddMoney(money) => {
                    msg.push(1u8);
                    append_money(msg, *money);
                },
                GamePlayerAction::Fold => msg.push(2u8),
            }
        },
        GameEvent::OwnedMoneyChange(player, money) => {
            msg.push(0u8);
            msg.push(2u8);
            msg.push(*player);
            append_money(msg, *money);
        },
        GameEvent::NextPlayer(player) => {
            msg.push(1u8);
            msg.push(2u8);
            msg.push(*player);
        },
        GameEvent::UpdateCurrentBet(money) => {
            msg.push(1u8);
            msg.push(5u8);
            append_money(msg, *money);
        },
        GameEvent::UpdatePots(pots) => {
            msg.push(1u8);
            msg.push(6u8);
            let ghost pv = crate::events::pots_view(pots@);
            let mut i: usize = 0;
            while i < pots.len()
                invariant
                    0 <= i <= pots.len(),
                    pv == crate::events::pots_view(pots@),
                    msg@ == seq![1u8, 6u8] + pots_bytes(pv.subrange(0, i as int)),
                decreases pots.len() - i,
            {
                let ghost before = msg@;
                append_pot(msg, &pots[i]);
                assert(pv[i as int] == pots@[i as int]@);
                let ghost sub = pv.subrange(0, i + 1);
                assert(sub.drop_last() =~= pv.subrange(0, i as int));
                assert(sub.last() == pv[i as int]);
                assert(pots_bytes(sub) == pots_bytes(pv.subrange(0, i as int)) + pot_bytes(pv[i as int]));
                assert(msg@ =~= seq![1u8, 6u8] + pots_bytes(sub));
                i = i + 1;
            }
            assert(pv.subrange(0, pots.len() as int) =~= pv);
        },
        GameEvent::RevealFlop(cards) => {
            msg.push(1u8);
            msg.push(8u8);
            append_cards(msg, cards);
        },
        GameEvent::RevealTurn(card) => {
            msg.push(1u8);
            msg.push(9u8);
            msg.push(card.to_byte());
        },
        GameEvent::RevealRiver(card) => {
            msg.push(1u8);
            msg.push(10u8);
            msg.push(card.to_byte());
        },
        GameEvent::Showdown(hands) => {
            msg.push(1u8);
            msg.push(11u8);
            let ghost hv = crate::events::hands_view(hands@);
            let mut i: usize = 0;
            while i < hands.len()
                invariant
                    0 <= i <= hands.len(),
                    hv == crate::events::hands_view(hands@),
                    msg@ == seq![1u8, 11u8] + hands_bytes(hv.subrange(0, i as int)),
                decreases hands.len() - i,
            {
                let ghost before = msg@;
                append_hand(msg, &hands[i]);
                assert(hv[i as int] == hands@[i as int]@);
                let ghost sub = hv.subrange(0, i + 1);
                assert(sub.drop_last() =~= hv.subrange(0, i as int));
                assert(sub.last() == hv[i as int]);
                assert(hands_bytes(sub) == hands_bytes(hv.subrange(0, i as int)) + hand_bytes(hv[i as int]));
                assert(msg@ =~= seq![1u8, 11u8] + hands_bytes(sub));
                i = i + 1;
            }
            assert(hv.subrange(0, hands.len() as int) =~= hv);
        },
        GameEvent::ShowdownSteps(steps) => {
            msg.push(1u8);
            msg.push(13u8);
            let ghost sv = crate::events::steps_view(steps@);
            let mut i: usize = 0;
            while i < steps.len()
                invariant
                    0 <= i <= steps.len(),
                    sv == crate::events::steps_view(steps@),
                    msg@ == seq![1u8, 13u8] + steps_bytes(sv.subrange(0, i as int)),
                decreases steps.len() - i,
            {
                let ghost before = msg@;
                append_step(msg, &steps[i]);
                assert(sv[i as int] == steps@[i as int]@);
                let ghost sub = sv.subrange(0, i + 1);
                assert(sub.drop_last() =~= sv.subrange(0, i as int));
                assert(sub.last() == sv[i as int]);
                assert(steps_bytes(sub) == steps_bytes(sv.subrange(0, i as int)) + step_bytes(sv[i as int]));
                assert(msg@ =~= seq![1u8, 13u8] + steps_bytes(sub));
                i = i + 1;
            }
            assert(sv.subrange(0, steps.len() as int) =~= sv);
        },
        GameEvent::InGamePlayerLeave(player) => {
            msg.push(1u8);
            msg.push(14u8);
            msg.push(*player);
        },
    }
    assert(msg@ =~= game_event_bytes(event@));
}

pub fn encode_client_bound(event: ClientBound) -> (r: Vec<u8>)
    ensures
        r@ == client_bound_bytes(event@),
{
    let mut msg: Vec<u8> = Vec::new();
    match &event {
        ClientBound::UpdatePlayerList(players) => {
            msg.push(0u8);
            msg.push(0u8);
            let ghost lv = crate::events::player_list_view(players@);
            let mut i: usize = 0;
            while i < players.len()
                invariant
                    0 <= i <= players.len(),
                    lv == crate::events::player_list_view(players@),
                    msg@ == seq![0u8, 0u8] + players_bytes(lv.subrange(0, i as int)),
                decreases players.len() - i,
            {
                let entry = &players[i];
                let ghost before = msg@;
                msg.push(entry.0.to_byte());
                append_money(&mut msg, entry.1);
                append_username(&mut msg, &entry.2);
                msg.push(255u8);
                assert(msg@ =~= before + player_entry_bytes(lv[i as int]));
                let ghost sub = lv.subrange(0, i + 1);
                assert(sub.drop_last() =~= lv.subrange(0, i as int));
                assert(sub.last() == lv[i as int]);
                assert(players_bytes(sub) == players_bytes(lv.subrange(0, i as int)) + player_entry_bytes(lv[i as int]));
                assert(msg@ =~= seq![0u8, 0u8] + players_bytes(sub));
                i = i + 1;
            }
            assert(lv.subrange(0, players.len() as int) =~= lv);
        },
        ClientBound::YourIndex(id) => {
            msg.push(0u8);
            msg.push(4u8);
            msg.push(*id);
        },
        ClientBound::PlayerLeft(username) => {
            msg.push(0u8);
            msg.push(5u8);
            append_username(&mut msg, username);
        },
        ClientBound::PlayerJoined(username) => {
            msg.push(0u8);
            msg.push(6u8);
            append_username(&mut msg, username);
        },
        ClientBound::GameStarted(cards) => {
            msg.push(1u8);
            msg.push(0u8);
            append_cards(&mut msg, cards);
        },
        ClientBound::GameEvent(game_event) => {
            encode_game_event(&mut msg, game_event);
        },
    }
    assert(msg@ =~= client_bound_bytes(event@));
    msg
}

// ---------------------------------------------------------------------
// Server to client: decoding.
// ---------------------------------------------------------------------

/// The index of the first 255 in `m` from `i` on, or the length.
pub open spec fn terminator_from(m: Seq<u8>, i: int) -> int
    decreases m.len() - i,
{
    if i < 0 || i >= m.len() {
        m.len() as int
    } else if m[i] == 255 {
        i
    } else {
        terminator_from(m, i + 1)
    }
}

/// The `k` cards of `m` from `i`; fails on a byte that is no card.
pub open spec fn parse_cards(m: Seq<u8>, i: int, k: int) -> Option<Seq<Card>>
    decreases k,
{
    if k <= 0 {
        Some(Seq::empty())
    } else {
        match parse_cards(m, i, k - 1) {
            None => None,
            Some(cs) => match card_of_byte(m[i + k - 1]) {
                None => None,
                Some(c) => Some(cs.push(c)),
            },
        }
    }
}

/// The kickers in the `k` slots of `m` from `i`: 255 marks an empty slot.
pub open spec fn parse_kickers(m: Seq<u8>, i: int, k: int) -> Option<Seq<Card>>
    decreases k,
{
    if k <= 0 {
        Some(Seq::empty())
    } else {
        match parse_kickers(m, i, k - 1) {
            None => None,
            Some(cs) => if m[i + k - 1] == 255 {
                Some(cs)
            } else {
                match card_of_byte(m[i + k - 1]) {
                    None => None,
                    Some(c) => Some(cs.push(c)),
                }
            },
        }
    }
}

pub open spec fn parse_option_card(b: u8) -> Option<Option<Card>> {
    if b == 255 {
        Some(None)
    } else {
        match card_of_byte(b) {
            Some(c) => Some(Some(c)),
            None => None,
        }
    }
}

/// The hand in the 16 bytes of `m` from `i`.
pub open spec fn parse_hand(m: Seq<u8>, i: int) -> Option<crate::events::ShowdownHandModel> {
    let pc = parse_cards(m, i + 1, 2);
    let bc = parse_cards(m, i + 3, 5);
    let cat = category_of_byte(m[i + 8]);
    let p = parse_option_card(m[i + 9]);
    let s = parse_option_card(m[i + 10]);
    let k = parse_kickers(m, i + 11, 5);
    if pc is Some && bc is Some && cat is Some && p is Some && s is Some && k is Some {
        Some(
            crate::events::ShowdownHandModel {
                player: m[i],
                private_cards: pc->0,
                best_cards: bc->0,
                rank: HandRankModel {
                    category: cat->0,
                    primary: p->0,
                    secondary: s->0,
                    kickers: k->0,
                },
            },
        )
    } else {
        None
    }
}

pub open spec fn parse_hands(m: Seq<u8>, i: int) -> Option<Seq<crate::events::ShowdownHandModel>>
    decreases m.len() - i,
{
    if i >= m.len() {
        Some(Seq::empty())
    } else if i + 16 > m.len() {
        None
    } else {
        match parse_hand(m, i) {
            None => None,
            Some(h) => match parse_hands(m, i + 16) {
                None => None,
                Some(rest) => Some(seq![h] + rest),
            },
        }
    }
}

pub open spec fn parse_pots(m: Seq<u8>, i: int) -> Option<Seq<PotModel>>
    decreases m.len() - i,
{
    if i >= m.len() {
        Some(Seq::empty())
    } else if i + 4 > m.len() {
        None
    } else {
        let t = terminator_from(m, i + 4);
        if t >= m.len() || t < i + 4 {
            None
        } else {
            match parse_pots(m, t + 1) {
                None => None,
                Some(rest) => Some(
                    seq![PotModel { money: le_at(m, i), eligible_players: m.subrange(i + 4, t) }]
                        + rest,
                ),
            }
        }
    }
}

pub open spec fn parse_players(m: Seq<u8>, i: int) -> Option<Seq<(PlayerState, u32, Seq<char>)>>
    decreases m.len() - i,
{
    if i >= m.len() {
        Some(Seq::empty())
    } else if i + 5 > m.len() {
        None
    } else {
        let st = crate::events::player_state_of_byte(m[i]);
        let t = terminator_from(m, i + 5);
        if st is None || t >= m.len() || t < i + 5 || !valid_utf8(m.subrange(i + 5, t)) {
            None
        } else {
            match parse_players(m, t + 1) {
                None => None,
                Some(rest) => Some(
                    seq![(st->0, le_at(m, i + 1), decode_utf8(m.subrange(i + 5, t)))] + rest,
                ),
            }
        }
    }
}

pub open spec fn parse_factor(m: Seq<u8>, k: int) -> Option<ShowdownDecidingFactor> {
    let b = m[k];
    let c1 = card_of_byte(m[k + 1]);
    let c2 = card_of_byte(m[k + 2]);
    if b == 0 {
        Some(ShowdownDecidingFactor::Category)
    } else if b == 255 {
        Some(ShowdownDecidingFactor::Tie)
    } else if (b == 1 || b == 2 || b == 3) && c1 is Some && c2 is Some {
        if b == 1 {
            Some(ShowdownDecidingFactor::Primary(c1->0, c2->0))
        } else if b == 2 {
            Some(ShowdownDecidingFactor::Secondary(c1->0, c2->0))
        } else {
            Some(ShowdownDecidingFactor::Kicker(c1->0, c2->0))
        }
    } else {
        None
    }
}

pub open spec fn parse_steps(m: Seq<u8>, i: int) -> Option<Seq<StepModel>>
    decreases m.len() - i,
{
    if i >= m.len() || i < 0 {
        Some(Seq::empty())
    } else {
        let t1 = terminator_from(m, i);
        let j = t1 + 1;
        let t2 = terminator_from(m, j + 6);
        let k = t2 + 1;
        if t1 >= m.len() || t1 < i || j + 6 > m.len() || t2 >= m.len() || t2 < j + 6 || k + 3
            > m.len() {
            None
        } else {
            match parse_factor(m, k) {
                None => None,
                Some(f) => match parse_steps(m, k + 3) {
                    None => None,
                    Some(rest) => Some(
                        seq![
                            StepModel {
                                winners: m.subrange(i, t1),
                                winnings: le_at(m, j),
                                pot_start_index: m[j + 4],
                                pot_end_index: m[j + 5],
                                eligible_players: m.subrange(j + 6, t2),
                                win_reason: f,
                            },
                        ] + rest,
                    ),
                },
            }
        }
    }
}

pub open spec fn parse_tail_name(m: Seq<u8>) -> Option<Seq<char>> {
    let tail = m.subrange(2, m.len() as int);
    if m.len() < 3 || !valid_utf8(tail) {
        None
    } else {
        Some(decode_utf8(tail))
    }
}

pub open spec fn event(e: GameEventModel) -> Option<ClientBoundModel> {
    Some(ClientBoundModel::GameEvent(e))
}

/// What a server-to-client message decodes to.
pub open spec fn parse_client_bound(m: Seq<u8>) -> Option<ClientBoundModel> {
    if m.len() < 2 {
        None
    } else {
        let (a, b) = (m[0], m[1]);
        if a == 0 && b == 0 {
            match parse_players(m, 2) {
                Some(l) => Some(ClientBoundModel::UpdatePlayerList(l)),
                None => None,
            }
        } else if a == 0 && b == 2 {
            if m.len() < 7 {
                None
            } else {
                event(GameEventModel::OwnedMoneyChange(m[2], le_at(m, 3)))
            }
        } else if a == 0 && b == 4 {
            if m.len() < 3 {
                None
            } else {
                Some(ClientBoundModel::YourIndex(m[2]))
            }
        } else if a == 0 && b == 5 {
            match parse_tail_name(m) {
                Some(s) => Some(ClientBoundModel::PlayerLeft(s)),
                None => None,
            }
        } else if a == 0 && b == 6 {
            match parse_tail_name(m) {
                Some(s) => Some(ClientBoundModel::PlayerJoined(s)),
                None => None,
            }
        } else if a == 1 && b == 0 {
            if m.len() < 4 {
                None
            } else {
                match parse_cards(m, 2, 2) {
                    Some(cs) => Some(ClientBoundModel::GameStarted(cs)),
                    None => None,
                }
            }
        } else if a == 1 && b == 2 {
            if m.len() < 3 {
                None
            } else {
                event(GameEventModel::NextPlayer(m[2]))
            }
        } else if a == 1 && b == 3 {
            if m.len() < 4 {
                None
            } else if m[3] == 0 {
                event(GameEventModel::PlayerAction(m[2], GamePlayerAction::Check))
            } else if m[3] == 1 {
                if m.len() < 8 {
                    None
                } else {
                    event(GameEventModel::PlayerAction(m[2], GamePlayerAction::AddMoney(le_at(m, 4))))
                }
            } else if m[3] == 2 {
                event(GameEventModel::PlayerAction(m[2], GamePlayerAction::Fold))
            } else {
                None
            }
        } else if a == 1 && b == 5 {
            if m.len() < 6 {
                None
            } else {
                event(GameEventModel::UpdateCurrentBet(le_at(m, 2)))
            }
        } else if a == 1 && b == 6 {
            match parse_pots(m, 2) {
                Some(ps) => event(GameEventModel::UpdatePots(ps)),
                None => None,
            }
        } else if a == 1 && b == 8 {
            if m.len() < 5 {
                None
            } else {
                match parse_cards(m, 2, 3) {
                    Some(cs) => event(GameEventModel::RevealFlop(cs)),
                    None => None,
                }
            }
        } else if a == 1 && (b == 9 || b == 10) {
            if m.len() < 3 {
                None
            } else {
                match card_of_byte(m[2]) {
                    Some(c) => if b == 9 {
                        event(GameEventModel::RevealTurn(c))
                    } else {
                        event(GameEventModel::RevealRiver(c))
                    },
                    None => None,
                }
            }
        } else if a == 1 && b == 11 {
            match parse_hands(m, 2) {
                Some(hs) => event(GameEventModel::Showdown(hs)),
                None => None,
            }
        } else if a == 1 && b == 13 {
            match parse_steps(m, 2) {
                Some(ss) => event(GameEventModel::ShowdownSteps(ss)),
                None => None,
            }
        } else if a == 1 && b == 14 {
            if m.len() < 3 {
                None
            } else {
                event(GameEventModel::InGamePlayerLeave(m[2]))
            }
        } else {
            None
        }
    }
}

pub open spec fn prepend<T>(acc: Seq<T>, r: Option<Seq<T>>) -> Option<Seq<T>> {
    match r {
        Some(rest) => Some(acc + rest),
        None => None,
    }
}

proof fn lemma_prepend<T>(acc: Seq<T>, e: T, rest: Option<Seq<T>>)
    ensures
        prepend(acc, prepend(seq![e], rest)) == prepend(acc.push(e), rest),
{
    if rest is Some {
        assert(acc + (seq![e] + rest->0) =~= acc.push(e) + rest->0);
    }
}

pub open spec fn cards_view(r: Option<Vec<Card>>) -> Option<Seq<Card>> {
    match r {
        Some(v) => Some(v@),
        None => None,
    }
}

proof fn lemma_parse_cards_fails(m: Seq<u8>, i: int, j: int, k: int)
    requires
        0 <= j <= k,
        parse_cards(m, i, j) is None,
    ensures
        parse_cards(m, i, k) is None,
    decreases k - j,
{
    if j < k {
        lemma_parse_cards_fails(m, i, j, k - 1);
    }
}

proof fn lemma_parse_kickers_fails(m: Seq<u8>, i: int, j: int, k: int)
    requires
        0 <= j <= k,
        parse_kickers(m, i, j) is None,
    ensures
        parse_kickers(m, i, k) is None,
    decreases k - j,
{
    if j < k {
        lemma_parse_kickers_fails(m, i, j, k - 1);
    }
}

fn find_terminator(msg: &Vec<u8>, from: usize) -> (r: usize)
    requires
        from <= msg.len(),
    ensures
        r == terminator_from(msg@, from as int),
        from <= r <= msg.len(),
{
    let mut i = from;
    while i < msg.len()
        invariant
            from <= i <= msg.len(),
            terminator_from(msg@, from as int) == terminator_from(msg@, i as int),
        decreases msg.len() - i,
    {
        if msg[i] == 255 {
            return i;
        }
        i = i + 1;
    }
    i
}

fn decode_cards(msg: &Vec<u8>, i: usize, k: usize) -> (r: Option<Vec<Card>>)
    requires
        i + k <= msg.len(),
    ensures
        cards_view(r) == parse_cards(msg@, i as int, k as int),
        r is Some ==> r->0.len() == k,
{
    let mut cards: Vec<Card> = Vec::new();
    let mut j: usize = 0;
    while j < k
        invariant
            0 <= j <= k,
            i + k <= msg.len(),
            parse_cards(msg@, i as int, j as int) == Some(cards@),
            cards.len() == j,
        decreases k - j,
    {
        match Card::from_byte(msg[i + j]) {
            Some(c) => cards.push(c),
            None => {
                proof {
                    lemma_parse_cards_fails(msg@, i as int, j + 1, k as int);
                }
                return None;
            },
        }
        j = j + 1;
    }
    Some(cards)
}

fn decode_kickers(msg: &Vec<u8>, i: usize) -> (r: Option<Vec<Card>>)
    requires
        i + 5 <= msg.len(),
    ensures
        cards_view(r) == parse_kickers(msg@, i as int, 5),
{
    let mut cards: Vec<Card> = Vec::new();
    let mut j: usize = 0;
    while j < 5
        invariant
            0 <= j <= 5,
            i + 5 <= msg.len(),
            parse_kickers(msg@, i as int, j as int) == Some(cards@),
        decreases 5 - j,
    {
        if msg[i + j] != 255 {
            match Card::from_byte(msg[i + j]) {
                Some(c) => cards.push(c),
                None => {
                    proof {
                        lemma_parse_kickers_fails(msg@, i as int, j + 1, 5);
                    }
                    return None;
                },
            }
        }
        j = j + 1;
    }
    Some(cards)
}

fn decode_option_card(b: u8) -> (r: Option<Option<Card>>)
    ensures
        r == parse_option_card(b),
{
    if b == 255 {
        Some(None)
    } else {
        match Card::from_byte(b) {
            Some(c) => Some(Some(c)),
            None => None,
        }
    }
}

pub open spec fn hand_view(r: Option<ShowdownHand>) -> Option<crate::events::ShowdownHandModel> {
    match r {
        Some(h) => Some(h@),
        None => None,
    }
}

fn decode_hand(msg: &Vec<u8>, i: usize) -> (r: Option<ShowdownHand>)
    requires
        i + 16 <= msg.len(),
    ensures
        hand_view(r) == parse_hand(msg@, i as int),
{
    let pc = decode_cards(msg, i + 1, 2);
    let bc = decode_cards(msg, i + 3, 5);
    let cat = HandCategory::from_byte(msg[i + 8]);
    let p = decode_option_card(msg[i + 9]);
    let s = decode_option_card(msg[i + 10]);
    let k = decode_kickers(msg, i + 11);
    match (pc, bc, cat, p, s, k) {
        (Some(pc), Some(bc), Some(category), Some(primary), Some(secondary), Some(kickers)) => {
            let private_cards = [pc[0], pc[1]];
            assert(private_cards@ =~= pc@);
            let best_cards = [bc[0], bc[1], bc[2], bc[3], bc[4]];
            assert(best_cards@ =~= bc@);
            Some(
                ShowdownHand {
                    player: msg[i],
                    private_cards,
                    best_cards,
                    rank: HandRank { category, primary, secondary, kickers },
                },
            )
        },
        _ => None,
    }
}

fn decode_factor(msg: &Vec<u8>, k: usize) -> (r: Option<ShowdownDecidingFactor>)
    requires
        k + 3 <= msg.len(),
    ensures
        r == parse_factor(msg@, k as int),
{
    let b = msg[k];
    let c1 = Card::from_byte(msg[k + 1]);
    let c2 = Card::from_byte(msg[k + 2]);
    if b == 0 {
        Some(ShowdownDecidingFactor::Category)
    } else if b == 255 {
        Some(ShowdownDecidingFactor::Tie)
    } else {
        match (c1, c2) {
            (Some(a), Some(c)) => {
                if b == 1 {
                    Some(ShowdownDecidingFactor::Primary(a, c))
                } else if b == 2 {
                    Some(ShowdownDecidingFactor::Secondary(a, c))
                } else if b == 3 {
                    Some(ShowdownDecidingFactor::Kicker(a, c))
                } else {
                    None
                }
            },
            _ => None,
        }
    }
}

pub open spec fn pots_option_view(r: Option<Vec<Pot>>) -> Option<Seq<PotModel>> {
    match r {
        Some(v) => Some(crate::events::pots_view(v@)),
        None => None,
    }
}

fn decode_pots(msg: &Vec<u8>) -> (r: Option<Vec<Pot>>)
    requires
        msg.len() >= 2,
    ensures
        pots_option_view(r) == parse_pots(msg@, 2),
{
    let ghost m = msg@;
    let mut pots: Vec<Pot> = Vec::new();
    let mut idx: usize = 2;
    while idx < msg.len()
        invariant
            2 <= idx <= msg.len(),
            m == msg@,
            prepend(crate::events::pots_view(pots@), parse_pots(m, idx as int)) == parse_pots(m, 2),
        decreases msg.len() - idx,
    {
        if msg.len() - idx < 4 {
            return None;
        }
        let money = get_money_from_bytes(msg, idx);
        let t = find_terminator(msg, idx + 4);
        if t >= msg.len() {
            return None;
        }
        let eligible_players = bytes_between(msg, idx + 4, t);
        let pot = Pot { money, eligible_players };
        proof {
            lemma_prepend(crate::events::pots_view(pots@), pot@, parse_pots(m, t + 1));
            assert(crate::events::pots_view(pots@).push(pot@) =~= crate::events::pots_view(
                pots@.push(pot),
            ));
        }
        pots.push(pot);
        idx = t + 1;
    }
    assert(crate::events::pots_view(pots@) + Seq::empty() =~= crate::events::pots_view(pots@));
    Some(pots)
}

pub open spec fn hands_option_view(r: Option<Vec<ShowdownHand>>) -> Option<
    Seq<crate::events::ShowdownHandModel>,
> {
    match r {
        Some(v) => Some(crate::events::hands_view(v@)),
        None => None,
    }
}

fn decode_hands(msg: &Vec<u8>) -> (r: Option<Vec<ShowdownHand>>)
    requires
        msg.len() >= 2,
    ensures
        hands_option_view(r) == parse_hands(msg@, 2),
{
    let ghost m = msg@;
    let mut hands: Vec<ShowdownHand> = Vec::new();
    let mut idx: usize = 2;
    while idx < msg.len()
        invariant
            2 <= idx <= msg.len(),
            m == msg@,
            prepend(crate::events::hands_view(hands@), parse_hands(m, idx as int)) == parse_hands(
                m,
                2,
            ),
        decreases msg.len() - idx,
    {
        if msg.len() - idx < 16 {
            return None;
        }
        match decode_hand(msg, idx) {
            None => {
                return None;
            },
            Some(h) => {
                proof {
                    lemma_prepend(crate::events::hands_view(hands@), h@, parse_hands(m, idx + 16));
                    assert(crate::events::hands_view(hands@).push(h@) =~= crate::events::hands_view(
                        hands@.push(h),
                    ));
                }
                hands.push(h);
            },
        }
        idx = idx + 16;
    }
    assert(crate::events::hands_view(hands@) + Seq::empty() =~= crate::events::hands_view(hands@));
    Some(hands)
}

pub open spec fn steps_option_view(r: Option<Vec<ShowdownStep>>) -> Option<Seq<StepModel>> {
    match r {
        Some(v) => Some(crate::events::steps_view(v@)),
        None => None,
    }
}

fn decode_steps(msg: &Vec<u8>) -> (r: Option<Vec<ShowdownStep>>)
    requires
        msg.len() >= 2,
    ensures
        steps_option_view(r) == parse_steps(msg@, 2),
{
    let ghost m = msg@;
    let mut steps: Vec<ShowdownStep> = Vec::new();
    let mut idx: usize = 2;
    while idx < msg.len()
        invariant
            2 <= idx <= msg.len(),
            m == msg@,
            prepend(crate::events::steps_view(steps@), parse_steps(m, idx as int)) == parse_steps(
                m,
                2,
            ),
        decreases msg.len() - idx,
    {
        let t1 = find_terminator(msg, idx);
        if t1 >= msg.len() {
            return None;
        }
        let j = t1 + 1;
        if msg.len() - j < 6 {
            return None;
        }
        let t2 = find_terminator(msg, j + 6);
        if t2 >= msg.len() {
            return None;
        }
        let k = t2 + 1;
        if msg.len() - k < 3 {
            return None;
        }
        let win_reason = match decode_factor(msg, k) {
            Some(f) => f,
            None => {
                return None;
            },
        };
        let step = ShowdownStep {
            winners: bytes_between(msg, idx, t1),
            winnings: get_money_from_bytes(msg, j),
            pot_start_index: msg[j + 4],
            pot_end_index: msg[j + 5],
            eligible_players: bytes_between(msg, j + 6, t2),
            win_reason,
        };
        proof {
            lemma_prepend(crate::events::steps_view(steps@), step@, parse_steps(m, k + 3));
            assert(crate::events::steps_view(steps@).push(step@) =~= crate::events::steps_view(
                steps@.push(step),
            ));
        }
        steps.push(step);
        idx = k + 3;
    }
    assert(crate::events::steps_view(steps@) + Seq::empty() =~= crate::events::steps_view(steps@));
    Some(steps)
}

pub open spec fn players_option_view(r: Option<Vec<(PlayerState, u32, String)>>) -> Option<
    Seq<(PlayerState, u32, Seq<char>)>,
> {
    match r {
        Some(v) => Some(crate::events::player_list_view(v@)),
        None => None,
    }
}

fn decode_players(msg: &Vec<u8>) -> (r: Option<Vec<(PlayerState, u32, String)>>)
    requires
        msg.len() >= 2,
    ensures
        players_option_view(r) == parse_players(msg@, 2),
{
    let ghost m = msg@;
    let mut players: Vec<(PlayerState, u32, String)> = Vec::new();
    let mut idx: usize = 2;
    while idx < msg.len()
        invariant
            2 <= idx <= msg.len(),
            m == msg@,
            prepend(crate::events::player_list_view(players@), parse_players(m, idx as int))
                == parse_players(m, 2),
        decreases msg.len() - idx,
    {
        if msg.len() - idx < 5 {
            return None;
        }
        let state = match PlayerState::from_byte(msg[idx]) {
            Some(s) => s,
            None => {
                return None;
            },
        };
        let money = get_money_from_bytes(msg, idx + 1);
        let t = find_terminator(msg, idx + 5);
        if t >= msg.len() {
            return None;
        }
        let name = match string_from_utf8(bytes_between(msg, idx + 5, t)) {
            Some(s) => s,
            None => {
                return None;
            },
        };
        let entry = (state, money, name);
        let ghost ev = (state, money, name@);
        proof {
            lemma_prepend(crate::events::player_list_view(players@), ev, parse_players(m, t + 1));
        }
        players.push(entry);
        assert(crate::events::player_list_view(players@) =~= crate::events::player_list_view(
            players@.drop_last(),
        ).push(ev));
        idx = t + 1;
    }
    assert(crate::events::player_list_view(players@) + Seq::empty()
        =~= crate::events::player_list_view(players@));
    Some(players)
}

pub open spec fn client_view(r: Option<ClientBound>) -> Option<ClientBoundModel> {
    match r {
        Some(x) => Some(x@),
        None => None,
    }
}

fn decode_tail_name(msg: &Vec<u8>) -> (r: Option<String>)
    requires
        msg.len() >= 2,
    ensures
        match r {
            Some(s) => parse_tail_name(msg@) == Some(s@),
            None => parse_tail_name(msg@) is None,
        },
{
    if msg.len() < 3 {
        return None;
    }
    string_from_utf8(bytes_between(msg, 2, msg.len()))
}

fn game_event(e: GameEvent) -> (r: Option<ClientBound>)
    ensures
        client_view(r) == event(e@),
{
    Some(ClientBound::GameEvent(e))
}

/// Decodes a server-to-client message; `None` on a truncated message, a
/// list without its closing 255, a byte that is no card, or an unknown tag.
pub fn decode_client_bound(msg: &Vec<u8>) -> (r: Option<ClientBound>)
    ensures
        client_view(r) == parse_client_bound(msg@),
{
    if msg.len() < 2 {
        return None;
    }
    let (a, b) = (msg[0], msg[1]);
    if a == 0 && b == 0 {
        match decode_players(msg) {
            Some(l) => Some(ClientBound::UpdatePlayerList(l)),
            None => None,
        }
    } else if a == 0 && b == 2 {
        if msg.len() < 7 {
            return None;
        }
        game_event(GameEvent::OwnedMoneyChange(msg[2], get_money_from_bytes(msg, 3)))
    } else if a == 0 && b == 4 {
        if msg.len() < 3 {
            return None;
        }
        Some(ClientBound::YourIndex(msg[2]))
    } else if a == 0 && b == 5 {
        match decode_tail_name(msg) {
            Some(s) => Some(ClientBound::PlayerLeft(s)),
            None => None,
        }
    } else if a == 0 && b == 6 {
        match decode_tail_name(msg) {
            Some(s) => Some(ClientBound::PlayerJoined(s)),
            None => None,
        }
    } else if a == 1 && b == 0 {
        if msg.len() < 4 {
            return None;
        }
        match decode_cards(msg, 2, 2) {
            Some(cs) => {
                let cards = [cs[0], cs[1]];
                assert(cards@ =~= cs@);
                Some(ClientBound::GameStarted(cards))
            },
            None => None,
        }
    } else if a == 1 && b == 2 {
        if msg.len() < 3 {
            return None;
        }
        game_event(GameEvent::NextPlayer(msg[2]))
    } else if a == 1 && b == 3 {
        if msg.len() < 4 {
            return None;
        }
        let player = msg[2];
        if msg[3] == 0 {
            game_event(GameEvent::PlayerAction(player, GamePlayerAction::Check))
        } else if msg[3] == 1 {
            if msg.len() < 8 {
                return None;
            }
            game_event(
                GameEvent::PlayerAction(
                    player,
                    GamePlayerAction::AddMoney(get_money_from_bytes(msg, 4)),
                ),
            )
        } else if msg[3] == 2 {
            game_event(GameEvent::PlayerAction(player, GamePlayerAction::Fold))
        } else {
            None
        }
    } else if a == 1 && b == 5 {
        if msg.len() < 6 {
            return None;
        }
        game_event(GameEvent::UpdateCurrentBet(get_money_from_bytes(msg, 2)))
    } else if a == 1 && b == 6 {
        match decode_pots(msg) {
            Some(pots) => game_event(GameEvent::UpdatePots(pots)),
            None => None,
        }
    } else if a == 1 && b == 8 {
        if msg.len() < 5 {
            return None;
        }
        match decode_cards(msg, 2, 3) {
            Some(cs) => {
                let cards = [cs[0], cs[1], cs[2]];
                assert(cards@ =~= cs@);
                game_event(GameEvent::RevealFlop(cards))
            },
            None => None,
        }
    } else if a == 1 && (b == 9 || b == 10) {
        if msg.len() < 3 {
            return None;
        }
        match Card::from_byte(msg[2]) {
            Some(c) => if b == 9 {
                game_event(GameEvent::RevealTurn(c))
            } else {
                game_event(GameEvent::RevealRiver(c))
            },
            None => None,
        }
    } else if a == 1 && b == 11 {
        match decode_hands(msg) {
            Some(hands) => game_event(GameEvent::Showdown(hands)),
            None => None,
        }
    } else if a == 1 && b == 13 {
        match decode_steps(msg) {
            Some(steps) => game_event(GameEvent::ShowdownSteps(steps)),
            None => None,
        }
    } else if a == 1 && b == 14 {
        if msg.len() < 3 {
            return None;
        }
        game_event(GameEvent::InGamePlayerLeave(msg[2]))
    } else {
        None
    }
}

// ---------------------------------------------------------------------
// Server to client: every message decodes back to itself.
// ---------------------------------------------------------------------

/// No byte of the list is the terminator.
pub open spec fn ids_ok(ids: Seq<u8>) -> bool {
    forall|j: int| 0 <= j < ids.len() ==> ids[j] != 255
}

pub open spec fn cards_ok(cs: Seq<Card>) -> bool {
    forall|j: int| 0 <= j < cs.len() ==> (#[trigger] cs[j]).wf()
}

pub open spec fn option_card_ok(c: Option<Card>) -> bool {
    c matches Some(c) ==> c.wf()
}

pub open spec fn hand_ok(h: crate::events::ShowdownHandModel) -> bool {
    &&& h.private_cards.len() == 2
    &&& cards_ok(h.private_cards)
    &&& h.best_cards.len() == 5
    &&& cards_ok(h.best_cards)
    &&& option_card_ok(h.rank.primary)
    &&& option_card_ok(h.rank.secondary)
    &&& h.rank.kickers.len() <= 5
    &&& cards_ok(h.rank.kickers)
}

pub open spec fn factor_ok(f: ShowdownDecidingFactor) -> bool {
    match f {
        ShowdownDecidingFactor::Primary(a, b) => a.wf() && b.wf(),
        ShowdownDecidingFactor::Secondary(a, b) => a.wf() && b.wf(),
        ShowdownDecidingFactor::Kicker(a, b) => a.wf() && b.wf(),
        _ => true,
    }
}

pub open spec fn step_ok(s: StepModel) -> bool {
    ids_ok(s.winners) && ids_ok(s.eligible_players) && factor_ok(s.win_reason)
}

pub open spec fn game_event_ok(e: GameEventModel) -> bool {
    match e {
        GameEventModel::UpdatePots(ps) => forall|k: int|
            0 <= k < ps.len() ==> ids_ok(#[trigger] ps[k].eligible_players),
        GameEventModel::RevealFlop(cs) => cs.len() == 3 && cards_ok(cs),
        GameEventModel::RevealTurn(c) => c.wf(),
        GameEventModel::RevealRiver(c) => c.wf(),
        GameEventModel::Showdown(hs) => forall|k: int| 0 <= k < hs.len() ==> hand_ok(#[trigger] hs[k]),
        GameEventModel::ShowdownSteps(ss) => forall|k: int|
            0 <= k < ss.len() ==> step_ok(#[trigger] ss[k]),
        _ => true,
    }
}

/// The messages that the protocol carries: ASCII usernames, non-empty where
/// a name is the tail of its message; valid cards; ids other than 255; at
/// most five kickers.
pub open spec fn client_bound_ok(x: ClientBoundModel) -> bool {
    match x {
        ClientBoundModel::UpdatePlayerList(l) => forall|k: int|
            0 <= k < l.len() ==> is_ascii_chars(#[trigger] l[k].2),
        ClientBoundModel::PlayerLeft(s) => name_ok(s),
        ClientBoundModel::PlayerJoined(s) => name_ok(s),
        ClientBoundModel::GameStarted(cs) => cs.len() == 2 && cards_ok(cs),
        ClientBoundModel::GameEvent(e) => game_event_ok(e),
        _ => true,
    }
}

proof fn lemma_split_at(m: Seq<u8>, i: int, a: Seq<u8>, b: Seq<u8>)
    requires
        0 <= i <= m.len(),
        m.subrange(i, m.len() as int) == a + b,
    ensures
        forall|j: int| 0 <= j < a.len() ==> m[i + j] == #[trigger] a[j],
        m.subrange(i + a.len(), m.len() as int) == b,
        i + a.len() <= m.len(),
{
    let s = m.subrange(i, m.len() as int);
    assert(s.len() == a.len() + b.len());
    assert forall|j: int| 0 <= j < a.len() implies m[i + j] == #[trigger] a[j] by {
        assert(s[j] == m[i + j]);
        assert(s[j] == (a + b)[j]);
    }
    assert(m.subrange(i + a.len(), m.len() as int) =~= b) by {
        assert forall|j: int| 0 <= j < b.len() implies m.subrange(i + a.len(), m.len() as int)[j]
            == b[j] by {
            assert(s[a.len() + j] == m[i + a.len() + j]);
            assert(s[a.len() + j] == (a + b)[a.len() + j]);
        }
    }
}

proof fn lemma_terminator(m: Seq<u8>, a: int, b: int)
    requires
        0 <= a <= b < m.len(),
        m[b] == 255,
        forall|j: int| a <= j < b ==> m[j] != 255,
    ensures
        terminator_from(m, a) == b,
    decreases b - a,
{
    if a < b {
        lemma_terminator(m, a + 1, b);
    }
}

proof fn lemma_le_at(m: Seq<u8>, i: int, v: u32)
    requires
        0 <= i,
        i + 4 <= m.len(),
        m[i] == le_bytes(v)[0],
        m[i + 1] == le_bytes(v)[1],
        m[i + 2] == le_bytes(v)[2],
        m[i + 3] == le_bytes(v)[3],
    ensures
        le_at(m, i) == v,
{
    lemma_le_round_trip(v);
}

proof fn lemma_cards_round_trip(m: Seq<u8>, i: int, cs: Seq<Card>, k: int)
    requires
        0 <= k <= cs.len(),
        cards_ok(cs),
        forall|j: int| 0 <= j < cs.len() ==> m[i + j] == (#[trigger] cs[j]).spec_byte(),
    ensures
        parse_cards(m, i, k) == Some(cs.subrange(0, k)),
    decreases k,
{
    if k > 0 {
        lemma_cards_round_trip(m, i, cs, k - 1);
        lemma_card_byte(cs[k - 1]);
        assert(cs.subrange(0, k - 1).push(cs[k - 1]) =~= cs.subrange(0, k));
    } else {
        assert(cs.subrange(0, 0) =~= Seq::<Card>::empty());
    }
}

proof fn lemma_kickers_round_trip(m: Seq<u8>, i: int, ks: Seq<Card>, k: int)
    requires
        0 <= k <= 5,
        ks.len() <= 5,
        cards_ok(ks),
        forall|j: int| 0 <= j < 5 ==> m[i + j] == #[trigger] kicker_slots(ks)[j],
    ensures
        parse_kickers(m, i, k) == Some(ks.subrange(0, if k < ks.len() { k } else { ks.len() as int })),
    decreases k,
{
    if k > 0 {
        lemma_kickers_round_trip(m, i, ks, k - 1);
        assert(ks.subrange(0, ks.len() as int) =~= ks);
        if k - 1 < ks.len() {
            lemma_card_byte(ks[k - 1]);
            assert(kicker_slots(ks)[k - 1] == ks[k - 1].spec_byte());
            assert(ks.subrange(0, k - 1).push(ks[k - 1]) =~= ks.subrange(0, k));
        } else {
            assert(kicker_slots(ks)[k - 1] == 255);
        }
    } else {
        assert(ks.subrange(0, 0) =~= Seq::<Card>::empty());
    }
}

proof fn lemma_pots_round_trip(m: Seq<u8>, i: int, ps: Seq<PotModel>)
    requires
        0 <= i <= m.len(),
        m.subrange(i, m.len() as int) == pots_bytes(ps),
        forall|k: int| 0 <= k < ps.len() ==> ids_ok(#[trigger] ps[k].eligible_players),
    ensures
        parse_pots(m, i) == Some(ps),
    decreases ps.len(),
{
    if ps.len() == 0 {
        assert(m.subrange(i, m.len() as int).len() == 0);
        assert(ps =~= Seq::<PotModel>::empty());
    } else {
        lemma_pots_bytes_front(ps);
        let p = ps[0];
        let e = p.eligible_players;
        let first = pot_bytes(p);
        lemma_split_at(m, i, first, pots_bytes(ps.drop_first()));
        assert(first == le_bytes(p.money) + e.push(255));
        assert(first[0] == le_bytes(p.money)[0] && first[1] == le_bytes(p.money)[1] && first[2]
            == le_bytes(p.money)[2] && first[3] == le_bytes(p.money)[3]);
        lemma_le_at(m, i, p.money);
        let t = i + 4 + e.len();
        assert forall|j: int| i + 4 <= j < t implies m[j] != 255 by {
            assert(m[i + (j - i)] == first[j - i]);
            assert(first[j - i] == e[j - i - 4]);
            assert(ids_ok(ps[0].eligible_players));
        }
        assert(m[i + (t - i)] == first[t - i]);
        lemma_terminator(m, i + 4, t);
        assert(m.subrange(i + 4, t) =~= e) by {
            assert forall|j: int| 0 <= j < e.len() implies m.subrange(i + 4, t)[j] == e[j] by {
                assert(m[i + (4 + j)] == first[4 + j]);
            }
        }
        assert forall|k: int| 0 <= k < ps.drop_first().len() implies ids_ok(
            #[trigger] ps.drop_first()[k].eligible_players,
        ) by {
            assert(ps.drop_first()[k] == ps[k + 1]);
        }
        lemma_pots_round_trip(m, t + 1, ps.drop_first());
        assert(seq![p] + ps.drop_first() =~= ps);
    }
}

proof fn lemma_players_round_trip(m: Seq<u8>, i: int, l: Seq<(PlayerState, u32, Seq<char>)>)
    requires
        0 <= i <= m.len(),
        m.subrange(i, m.len() as int) == players_bytes(l),
        forall|k: int| 0 <= k < l.len() ==> is_ascii_chars(#[trigger] l[k].2),
    ensures
        parse_players(m, i) == Some(l),
    decreases l.len(),
{
    if l.len() == 0 {
        assert(m.subrange(i, m.len() as int).len() == 0);
        assert(l =~= Seq::<(PlayerState, u32, Seq<char>)>::empty());
    } else {
        lemma_players_bytes_front(l);
        let e = l[0];
        let name = encode_utf8(e.2);
        let first = player_entry_bytes(e);
        lemma_split_at(m, i, first, players_bytes(l.drop_first()));
        assert(is_ascii_chars(l[0].2));
        lemma_ascii_bytes(e.2);
        assert(first[0] == crate::events::player_state_index(e.0));
        assert(m[i + 0] == first[0]);
        assert(first[1] == le_bytes(e.1)[0] && first[2] == le_bytes(e.1)[1] && first[3] == le_bytes(
            e.1,
        )[2] && first[4] == le_bytes(e.1)[3]);
        assert(m[i + 1] == first[1] && m[i + 2] == first[2] && m[i + 3] == first[3] && m[i + 4]
            == first[4]);
        lemma_le_at(m, i + 1, e.1);
        let t = i + 5 + name.len();
        assert forall|j: int| i + 5 <= j < t implies m[j] != 255 by {
            assert(m[i + (j - i)] == first[j - i]);
            assert(first[j - i] == name[j - i - 5]);
        }
        assert(m[i + (t - i)] == first[t - i]);
        lemma_terminator(m, i + 5, t);
        assert(m.subrange(i + 5, t) =~= name) by {
            assert forall|j: int| 0 <= j < name.len() implies m.subrange(i + 5, t)[j] == name[j] by {
                assert(m[i + (5 + j)] == first[5 + j]);
            }
        }
        match e.0 {
            PlayerState::NotReady => {},
            PlayerState::Ready => {},
            PlayerState::InGame => {},
            PlayerState::Folded => {},
            PlayerState::Left => {},
        }
        assert forall|k: int| 0 <= k < l.drop_first().len() implies is_ascii_chars(
            #[trigger] l.drop_first()[k].2,
        ) by {
            assert(l.drop_first()[k] == l[k + 1]);
        }
        lemma_players_round_trip(m, t + 1, l.drop_first());
        assert(seq![e] + l.drop_first() =~= l);
    }
}

proof fn lemma_hands_round_trip(m: Seq<u8>, i: int, hs: Seq<crate::events::ShowdownHandModel>)
    requires
        0 <= i <= m.len(),
        m.subrange(i, m.len() as int) == hands_bytes(hs),
        forall|k: int| 0 <= k < hs.len() ==> hand_ok(#[trigger] hs[k]),
    ensures
        parse_hands(m, i) == Some(hs),
    decreases hs.len(),
{
    if hs.len() == 0 {
        assert(m.subrange(i, m.len() as int).len() == 0);
        assert(hs =~= Seq::<crate::events::ShowdownHandModel>::empty());
    } else {
        lemma_hands_bytes_front(hs);
        let h = hs[0];
        assert(hand_ok(hs[0]));
        let first = hand_bytes(h);
        assert(first.len() == 16);
        lemma_split_at(m, i, first, hands_bytes(hs.drop_first()));
        assert(m[i + 0] == first[0]);
        assert forall|j: int| 0 <= j < 2 implies m[i + 1 + j] == (
        #[trigger] h.private_cards[j]).spec_byte() by {
            assert(m[i + (1 + j)] == first[1 + j]);
        }
        lemma_cards_round_trip(m, i + 1, h.private_cards, 2);
        assert forall|j: int| 0 <= j < 5 implies m[i + 3 + j] == (
        #[trigger] h.best_cards[j]).spec_byte() by {
            assert(m[i + (3 + j)] == first[3 + j]);
        }
        lemma_cards_round_trip(m, i + 3, h.best_cards, 5);
        assert(h.private_cards.subrange(0, 2) =~= h.private_cards);
        assert(h.best_cards.subrange(0, 5) =~= h.best_cards);
        assert(m[i + 8] == first[8]);
        assert(m[i + 9] == first[9]);
        assert(m[i + 10] == first[10]);
        match h.rank.category {
            HandCategory::HighCard => {},
            HandCategory::OnePair => {},
            HandCategory::TwoPair => {},
            HandCategory::ThreeKind => {},
            HandCategory::Straight => {},
            HandCategory::Flush => {},
            HandCategory::FullHouse => {},
            HandCategory::FourKind => {},
            HandCategory::StraightFlush => {},
            HandCategory::RoyalFlush => {},
        }
        if h.rank.primary is Some {
            lemma_card_byte(h.rank.primary->0);
        }
        if h.rank.secondary is Some {
            lemma_card_byte(h.rank.secondary->0);
        }
        assert forall|j: int| 0 <= j < 5 implies m[i + 11 + j] == #[trigger] kicker_slots(
            h.rank.kickers,
        )[j] by {
            assert(m[i + (11 + j)] == first[11 + j]);
        }
        lemma_kickers_round_trip(m, i + 11, h.rank.kickers, 5);
        assert(h.rank.kickers.subrange(0, h.rank.kickers.len() as int) =~= h.rank.kickers);
        assert(parse_hand(m, i) == Some(h));
        assert forall|k: int| 0 <= k < hs.drop_first().len() implies hand_ok(
            #[trigger] hs.drop_first()[k],
        ) by {
            assert(hs.drop_first()[k] == hs[k + 1]);
        }
        lemma_hands_round_trip(m, i + 16, hs.drop_first());
        assert(seq![h] + hs.drop_first() =~= hs);
    }
}

proof fn lemma_steps_round_trip(m: Seq<u8>, i: int, ss: Seq<StepModel>)
    requires
        0 <= i <= m.len(),
        m.subrange(i, m.len() as int) == steps_bytes(ss),
        forall|k: int| 0 <= k < ss.len() ==> step_ok(#[trigger] ss[k]),
    ensures
        parse_steps(m, i) == Some(ss),
    decreases ss.len(),
{
    if ss.len() == 0 {
        assert(m.subrange(i, m.len() as int).len() == 0);
        assert(ss =~= Seq::<StepModel>::empty());
    } else {
        lemma_steps_bytes_front(ss);
        let s = ss[0];
        assert(step_ok(ss[0]));
        let w = s.winners;
        let e = s.eligible_players;
        let first = step_bytes(s);
        lemma_split_at(m, i, first, steps_bytes(ss.drop_first()));
        let t1 = i + w.len();
        let j = t1 + 1;
        let t2 = j + 6 + e.len();
        let k = t2 + 1;
        assert(first.len() == w.len() + 1 + 4 + 2 + e.len() + 1 + 3);
        assert forall|x: int| i <= x < t1 implies m[x] != 255 by {
            assert(m[i + (x - i)] == first[x - i]);
        }
        assert(m[i + (t1 - i)] == first[t1 - i]);
        lemma_terminator(m, i, t1);
        assert(m.subrange(i, t1) =~= w) by {
            assert forall|y: int| 0 <= y < w.len() implies m.subrange(i, t1)[y] == w[y] by {
                assert(m[i + y] == first[y]);
            }
        }
        assert(m[i + (j - i)] == first[j - i] && m[i + (j + 1 - i)] == first[j + 1 - i] && m[i + (j
            + 2 - i)] == first[j + 2 - i] && m[i + (j + 3 - i)] == first[j + 3 - i]);
        lemma_le_at(m, j, s.winnings);
        assert(m[i + (j + 4 - i)] == first[j + 4 - i] && m[i + (j + 5 - i)] == first[j + 5 - i]);
        assert forall|x: int| j + 6 <= x < t2 implies m[x] != 255 by {
            assert(m[i + (x - i)] == first[x - i]);
        }
        assert(m[i + (t2 - i)] == first[t2 - i]);
        lemma_terminator(m, j + 6, t2);
        assert(m.subrange(j + 6, t2) =~= e) by {
            assert forall|y: int| 0 <= y < e.len() implies m.subrange(j + 6, t2)[y] == e[y] by {
                assert(m[i + (j + 6 + y - i)] == first[j + 6 + y - i]);
            }
        }
        assert(m[i + (k - i)] == first[k - i] && m[i + (k + 1 - i)] == first[k + 1 - i] && m[i + (k
            + 2 - i)] == first[k + 2 - i]);
        match s.win_reason {
            ShowdownDecidingFactor::Primary(a, b) => {
                lemma_card_byte(a);
                lemma_card_byte(b);
            },
            ShowdownDecidingFactor::Secondary(a, b) => {
                lemma_card_byte(a);
                lemma_card_byte(b);
            },
            ShowdownDecidingFactor::Kicker(a, b) => {
                lemma_card_byte(a);
                lemma_card_byte(b);
            },
            _ => {},
        }
        assert(parse_factor(m, k) == Some(s.win_reason));
        assert forall|x: int| 0 <= x < ss.drop_first().len() implies step_ok(
            #[trigger] ss.drop_first()[x],
        ) by {
            assert(ss.drop_first()[x] == ss[x + 1]);
        }
        lemma_steps_round_trip(m, k + 3, ss.drop_first());
        assert(seq![s] + ss.drop_first() =~= ss);
    }
}

proof fn lemma_list_event_round_trip(e: GameEventModel)
    requires
        game_event_ok(e),
        e is UpdatePots || e is Showdown || e is ShowdownSteps,
    ensures
        parse_client_bound(game_event_bytes(e)) == event(e),
{
    let m = game_event_bytes(e);
    let rest = m.subrange(2, m.len() as int);
    match e {
        GameEventModel::UpdatePots(ps) => {
            assert(rest =~= pots_bytes(ps));
            lemma_pots_round_trip(m, 2, ps);
        },
        GameEventModel::Showdown(hs) => {
            assert(rest =~= hands_bytes(hs));
            lemma_hands_round_trip(m, 2, hs);
        },
        GameEventModel::ShowdownSteps(ss) => {
            assert(rest =~= steps_bytes(ss));
            lemma_steps_round_trip(m, 2, ss);
        },
        _ => {},
    }
}

#[verifier::rlimit(40)]
proof fn lemma_game_event_round_trip(e: GameEventModel)
    requires
        game_event_ok(e),
    ensures
        parse_client_bound(game_event_bytes(e)) == event(e),
{
    let m = game_event_bytes(e);
    match e {
        GameEventModel::PlayerAction(p, a) => {
            if let GamePlayerAction::AddMoney(v) = a {
                lemma_le_at(m, 4, v);
            }
        },
        GameEventModel::OwnedMoneyChange(p, v) => {
            lemma_le_at(m, 3, v);
        },
        GameEventModel::UpdateCurrentBet(v) => {
            lemma_le_at(m, 2, v);
        },
        GameEventModel::RevealFlop(cs) => {
            lemma_cards_round_trip(m, 2, cs, 3);
            assert(cs.subrange(0, 3) =~= cs);
        },
        GameEventModel::RevealTurn(c) => {
            lemma_card_byte(c);
        },
        GameEventModel::RevealRiver(c) => {
            lemma_card_byte(c);
        },
        GameEventModel::NextPlayer(p) => {},
        GameEventModel::InGamePlayerLeave(p) => {},
        _ => {
            lemma_list_event_round_trip(e);
        },
    }
}

/// Every server-to-client message that the protocol carries decodes back to itself.
pub proof fn lemma_client_bound_round_trip(x: ClientBoundModel)
    requires
        client_bound_ok(x),
    ensures
        parse_client_bound(client_bound_bytes(x)) == Some(x),
{
    let m = client_bound_bytes(x);
    let rest = m.subrange(2, m.len() as int);
    match x {
        ClientBoundModel::UpdatePlayerList(l) => {
            assert(rest =~= players_bytes(l));
            lemma_players_round_trip(m, 2, l);
        },
        ClientBoundModel::PlayerLeft(s) => {
            lemma_ascii_bytes(s);
            assert(rest =~= encode_utf8(s));
        },
        ClientBoundModel::PlayerJoined(s) => {
            lemma_ascii_bytes(s);
            assert(rest =~= encode_utf8(s));
        },
        ClientBoundModel::GameStarted(cs) => {
            lemma_cards_round_trip(m, 2, cs, 2);
            assert(cs.subrange(0, 2) =~= cs);
        },
        ClientBoundModel::GameEvent(e) => {
            lemma_game_event_round_trip(e);
        },
        ClientBoundModel::YourIndex(i) => {},
    }
}

proof fn lemma_no_terminator(m: Seq<u8>, a: int)
    requires
        0 <= a <= m.len(),
        forall|j: int| a <= j < m.len() ==> m[j] != 255,
    ensures
        terminator_from(m, a) == m.len(),
    decreases m.len() - a,
{
    if a < m.len() {
        lemma_no_terminator(m, a + 1);
    }
}

proof fn lemma_truncated_pots(m: Seq<u8>, i: int, ps: Seq<PotModel>, money: u32, ids: Seq<u8>)
    requires
        0 <= i <= m.len(),
        m.subrange(i, m.len() as int) == pots_bytes(ps) + (le_bytes(money) + ids),
        ids_ok(ids),
        forall|k: int| 0 <= k < ps.len() ==> ids_ok(#[trigger] ps[k].eligible_players),
    ensures
        parse_pots(m, i) is None,
    decreases ps.len(),
{
    let tail = le_bytes(money) + ids;
    if ps.len() == 0 {
        assert(pots_bytes(ps) == Seq::<u8>::empty());
        assert(m.subrange(i, m.len() as int) =~= tail);
        lemma_split_at(m, i, tail, Seq::empty());
        assert forall|j: int| i + 4 <= j < m.len() implies m[j] != 255 by {
            assert(m[i + (j - i)] == tail[j - i]);
            assert(tail[j - i] == ids[j - i - 4]);
        }
        lemma_no_terminator(m, i + 4);
    } else {
        lemma_pots_bytes_front(ps);
        let p = ps[0];
        let e = p.eligible_players;
        let first = pot_bytes(p);
        assert(m.subrange(i, m.len() as int) =~= first + (pots_bytes(ps.drop_first()) + tail));
        lemma_split_at(m, i, first, pots_bytes(ps.drop_first()) + tail);
        let t = i + 4 + e.len();
        assert forall|j: int| i + 4 <= j < t implies m[j] != 255 by {
            assert(m[i + (j - i)] == first[j - i]);
            assert(first[j - i] == e[j - i - 4]);
            assert(ids_ok(ps[0].eligible_players));
        }
        assert(m[i + (t - i)] == first[t - i]);
        lemma_terminator(m, i + 4, t);
        assert forall|k: int| 0 <= k < ps.drop_first().len() implies ids_ok(
            #[trigger] ps.drop_first()[k].eligible_players,
        ) by {
            assert(ps.drop_first()[k] == ps[k + 1]);
        }
        lemma_truncated_pots(m, t + 1, ps.drop_first(), money, ids);
    }
}

/// A pot list whose last pot has no closing 255 does not decode, whatever
/// well-formed pots come before it.
pub proof fn lemma_truncated_pot_list(ps: Seq<PotModel>, money: u32, ids: Seq<u8>)
    requires
        ids_ok(ids),
        forall|k: int| 0 <= k < ps.len() ==> ids_ok(#[trigger] ps[k].eligible_players),
    ensures
        parse_client_bound(seq![1u8, 6u8] + pots_bytes(ps) + le_bytes(money) + ids) is None,
{
    let m = seq![1u8, 6u8] + pots_bytes(ps) + le_bytes(money) + ids;
    assert(m.subrange(2, m.len() as int) =~= pots_bytes(ps) + (le_bytes(money) + ids));
    lemma_truncated_pots(m, 2, ps, money, ids);
    assert(m[0] == 1 && m[1] == 6);
}

} // verus!
