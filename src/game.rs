//! The betting state machine, side pots and showdown resolution.
use crate::cards::{
    all_distinct, all_wf, compare_hand_ranks, get_best_hand, hand_comparison, hand_order,
    hand_rank_of, is_five_of, lemma_hand_order_antisymmetric, lemma_hand_order_transitive,
    omit_two, Card, HandRank, HandRankModel, ShowdownDecidingFactor,
};
use core::cmp::Ordering;
use rand::seq::SliceRandom;
use vstd::prelude::*;

verus! {

/// A player's state during one hand. The player's id is their seat index.
#[derive(Debug, Clone, Copy)]
pub struct Player {
    pub money: u32,
    pub total_contribution: u32,
    pub private_cards: [Card; 2],
    pub has_folded: bool,
}

/// A pot: its money and the seats that can still win it.
#[derive(Debug, Clone)]
pub struct Pot {
    pub money: u32,
    pub eligible_players: Vec<u8>,
}

pub struct PotModel {
    pub money: u32,
    pub eligible_players: Seq<u8>,
}

impl View for Pot {
    type V = PotModel;

    open spec fn view(&self) -> PotModel {
        PotModel { money: self.money, eligible_players: self.eligible_players@ }
    }
}

// ---------------------------------------------------------------------
// Sums over the players.
// ---------------------------------------------------------------------

pub open spec fn sum_contributions(ps: Seq<Player>) -> int
    decreases ps.len(),
{
    if ps.len() == 0 {
        0
    } else {
        sum_contributions(ps.drop_last()) + ps.last().total_contribution
    }
}

pub open spec fn sum_money(ps: Seq<Player>) -> int
    decreases ps.len(),
{
    if ps.len() == 0 {
        0
    } else {
        sum_money(ps.drop_last()) + ps.last().money
    }
}

/// Everything at the table: stacks and what was put in.
pub open spec fn table_total(ps: Seq<Player>) -> int {
    sum_money(ps) + sum_contributions(ps)
}

proof fn lemma_sums_update(ps: Seq<Player>, i: int, p: Player)
    requires
        0 <= i < ps.len(),
    ensures
        sum_contributions(ps.update(i, p)) == sum_contributions(ps) - ps[i].total_contribution
            + p.total_contribution,
        sum_money(ps.update(i, p)) == sum_money(ps) - ps[i].money + p.money,
    decreases ps.len(),
{
    let u = ps.update(i, p);
    if i == ps.len() - 1 {
        assert(u.drop_last() =~= ps.drop_last());
    } else {
        lemma_sums_update(ps.drop_last(), i, p);
        assert(u.drop_last() =~= ps.drop_last().update(i, p));
    }
}

/// Changing one player's folded flag keeps what is on the table.
pub proof fn lemma_fold_keeps_total(ps: Seq<Player>, i: int, q: Player)
    requires
        0 <= i < ps.len(),
        q.money == ps[i].money,
        q.total_contribution == ps[i].total_contribution,
    ensures
        table_total(ps.update(i, q)) == table_total(ps),
{
    lemma_sums_update(ps, i, q);
}

proof fn lemma_sums_nonneg(ps: Seq<Player>)
    ensures
        sum_contributions(ps) >= 0,
        sum_money(ps) >= 0,
        forall|i: int|
            0 <= i < ps.len() ==> ps[i].total_contribution <= sum_contributions(ps)
                && ps[i].money <= sum_money(ps),
    decreases ps.len(),
{
    if ps.len() > 0 {
        lemma_sums_nonneg(ps.drop_last());
        assert forall|i: int| 0 <= i < ps.len() - 1 implies ps[i] == ps.drop_last()[i] by {}
    }
}

// ---------------------------------------------------------------------
// Side pots.
// ---------------------------------------------------------------------

/// The smallest contribution above `prev` among the first `n` players; 0 if none.
pub open spec fn level_above(ps: Seq<Player>, prev: int, n: int) -> int
    decreases n,
{
    if n <= 0 {
        0
    } else {
        let m = level_above(ps, prev, n - 1);
        let c = ps[n - 1].total_contribution as int;
        if c > prev && (m == 0 || c < m) {
            c
        } else {
            m
        }
    }
}

pub open spec fn next_level(ps: Seq<Player>, prev: int) -> int {
    level_above(ps, prev, ps.len() as int)
}

/// How many of the first `n` players put in at least `level`.
pub open spec fn contributors_at(ps: Seq<Player>, level: int, n: int) -> nat
    decreases n,
{
    if n <= 0 {
        0
    } else {
        contributors_at(ps, level, n - 1) + if ps[n - 1].total_contribution >= level {
            1nat
        } else {
            0nat
        }
    }
}

/// The seats among the first `n` that put in at least `level` and have not folded.
pub open spec fn eligible_at(ps: Seq<Player>, level: int, n: int) -> Seq<u8>
    decreases n,
{
    if n <= 0 {
        Seq::empty()
    } else if ps[n - 1].total_contribution >= level && !ps[n - 1].has_folded {
        eligible_at(ps, level, n - 1).push((n - 1) as u8)
    } else {
        eligible_at(ps, level, n - 1)
    }
}

/// The pots for the contribution levels above `prev`, smallest level first:
/// each level takes its step over the previous one from every player who
/// reached it.
pub open spec fn pots_from(ps: Seq<Player>, prev: int) -> Seq<PotModel>
    decreases u32::MAX - prev,
{
    let l = next_level(ps, prev);
    if l <= prev || l > u32::MAX || prev < 0 {
        Seq::empty()
    } else {
        seq![
            PotModel {
                money: ((l - prev) * contributors_at(ps, l, ps.len() as int)) as u32,
                eligible_players: eligible_at(ps, l, ps.len() as int),
            },
        ] + pots_from(ps, l)
    }
}

/// The contribution level of each pot of `pots_from(ps, prev)`.
pub open spec fn levels_from(ps: Seq<Player>, prev: int) -> Seq<int>
    decreases u32::MAX - prev,
{
    let l = next_level(ps, prev);
    if l <= prev || l > u32::MAX || prev < 0 {
        Seq::empty()
    } else {
        seq![l] + levels_from(ps, l)
    }
}

/// What the players put in above `prev`.
pub open spec fn excess(ps: Seq<Player>, prev: int, n: int) -> int
    decreases n,
{
    if n <= 0 {
        0
    } else {
        excess(ps, prev, n - 1) + if ps[n - 1].total_contribution > prev {
            ps[n - 1].total_contribution - prev
        } else {
            0
        }
    }
}

proof fn lemma_level_above(ps: Seq<Player>, prev: int, n: int)
    requires
        0 <= n <= ps.len(),
        prev >= 0,
    ensures
        ({
            let l = level_above(ps, prev, n);
            &&& l == 0 ==> forall|i: int| 0 <= i < n ==> ps[i].total_contribution <= prev
            &&& l != 0 ==> prev < l <= u32::MAX && exists|i: int|
                0 <= i < n && ps[i].total_contribution == l
            &&& forall|i: int|
                0 <= i < n && ps[i].total_contribution > prev ==> ps[i].total_contribution >= l
        }),
    decreases n,
{
    if n > 0 {
        lemma_level_above(ps, prev, n - 1);
    }
}

proof fn lemma_excess_step(ps: Seq<Player>, prev: int, l: int, n: int)
    requires
        0 <= n <= ps.len(),
        0 <= prev < l,
        forall|i: int|
            0 <= i < n ==> ps[i].total_contribution <= prev || ps[i].total_contribution >= l,
    ensures
        excess(ps, prev, n) == (l - prev) * contributors_at(ps, l, n) + excess(ps, l, n),
    decreases n,
{
    if n > 0 {
        lemma_excess_step(ps, prev, l, n - 1);
        let k = contributors_at(ps, l, n - 1);
        let c = ps[n - 1].total_contribution as int;
        assert((l - prev) * (k + 1) == (l - prev) * k + (l - prev)) by (nonlinear_arith);
        if c >= l {
            assert(contributors_at(ps, l, n) == k + 1);
            assert((l - prev) * contributors_at(ps, l, n) == (l - prev) * k + (l - prev));
            assert(excess(ps, prev, n) == excess(ps, prev, n - 1) + (c - prev));
            assert(excess(ps, l, n) == excess(ps, l, n - 1) + (c - l));
        } else {
            assert(contributors_at(ps, l, n) == k);
            assert((l - prev) * contributors_at(ps, l, n) == (l - prev) * k);
            assert(excess(ps, prev, n) == excess(ps, prev, n - 1));
            assert(excess(ps, l, n) == excess(ps, l, n - 1));
        }
    } else {
        assert(contributors_at(ps, l, n) == 0);
        assert((l - prev) * contributors_at(ps, l, n) == 0);
    }
}

proof fn lemma_excess_bounds(ps: Seq<Player>, prev: int, n: int)
    requires
        0 <= n <= ps.len(),
        prev >= 0,
    ensures
        0 <= excess(ps, prev, n) <= excess(ps, 0, n),
        excess(ps, 0, n) == sum_contributions(ps.subrange(0, n)),
    decreases n,
{
    if n > 0 {
        lemma_excess_bounds(ps, prev, n - 1);
        assert(ps.subrange(0, n).drop_last() =~= ps.subrange(0, n - 1));
    } else {
        assert(ps.subrange(0, n).len() == 0);
    }
}

proof fn lemma_pots_sum(ps: Seq<Player>, prev: int)
    requires
        prev >= 0,
        excess(ps, 0, ps.len() as int) <= u32::MAX,
    ensures
        pots_money(pots_from(ps, prev)) == excess(ps, prev, ps.len() as int),
        pots_from(ps, prev).len() == levels_from(ps, prev).len(),
        forall|k: int| 0 <= k < pots_from(ps, prev).len() ==> (#[trigger] pots_from(ps, prev)[k]).money > 0,
        forall|k: int, j: int|
            0 <= k < j < levels_from(ps, prev).len() ==> levels_from(ps, prev)[k] < levels_from(
                ps,
                prev,
            )[j],
        forall|k: int|
            #![trigger pots_from(ps, prev)[k]]
            0 <= k < pots_from(ps, prev).len() ==> pots_from(ps, prev)[k].eligible_players
                == eligible_at(ps, levels_from(ps, prev)[k], ps.len() as int) && levels_from(
                ps,
                prev,
            )[k] > prev,
    decreases u32::MAX - prev,
{
    let n = ps.len() as int;
    let l = next_level(ps, prev);
    lemma_level_above(ps, prev, n);
    if l == 0 {
        assert(excess(ps, prev, n) == 0) by {
            lemma_excess_zero(ps, prev, n);
        }
    } else {
        lemma_excess_step(ps, prev, l, n);
        lemma_excess_bounds(ps, prev, n);
        lemma_excess_bounds(ps, l, n);
        lemma_pots_sum(ps, l);
        let rest = pots_from(ps, l);
        let count = contributors_at(ps, l, n);
        let first = PotModel {
            money: ((l - prev) * count) as u32,
            eligible_players: eligible_at(ps, l, n),
        };
        lemma_contributors_present(ps, l, n);
        assert((l - prev) * count >= 1) by (nonlinear_arith)
            requires
                l - prev >= 1,
                count >= 1,
        ;
        assert(excess(ps, prev, n) <= u32::MAX);
        assert(pots_from(ps, prev) == seq![first] + rest);
        assert((seq![first] + rest).drop_first() =~= rest);
        assert forall|k: int| 0 <= k < pots_from(ps, prev).len() implies (#[trigger] pots_from(
            ps,
            prev,
        )[k]).money > 0 by {
            if k > 0 {
                assert(pots_from(ps, prev)[k] == rest[k - 1]);
            }
        }
        let lv = levels_from(ps, prev);
        assert(lv == seq![l] + levels_from(ps, l));
        assert forall|k: int, j: int| 0 <= k < j < lv.len() implies lv[k] < lv[j] by {
            if k > 0 {
                assert(lv[k] == levels_from(ps, l)[k - 1]);
            }
            assert(lv[j] == levels_from(ps, l)[j - 1]);
        }
    }
}

proof fn lemma_contributors_present(ps: Seq<Player>, level: int, n: int)
    requires
        0 <= n <= ps.len(),
        exists|i: int| 0 <= i < n && ps[i].total_contribution == level,
    ensures
        contributors_at(ps, level, n) >= 1,
    decreases n,
{
    if ps[n - 1].total_contribution != level {
        let i = choose|i: int| 0 <= i < n && ps[i].total_contribution == level;
        lemma_contributors_present(ps, level, n - 1);
    }
}

proof fn lemma_excess_zero(ps: Seq<Player>, prev: int, n: int)
    requires
        0 <= n <= ps.len(),
        forall|i: int| 0 <= i < n ==> ps[i].total_contribution <= prev,
    ensures
        excess(ps, prev, n) == 0,
    decreases n,
{
    if n > 0 {
        lemma_excess_zero(ps, prev, n - 1);
    }
}

pub open spec fn pots_money(pots: Seq<PotModel>) -> int
    decreases pots.len(),
{
    if pots.len() == 0 {
        0
    } else {
        pots[0].money + pots_money(pots.drop_first())
    }
}

proof fn lemma_eligible_at(ps: Seq<Player>, level: int, n: int)
    requires
        0 <= n <= ps.len(),
        ps.len() < 256,
    ensures
        eligible_at(ps, level, n).len() <= n,
        forall|a: int, b: int|
            0 <= a < b < eligible_at(ps, level, n).len() ==> eligible_at(ps, level, n)[a]
                < eligible_at(ps, level, n)[b],
        forall|j: int|
            #![trigger eligible_at(ps, level, n)[j]]
            0 <= j < eligible_at(ps, level, n).len() ==> {
                let id = eligible_at(ps, level, n)[j] as int;
                &&& id < n
                &&& !ps[id].has_folded
                &&& ps[id].total_contribution >= level
            },
        forall|id: int|
            0 <= id < n && !ps[id].has_folded && ps[id].total_contribution >= level
                ==> #[trigger] eligible_at(ps, level, n).contains(id as u8),
    decreases n,
{
    if n > 0 {
        lemma_eligible_at(ps, level, n - 1);
        let e = eligible_at(ps, level, n - 1);
        let e2 = eligible_at(ps, level, n);
        assert forall|j: int| 0 <= j < e.len() implies eligible_at(ps, level, n)[j] == e[j] by {}
        assert forall|a: int, b: int| 0 <= a < b < e2.len() implies e2[a] < e2[b] by {
            if b < e.len() {
                assert(e2[a] == e[a] && e2[b] == e[b]);
            } else {
                assert(e2[a] == e[a]);
                assert(e[a] < n - 1);
            }
        }
        assert forall|id: int|
            0 <= id < n && !ps[id].has_folded && ps[id].total_contribution >= level
                implies #[trigger] e2.contains(id as u8) by {
            if id < n - 1 {
                assert(e.contains(id as u8));
                let j = choose|j: int| 0 <= j < e.len() && e[j] == id as u8;
                assert(e2[j] == e[j]);
            } else {
                assert(e2[e2.len() - 1] == id as u8);
            }
        }
    }
}

/// The pots hold exactly what the players put in, and none is empty; their
/// levels rise strictly; the seats that can win a pot are exactly those
/// that reached its level, so contributed to it, and have not folded, in
/// ascending order.
pub proof fn lemma_pots_law(ps: Seq<Player>)
    requires
        sum_contributions(ps) <= u32::MAX,
        ps.len() < 256,
    ensures
        pots_money(pots_from(ps, 0)) == sum_contributions(ps),
        forall|k: int| 0 <= k < pots_from(ps, 0).len() ==> (#[trigger] pots_from(ps, 0)[k]).money > 0,
        forall|k: int, j: int|
            0 <= k < j < levels_from(ps, 0).len() ==> levels_from(ps, 0)[k] < levels_from(ps, 0)[j],
        forall|k: int, j: int|
            0 <= k < pots_from(ps, 0).len() && 0 <= j < pots_from(
                ps,
                0,
            )[k].eligible_players.len() ==> {
                let id = #[trigger] pots_from(ps, 0)[k].eligible_players[j] as int;
                &&& 0 <= id < ps.len()
                &&& !ps[id].has_folded
                &&& ps[id].total_contribution >= levels_from(ps, 0)[k] > 0
            },
        forall|k: int, id: int|
            0 <= k < pots_from(ps, 0).len() && 0 <= id < ps.len() && !ps[id].has_folded
                && ps[id].total_contribution >= levels_from(ps, 0)[k]
                ==> #[trigger] pots_from(ps, 0)[k].eligible_players.contains(id as u8),
        forall|k: int|
            0 <= k < pots_from(ps, 0).len() ==> (#[trigger] pots_from(ps, 0)[k]).eligible_players.len()
                <= ps.len(),
        forall|k: int, a: int, b: int|
            0 <= k < pots_from(ps, 0).len() && 0 <= a < b < pots_from(
                ps,
                0,
            )[k].eligible_players.len() ==> #[trigger] pots_from(ps, 0)[k].eligible_players[a]
                < #[trigger] pots_from(ps, 0)[k].eligible_players[b],
{
    let n = ps.len() as int;
    lemma_excess_bounds(ps, 0, n);
    assert(ps.subrange(0, n) =~= ps);
    lemma_pots_sum(ps, 0);
    assert forall|k: int, j: int|
        0 <= k < pots_from(ps, 0).len() && 0 <= j < pots_from(
            ps,
            0,
        )[k].eligible_players.len() implies {
        let id = #[trigger] pots_from(ps, 0)[k].eligible_players[j] as int;
        &&& 0 <= id < ps.len()
        &&& !ps[id].has_folded
        &&& ps[id].total_contribution >= levels_from(ps, 0)[k] > 0
    } by {
        lemma_eligible_at(ps, levels_from(ps, 0)[k], n);
    }
    assert forall|k: int| 0 <= k < pots_from(ps, 0).len() implies (#[trigger] pots_from(
        ps,
        0,
    )[k]).eligible_players.len() <= ps.len() by {
        lemma_eligible_at(ps, levels_from(ps, 0)[k], n);
    }
    assert forall|k: int, a: int, b: int|
        0 <= k < pots_from(ps, 0).len() && 0 <= a < b < pots_from(
            ps,
            0,
        )[k].eligible_players.len() implies #[trigger] pots_from(ps, 0)[k].eligible_players[a]
        < #[trigger] pots_from(ps, 0)[k].eligible_players[b] by {
        lemma_eligible_at(ps, levels_from(ps, 0)[k], n);
    }
    assert forall|k: int, id: int|
        0 <= k < pots_from(ps, 0).len() && 0 <= id < ps.len() && !ps[id].has_folded
            && ps[id].total_contribution >= levels_from(ps, 0)[k]
            implies #[trigger] pots_from(ps, 0)[k].eligible_players.contains(id as u8) by {
        lemma_eligible_at(ps, levels_from(ps, 0)[k], n);
    }
}

fn next_level_of(players: &Vec<Player>, prev: u32) -> (l: u32)
    ensures
        l == next_level(players@, prev as int),
{
    let mut m: u32 = 0;
    let mut i: usize = 0;
    while i < players.len()
        invariant
            0 <= i <= players.len(),
            m == level_above(players@, prev as int, i as int),
        decreases players.len() - i,
    {
        let c = players[i].total_contribution;
        if c > prev && (m == 0 || c < m) {
            m = c;
        }
        i = i + 1;
    }
    m
}

fn count_contributors(players: &Vec<Player>, level: u32) -> (r: u32)
    requires
        players.len() < 256,
    ensures
        r == contributors_at(players@, level as int, players.len() as int),
{
    let mut r: u32 = 0;
    let mut i: usize = 0;
    while i < players.len()
        invariant
            0 <= i <= players.len(),
            players.len() < 256,
            r == contributors_at(players@, level as int, i as int),
            r <= i,
        decreases players.len() - i,
    {
        if players[i].total_contribution >= level {
            r = r + 1;
        }
        i = i + 1;
    }
    r
}

fn eligible_players_at(players: &Vec<Player>, level: u32) -> (r: Vec<u8>)
    requires
        players.len() < 256,
    ensures
        r@ == eligible_at(players@, level as int, players.len() as int),
{
    let mut r: Vec<u8> = Vec::new();
    let mut i: usize = 0;
    while i < players.len()
        invariant
            0 <= i <= players.len(),
            players.len() < 256,
            r@ == eligible_at(players@, level as int, i as int),
        decreases players.len() - i,
    {
        if players[i].total_contribution >= level && !players[i].has_folded {
            r.push(i as u8);
        }
        i = i + 1;
    }
    r
}

/// Splits what the players put in into pots, smallest contribution level first.
pub fn compute_pots(players: &Vec<Player>) -> (pots: Vec<Pot>)
    requires
        players.len() < 256,
        sum_contributions(players@) <= u32::MAX,
    ensures
        pots.len() == pots_from(players@, 0).len(),
        forall|k: int| 0 <= k < pots.len() ==> #[trigger] pots@[k]@ == pots_from(players@, 0)[k],
{
    let ghost ps = players@;
    let ghost n = ps.len() as int;
    proof {
        lemma_excess_bounds(ps, 0, n);
        assert(ps.subrange(0, n) =~= ps);
    }
    let mut pots: Vec<Pot> = Vec::new();
    let mut prev: u32 = 0;
    let ghost mut built: Seq<PotModel> = Seq::empty();
    loop
        invariant
            players@ == ps,
            n == ps.len(),
            n < 256,
            excess(ps, 0, n) <= u32::MAX,
            built + pots_from(ps, prev as int) == pots_from(ps, 0),
            pots.len() == built.len(),
            forall|k: int| 0 <= k < pots.len() ==> #[trigger] pots@[k]@ == built[k],
        ensures
            pots.len() == built.len(),
            forall|k: int| 0 <= k < pots.len() ==> #[trigger] pots@[k]@ == built[k],
            built == pots_from(ps, 0),
        decreases u32::MAX - prev,
    {
        let l = next_level_of(players, prev);
        proof {
            lemma_level_above(ps, prev as int, n);
        }
        if l == 0 {
            assert(pots_from(ps, prev as int) =~= Seq::empty());
            assert(built =~= pots_from(ps, 0));
            break;
        }
        let count = count_contributors(players, l);
        proof {
            lemma_excess_step(ps, prev as int, l as int, n);
            lemma_excess_bounds(ps, prev as int, n);
            lemma_excess_bounds(ps, l as int, n);
            assert((l - prev) * count >= 0) by (nonlinear_arith)
                requires
                    l > prev,
            ;
        }
        let money = (l - prev) * count;
        let eligible_players = eligible_players_at(players, l);
        let pot = Pot { money, eligible_players };
        let ghost pm = PotModel {
            money: ((l - prev) * contributors_at(ps, l as int, n)) as u32,
            eligible_players: eligible_at(ps, l as int, n),
        };
        assert(pot@ == pm);
        proof {
            assert(pots_from(ps, prev as int) == seq![pm] + pots_from(ps, l as int));
            assert(built.push(pm) + pots_from(ps, l as int) =~= built + pots_from(ps, prev as int));
            built = built.push(pm);
        }
        pots.push(pot);
        prev = l;
    }
    pots
}

// ---------------------------------------------------------------------
// The game.
// ---------------------------------------------------------------------

/// A betting action: any `AddMoney` is a call, bet, raise or all-in.
#[derive(Debug, Clone, Copy, PartialEq, Eq, Structural)]
pub enum PlayerAction {
    Fold,
    Check,
    AddMoney(u32),
}

/// A hand shown at showdown: the seat, its private cards, its best five cards and their rank.
#[derive(Debug, Clone)]
pub struct ShowdownHand {
    pub player: u8,
    pub private_cards: [Card; 2],
    pub best_cards: [Card; 5],
    pub rank: HandRank,
}

#[derive(Debug, Clone)]
pub enum Event {
    PlayerAction(u8, PlayerAction),
    OwnedMoneyChange(u8, u32),
    NextPlayer(u8),
    UpdateCurrentBet(u32),
    UpdatePots(Vec<Pot>),
    RevealFlop([Card; 3]),
    RevealTurn(Card),
    RevealRiver(Card),
    Showdown(Vec<ShowdownHand>),
}

/// One hand of poker. `current_phase` is 0..=4: preflop, flop, turn, river, showdown.
pub struct Game {
    pub players: Vec<Player>,
    pub current_bet: u32,
    pub current_phase: u8,
    pub current_turn: u8,
    pub last_bettor: u8,
    pub public_cards: [Card; 5],
}

pub open spec fn seven_cards_of(p: Player, public_cards: [Card; 5]) -> Seq<Card> {
    p.private_cards@ + public_cards@
}

impl Game {
    pub open spec fn wf(self) -> bool {
        let ps = self.players@;
        &&& 2 <= ps.len() < 255
        &&& self.current_turn < ps.len()
        &&& self.last_bettor < ps.len()
        &&& self.current_phase <= 4
        &&& table_total(ps) <= u32::MAX
        &&& forall|i: int|
            0 <= i < ps.len() ==> all_wf(#[trigger] seven_cards_of(ps[i], self.public_cards))
                && all_distinct(seven_cards_of(ps[i], self.public_cards))
    }
}

pub open spec fn is_active(p: Player) -> bool {
    !p.has_folded && p.money > 0
}

/// How many players can still act: not folded, money left.
pub open spec fn active_count(ps: Seq<Player>) -> nat
    decreases ps.len(),
{
    if ps.len() == 0 {
        0
    } else {
        active_count(ps.drop_last()) + if is_active(ps.last()) {
            1nat
        } else {
            0nat
        }
    }
}

/// The seat `k` places after `t` round a table of `n` (for `0 <= k <= n`).
pub open spec fn seat_after(t: int, k: int, n: int) -> int {
    if t + k < n {
        t + k
    } else {
        t + k - n
    }
}

pub open spec fn next_active_from(ps: Seq<Player>, t: int, k: int) -> int
    decreases ps.len() + 1 - k,
{
    if k < 1 || k > ps.len() {
        t
    } else if is_active(ps[seat_after(t, k, ps.len() as int)]) {
        seat_after(t, k, ps.len() as int)
    } else {
        next_active_from(ps, t, k + 1)
    }
}

/// The first seat after `t`, going round, whose player can act.
pub open spec fn next_active(ps: Seq<Player>, t: int) -> int {
    next_active_from(ps, t, 1)
}

/// How many places on from `from` the seat `to` is, in `1..=n`.
pub open spec fn seat_distance(from: int, to: int, n: int) -> int {
    if to > from {
        to - from
    } else {
        to + n - from
    }
}

/// Moving the turn from `t` to `next` reaches or passes the last bettor.
pub open spec fn round_closes(t: int, last_bettor: int, next: int, n: int) -> bool {
    seat_distance(t, last_bettor, n) <= seat_distance(t, next, n)
}

pub open spec fn action_legal(g: Game, a: PlayerAction) -> bool {
    let p = g.players@[g.current_turn as int];
    g.current_phase < 4 && match a {
        PlayerAction::Fold => true,
        PlayerAction::Check => p.total_contribution >= g.current_bet || p.money == 0,
        PlayerAction::AddMoney(m) => m > 0 && m <= p.money && (p.total_contribution + m
            >= g.current_bet || m == p.money),
    }
}

pub open spec fn apply_action(p: Player, a: PlayerAction) -> Player {
    match a {
        PlayerAction::Fold => Player { has_folded: true, ..p },
        PlayerAction::Check => p,
        PlayerAction::AddMoney(m) => Player {
            money: (p.money - m) as u32,
            total_contribution: (p.total_contribution + m) as u32,
            ..p
        },
    }
}

/// The players once the acting player's action is applied.
pub open spec fn players_after(g: Game, a: PlayerAction) -> Seq<Player> {
    g.players@.update(
        g.current_turn as int,
        apply_action(g.players@[g.current_turn as int], a),
    )
}

pub open spec fn bet_after(g: Game, a: PlayerAction) -> u32 {
    match a {
        PlayerAction::AddMoney(m) => {
            let c = g.players@[g.current_turn as int].total_contribution + m;
            if c > g.current_bet {
                c as u32
            } else {
                g.current_bet
            }
        },
        _ => g.current_bet,
    }
}

/// Whoever puts money in becomes the last bettor.
pub open spec fn bettor_after(g: Game, a: PlayerAction) -> u8 {
    match a {
        PlayerAction::AddMoney(_) => g.current_turn,
        _ => g.last_bettor,
    }
}

/// The action goes straight to showdown: at most one player can still act.
pub open spec fn ends_hand(g: Game, a: PlayerAction) -> bool {
    active_count(players_after(g, a)) <= 1
}

pub open spec fn closes_round(g: Game, a: PlayerAction) -> bool {
    let ps = players_after(g, a);
    round_closes(
        g.current_turn as int,
        bettor_after(g, a) as int,
        next_active(ps, g.current_turn as int),
        ps.len() as int,
    )
}

/// How many events describe the action itself, before the pots.
pub open spec fn action_event_count(a: PlayerAction) -> int {
    match a {
        PlayerAction::AddMoney(_) => 3,
        _ => 1,
    }
}

/// `h` shows seat `id` of `g`: its cards, and its best five of seven with their rank.
pub open spec fn shows_hand(g: Game, h: ShowdownHand, id: int) -> bool {
    let seven = seven_cards_of(g.players@[id], g.public_cards);
    &&& h.player == id
    &&& h.private_cards == g.players@[id].private_cards
    &&& is_five_of(seven, h.best_cards@)
    &&& h.rank@ == hand_rank_of(h.best_cards@)
    &&& h.rank@.wf()
    &&& forall|a: int, b: int|
        0 <= a < b < 7 ==> hand_order(hand_rank_of(omit_two(seven, a, b)), h.rank@)
            != Ordering::Greater
}

/// The seats among the first `n` that have not folded.
pub open spec fn seats_in_hand(ps: Seq<Player>, n: int) -> Seq<u8>
    decreases n,
{
    if n <= 0 {
        Seq::empty()
    } else if !ps[n - 1].has_folded {
        seats_in_hand(ps, n - 1).push((n - 1) as u8)
    } else {
        seats_in_hand(ps, n - 1)
    }
}

/// `hands` shows, in seat order, every player of `g` still in the hand.
pub open spec fn shows_all_hands(g: Game, hands: Seq<ShowdownHand>) -> bool {
    let seats = seats_in_hand(g.players@, g.players@.len() as int);
    &&& hands.len() == seats.len()
    &&& forall|j: int| 0 <= j < hands.len() ==> shows_hand(g, #[trigger] hands[j], seats[j] as int)
}

pub open spec fn pots_are(pots: Vec<Pot>, ps: Seq<Player>) -> bool {
    &&& pots.len() == pots_from(ps, 0).len()
    &&& forall|k: int| 0 <= k < pots.len() ==> #[trigger] pots@[k]@ == pots_from(ps, 0)[k]
}

proof fn lemma_active_count(ps: Seq<Player>)
    ensures
        active_count(ps) <= ps.len(),
    decreases ps.len(),
{
    if ps.len() > 0 {
        lemma_active_count(ps.drop_last());
    }
}

fn count_active(players: &Vec<Player>) -> (r: usize)
    ensures
        r == active_count(players@),
{
    let mut r: usize = 0;
    let mut i: usize = 0;
    while i < players.len()
        invariant
            0 <= i <= players.len(),
            r == active_count(players@.subrange(0, i as int)),
            r <= i,
        decreases players.len() - i,
    {
        assert(players@.subrange(0, i + 1).drop_last() =~= players@.subrange(0, i as int));
        if !players[i].has_folded && players[i].money > 0 {
            r = r + 1;
        }
        i = i + 1;
    }
    assert(players@.subrange(0, players.len() as int) =~= players@);
    r
}

fn find_next_active(players: &Vec<Player>, t: usize) -> (r: usize)
    requires
        t < players.len(),
        players.len() < 255,
    ensures
        r == next_active(players@, t as int),
        r < players.len(),
{
    let n = players.len();
    let mut k: usize = 1;
    while k <= n
        invariant
            1 <= k <= n + 1,
            n == players.len(),
            n < 255,
            t < n,
            next_active(players@, t as int) == next_active_from(players@, t as int, k as int),
        decreases n + 1 - k,
    {
        let s = if t + k < n {
            t + k
        } else {
            t + k - n
        };
        if !players[s].has_folded && players[s].money > 0 {
            return s;
        }
        k = k + 1;
    }
    t
}

fn distance(from: usize, to: usize, n: usize) -> (r: usize)
    requires
        from < n,
        to < n,
        n < 255,
    ensures
        r == seat_distance(from as int, to as int, n as int),
{
    if to > from {
        to - from
    } else {
        to + n - from
    }
}

/// `g1` and `events` are what a legal `action` on `g` gives: the players
/// after it, the bet, the turn and phase that follow, and the events that
/// say so, in order.
pub open spec fn advance_post(g: Game, action: PlayerAction, g1: Game, events: Seq<Event>) -> bool {
    let t = g.current_turn;
    let ps = players_after(g, action);
    let nx = next_active(ps, t as int);
    let k = action_event_count(action);
    &&& g1.wf()
    &&& table_total(g1.players@) == table_total(g.players@)
    &&& g1.players@ == ps
    &&& g1.public_cards == g.public_cards
    &&& g1.current_bet == bet_after(g, action)
    &&& ends_hand(g, action) ==> {
        &&& g1.current_phase == 4
        &&& g1.current_turn == t
        &&& g1.last_bettor == bettor_after(g, action)
    }
    &&& !ends_hand(g, action) ==> {
        &&& g1.current_turn == nx
        &&& closes_round(g, action) ==> g1.current_phase == g.current_phase + 1
            && g1.last_bettor == nx
        &&& !closes_round(g, action) ==> g1.current_phase == g.current_phase
            && g1.last_bettor == bettor_after(g, action)
    }
    // what the action itself did
    &&& match action {
        PlayerAction::AddMoney(m) => {
            &&& events[0] == Event::UpdateCurrentBet(bet_after(g, action))
            &&& events[1] == Event::OwnedMoneyChange(t, ps[t as int].money)
            &&& events[2] == Event::PlayerAction(t, action)
        },
        _ => events[0] == Event::PlayerAction(t, action),
    }
    // the pots as they now stand
    &&& events.len() > k
    &&& (events[k] matches Event::UpdatePots(pots) && pots_are(pots, ps))
    // then showdown, or the board and the next player
    &&& if ends_hand(g, action) || (closes_round(g, action) && g.current_phase == 3) {
        &&& events.len() == k + 2
        &&& (events[k + 1] matches Event::Showdown(hands) && shows_all_hands(
            g1,
            hands@,
        ))
    } else if closes_round(g, action) {
        &&& events.len() == k + 3
        &&& g.current_phase == 0 ==> (events[k + 1] matches Event::RevealFlop(cards)
            && cards@ == g.public_cards@.subrange(0, 3))
        &&& g.current_phase == 1 ==> events[k + 1] == Event::RevealTurn(
            g.public_cards[3],
        )
        &&& g.current_phase == 2 ==> events[k + 1] == Event::RevealRiver(
            g.public_cards[4],
        )
        &&& events[k + 2] == Event::NextPlayer(nx as u8)
    } else {
        &&& events.len() == k + 2
        &&& events[k + 1] == Event::NextPlayer(nx as u8)
    }
}

/// `g1` and `events` are what folding seat `seat` of `g` out of turn gives:
/// the seat is folded, the pots are announced, and the hand goes to
/// showdown when at most one player can still act.
pub open spec fn fold_post(g: Game, seat: int, g1: Game, events: Seq<Event>) -> bool {
    let ps = g.players@.update(seat, Player { has_folded: true, ..g.players@[seat] });
    &&& g1.wf()
    &&& g1.players@ == ps
    &&& g1.public_cards == g.public_cards
    &&& g1.current_bet == g.current_bet
    &&& g1.current_turn == g.current_turn
    &&& g1.last_bettor == g.last_bettor
    &&& g1.current_phase == if active_count(ps) <= 1 {
        4
    } else {
        g.current_phase
    }
    &&& events.len() >= 2
    &&& events[0] == Event::PlayerAction(seat as u8, PlayerAction::Fold)
    &&& (events[1] matches Event::UpdatePots(pots) && pots_are(pots, ps))
    &&& if active_count(ps) <= 1 {
        &&& events.len() == 3
        &&& (events[2] matches Event::Showdown(hands) && shows_all_hands(g1, hands@))
    } else {
        events.len() == 2
    }
}

impl Game {
    /// Folds a seat that is not on turn, as when its player leaves; goes to
    /// showdown when at most one player can still act.
    pub fn fold_out(&mut self, seat: usize) -> (events: Vec<Event>)
        requires
            old(self).wf(),
            old(self).current_phase < 4,
            seat < old(self).players.len(),
        ensures
            fold_post(*old(self), seat as int, *final(self), events@),
    {
        let ghost g = *self;
        let p = self.players[seat];
        let q = Player { has_folded: true, ..p };
        proof {
            lemma_sums_nonneg(self.players@);
            lemma_sums_update(self.players@, seat as int, q);
        }
        self.players.set(seat, q);
        assert forall|i: int| 0 <= i < self.players@.len() implies seven_cards_of(
            #[trigger] self.players@[i],
            self.public_cards,
        ) == seven_cards_of(g.players@[i], g.public_cards) by {}
        assert(self.wf());
        proof {
            lemma_sums_nonneg(self.players@);
        }
        let mut events: Vec<Event> = Vec::new();
        events.push(Event::PlayerAction(seat as u8, PlayerAction::Fold));
        events.push(Event::UpdatePots(compute_pots(&self.players)));
        if count_active(&self.players) <= 1 {
            self.current_phase = 4;
            events.push(Event::Showdown(self.get_showdown_info()));
        }
        events
    }
}

impl Game {
    /// Shows the hand of every player who has not folded, in seat order.
    pub fn get_showdown_info(&self) -> (hands: Vec<ShowdownHand>)
        requires
            self.wf(),
        ensures
            shows_all_hands(*self, hands@),
    {
        let mut hands: Vec<ShowdownHand> = Vec::new();
        let mut i: usize = 0;
        while i < self.players.len()
            invariant
                self.wf(),
                0 <= i <= self.players.len(),
                hands.len() == seats_in_hand(self.players@, i as int).len(),
                forall|j: int|
                    0 <= j < hands.len() ==> shows_hand(
                        *self,
                        #[trigger] hands@[j],
                        seats_in_hand(self.players@, i as int)[j] as int,
                    ),
            decreases self.players.len() - i,
        {
            let p = self.players[i];
            if !p.has_folded {
                let pc = self.public_cards;
                let seven = [p.private_cards[0], p.private_cards[1], pc[0], pc[1], pc[2], pc[3], pc[4]];
                assert(seven@ =~= seven_cards_of(self.players@[i as int], self.public_cards));
                let (best_cards, rank) = get_best_hand(&seven);
                let h = ShowdownHand { player: i as u8, private_cards: p.private_cards, best_cards, rank };
                let ghost before = hands@;
                hands.push(h);
                assert forall|j: int| 0 <= j < hands.len() implies shows_hand(
                    *self,
                    #[trigger] hands@[j],
                    seats_in_hand(self.players@, i + 1)[j] as int,
                ) by {
                    if j < before.len() {
                        assert(hands@[j] == before[j]);
                    }
                }
            }
            i = i + 1;
        }
        hands
    }

    /// Applies the acting player's action. An illegal action, or any action
    /// once the hand has reached showdown, changes nothing and gives `None`.
    pub fn advance_game(&mut self, action: PlayerAction) -> (r: Option<Vec<Event>>)
        requires
            old(self).wf(),
        ensures
            final(self).wf(),
            table_total(final(self).players@) == table_total(old(self).players@),
            r is None <==> !action_legal(*old(self), action),
            r is None ==> *final(self) == *old(self),
            r is Some ==> advance_post(*old(self), action, *final(self), r->0@),
    {
        let t = self.current_turn as usize;
        let p = self.players[t];
        let mut events: Vec<Event> = Vec::new();
        if self.current_phase >= 4 {
            return None;
        }
        let ghost g = *self;
        proof {
            lemma_sums_nonneg(self.players@);
            lemma_sums_update(self.players@, t as int, apply_action(p, action));
        }
        match action {
            PlayerAction::AddMoney(money) => {
                if money == 0 || money > p.money {
                    return None;
                }
                if p.total_contribution + money < self.current_bet && money != p.money {
                    return None;
                }
                let contribution = p.total_contribution + money;
                if contribution > self.current_bet {
                    self.current_bet = contribution;
                }
                self.last_bettor = self.current_turn;
                let q = Player { money: p.money - money, total_contribution: contribution, ..p };
                self.players.set(t, q);
                events.push(Event::UpdateCurrentBet(self.current_bet));
                events.push(Event::OwnedMoneyChange(self.current_turn, q.money));
                events.push(Event::PlayerAction(self.current_turn, action));
            },
            PlayerAction::Fold => {
                let q = Player { has_folded: true, ..p };
                self.players.set(t, q);
                events.push(Event::PlayerAction(self.current_turn, action));
            },
            PlayerAction::Check => {
                if self.current_bet > p.total_contribution && p.money != 0 {
                    return None;
                }
                events.push(Event::PlayerAction(self.current_turn, action));
            },
        }
        assert(self.players@ =~= players_after(g, action));
        assert forall|i: int| 0 <= i < self.players@.len() implies seven_cards_of(
            #[trigger] self.players@[i],
            self.public_cards,
        ) == seven_cards_of(g.players@[i], g.public_cards) by {}
        assert(self.wf());
        events.push(Event::UpdatePots(compute_pots(&self.players)));
        if count_active(&self.players) <= 1 {
            self.current_phase = 4;
            events.push(Event::Showdown(self.get_showdown_info()));
            return Some(events);
        }
        let n = self.players.len();
        let next = find_next_active(&self.players, t);
        let closes = distance(t, self.last_bettor as usize, n) <= distance(t, next, n);
        self.current_turn = next as u8;
        if closes {
            self.last_bettor = next as u8;
            self.current_phase = self.current_phase + 1;
            if self.current_phase == 1 {
                let pc = self.public_cards;
                let flop = [pc[0], pc[1], pc[2]];
                assert(flop@ =~= pc@.subrange(0, 3));
                events.push(Event::RevealFlop(flop));
            } else if self.current_phase == 2 {
                events.push(Event::RevealTurn(self.public_cards[3]));
            } else if self.current_phase == 3 {
                events.push(Event::RevealRiver(self.public_cards[4]));
            } else {
                events.push(Event::Showdown(self.get_showdown_info()));
                return Some(events);
            }
        }
        events.push(Event::NextPlayer(next as u8));
        Some(events)
    }
}

// ---------------------------------------------------------------------
// Dealing a new hand.
// ---------------------------------------------------------------------

/// The forced bet of each seat: 5 for seat 1, 10 for seat 2.
pub open spec fn blind_of(seat: int) -> u32 {
    if seat == 1 {
        5
    } else if seat == 2 {
        10
    } else {
        0
    }
}

proof fn lemma_seat_money_grows(lobby: Seq<(u8, u32)>, a: int, b: int)
    requires
        0 <= a <= b,
    ensures
        seat_money(lobby, a) <= seat_money(lobby, b),
    decreases b - a,
{
    if a < b {
        lemma_seat_money_grows(lobby, a, b - 1);
    }
}

/// How many of the first `k` entries name seat `seat`.
pub open spec fn id_count(lobby: Seq<(u8, u32)>, seat: int, k: int) -> nat
    decreases k,
{
    if k <= 0 {
        0
    } else {
        id_count(lobby, seat, k - 1) + if lobby[k - 1].0 == seat {
            1nat
        } else {
            0nat
        }
    }
}

/// The index of the first entry from `k` on that names seat `seat`, or the length.
pub open spec fn entry_of(lobby: Seq<(u8, u32)>, seat: int, k: int) -> int
    decreases lobby.len() - k,
{
    if k < 0 || k >= lobby.len() {
        lobby.len() as int
    } else if lobby[k].0 == seat {
        k
    } else {
        entry_of(lobby, seat, k + 1)
    }
}

/// The money listed for seat `seat`.
pub open spec fn money_of(lobby: Seq<(u8, u32)>, seat: int) -> u32 {
    lobby[entry_of(lobby, seat, 0)].1
}

/// The money listed for seats `0..n`.
pub open spec fn seat_money(lobby: Seq<(u8, u32)>, n: int) -> int
    decreases n,
{
    if n <= 0 {
        0
    } else {
        seat_money(lobby, n - 1) + money_of(lobby, n - 1)
    }
}

/// A lobby that can start a hand: three or more players (23 at most, as a
/// deck deals to no more), their seats exactly `0..n` in any order, each
/// with more than 10, and no more money in all than a `u32` holds.
pub open spec fn lobby_ok(lobby: Seq<(u8, u32)>) -> bool {
    let n = lobby.len() as int;
    &&& 3 <= n <= 23
    &&& forall|seat: int| 0 <= seat < n ==> #[trigger] id_count(lobby, seat, n) == 1
    &&& forall|i: int| 0 <= i < n ==> (#[trigger] lobby[i]).1 > 10
    &&& seat_money(lobby, n) <= u32::MAX
}

proof fn lemma_entry_found(lobby: Seq<(u8, u32)>, seat: int, k: int)
    requires
        0 <= k <= lobby.len(),
        id_count(lobby, seat, k) > 0,
    ensures
        0 <= entry_of(lobby, seat, 0) < k,
        lobby[entry_of(lobby, seat, 0)].0 == seat,
    decreases k,
{
    if id_count(lobby, seat, k - 1) > 0 {
        lemma_entry_found(lobby, seat, k - 1);
    } else {
        lemma_entry_none(lobby, seat, k - 1);
        lemma_entry_from(lobby, seat, 0, k - 1);
    }
}

proof fn lemma_entry_none(lobby: Seq<(u8, u32)>, seat: int, k: int)
    requires
        0 <= k <= lobby.len(),
        id_count(lobby, seat, k) == 0,
    ensures
        forall|i: int| 0 <= i < k ==> lobby[i].0 != seat,
    decreases k,
{
    if k > 0 {
        lemma_entry_none(lobby, seat, k - 1);
    }
}

proof fn lemma_entry_from(lobby: Seq<(u8, u32)>, seat: int, a: int, b: int)
    requires
        0 <= a <= b < lobby.len(),
        forall|i: int| a <= i < b ==> lobby[i].0 != seat,
        lobby[b].0 == seat,
    ensures
        entry_of(lobby, seat, a) == b,
    decreases b - a,
{
    if a < b {
        lemma_entry_from(lobby, seat, a + 1, b);
    }
}

/// How many entries name `seat`, and the money of the first that does.
fn find_seat(lobby: &Vec<(u8, u32)>, seat: usize) -> (r: (usize, u32))
    ensures
        r.0 == id_count(lobby@, seat as int, lobby.len() as int),
        r.0 > 0 ==> r.1 == money_of(lobby@, seat as int),
{
    let mut count: usize = 0;
    let mut money: u32 = 0;
    let mut i: usize = 0;
    while i < lobby.len()
        invariant
            0 <= i <= lobby.len(),
            count == id_count(lobby@, seat as int, i as int),
            count <= i,
            count > 0 ==> money == money_of(lobby@, seat as int),
        decreases lobby.len() - i,
    {
        if lobby[i].0 as usize == seat {
            if count == 0 {
                proof {
                    lemma_entry_none(lobby@, seat as int, i as int);
                    lemma_entry_from(lobby@, seat as int, 0, i as int);
                }
                money = lobby[i].1;
            }
            count = count + 1;
        }
        i = i + 1;
    }
    (count, money)
}

/// The first `2n + 5` cards of the deck are valid and distinct.
pub open spec fn deck_ok(deck: Seq<Card>, n: int) -> bool {
    &&& 2 * n + 5 <= deck.len()
    &&& all_wf(deck.subrange(0, 2 * n + 5))
    &&& all_distinct(deck.subrange(0, 2 * n + 5))
}

/// `g` is the hand dealt to `lobby` from `deck`: seat `i` gets cards `2i`
/// and `2i + 1`, the board the next five; seats 1 and 2 post their blinds,
/// and seat 3 (round the table) acts first.
pub open spec fn dealt_from(g: Game, lobby: Seq<(u8, u32)>, deck: Seq<Card>) -> bool {
    let n = lobby.len() as int;
    &&& g.players@.len() == n
    &&& forall|i: int|
        0 <= i < n ==> {
            let p = #[trigger] g.players@[i];
            &&& p.money == money_of(lobby, i) - blind_of(i)
            &&& p.total_contribution == blind_of(i)
            &&& p.private_cards@ == seq![deck[2 * i], deck[2 * i + 1]]
            &&& !p.has_folded
        }
    &&& g.public_cards@ == deck.subrange(2 * n, 2 * n + 5)
    &&& g.current_bet == 10
    &&& g.current_phase == 0
    &&& g.current_turn == 3int % n
    &&& g.last_bettor == 2
}

fn cards_valid_and_distinct(deck: &Vec<Card>, len: usize) -> (r: bool)
    requires
        len <= deck.len(),
    ensures
        r == (all_wf(deck@.subrange(0, len as int)) && all_distinct(deck@.subrange(0, len as int))),
{
    let ghost s = deck@.subrange(0, len as int);
    let mut i: usize = 0;
    while i < len
        invariant
            0 <= i <= len <= deck.len(),
            s == deck@.subrange(0, len as int),
            forall|a: int| 0 <= a < i ==> (#[trigger] s[a]).wf(),
            forall|a: int, b: int| 0 <= a < b < len && a < i ==> (s[a].rank != s[b].rank || s[a].suit != s[b].suit),
        decreases len - i,
    {
        if deck[i].rank >= 13 || deck[i].suit >= 4 {
            assert(s[i as int] == deck@[i as int]);
            assert(!s[i as int].wf());
            return false;
        }
        let mut j: usize = i + 1;
        while j < len
            invariant
                0 <= i < j <= len,
                len <= deck.len(),
                s == deck@.subrange(0, len as int),
                forall|b: int| i < b < j ==> (s[i as int].rank != s[b].rank || s[i as int].suit != s[b].suit),
            decreases len - j,
        {
            if deck[i].rank == deck[j].rank && deck[i].suit == deck[j].suit {
                assert(s[i as int] == deck@[i as int] && s[j as int] == deck@[j as int]);
                assert(!all_distinct(s));
                return false;
            }
            j = j + 1;
        }
        i = i + 1;
    }
    true
}

/// Deals a hand to `lobby_players` (seat, money) from `deck`. Gives `None`
/// unless the lobby can start a hand and the cards dealt are valid and distinct.
pub fn deal_game(lobby_players: Vec<(u8, u32)>, deck: &Vec<Card>) -> (r: Option<Game>)
    ensures
        r is Some <==> lobby_ok(lobby_players@) && deck_ok(deck@, lobby_players@.len() as int),
        r is Some ==> r->0.wf() && dealt_from(r->0, lobby_players@, deck@),
{
    let n = lobby_players.len();
    if n < 3 || n > 23 {
        return None;
    }
    let mut i: usize = 0;
    while i < n
        invariant
            0 <= i <= n,
            n == lobby_players.len(),
            forall|a: int| 0 <= a < i ==> (#[trigger] lobby_players@[a]).1 > 10,
        decreases n - i,
    {
        if lobby_players[i].1 <= 10 {
            return None;
        }
        i = i + 1;
    }
    let mut seat_moneys: Vec<u32> = Vec::new();
    let mut total: u64 = 0;
    let mut seat: usize = 0;
    while seat < n
        invariant
            0 <= seat <= n <= 23,
            n == lobby_players.len(),
            seat_moneys.len() == seat,
            total == seat_money(lobby_players@, seat as int),
            total <= 0xffff_ffff,
            forall|a: int| 0 <= a < seat ==> #[trigger] id_count(lobby_players@, a, n as int) == 1,
            forall|a: int| 0 <= a < seat ==> #[trigger] seat_moneys@[a] == money_of(lobby_players@, a),
        decreases n - seat,
    {
        let (count, money) = find_seat(&lobby_players, seat);
        if count != 1 {
            return None;
        }
        total = total + money as u64;
        if total > 0xffff_ffff {
            proof {
                lemma_seat_money_grows(lobby_players@, seat as int + 1, n as int);
            }
            return None;
        }
        seat_moneys.push(money);
        seat = seat + 1;
    }
    if deck.len() < 2 * n + 5 {
        return None;
    }
    if !cards_valid_and_distinct(deck, 2 * n + 5) {
        return None;
    }
    let ghost d = deck@.subrange(0, 2 * n + 5);
    let public_cards = [deck[2 * n], deck[2 * n + 1], deck[2 * n + 2], deck[2 * n + 3], deck[2 * n + 4]];
    assert(public_cards@ =~= deck@.subrange(2 * n, 2 * n + 5));
    let mut players: Vec<Player> = Vec::new();
    let mut i: usize = 0;
    while i < n
        invariant
            0 <= i <= n,
            n == lobby_players.len(),
            3 <= n <= 23,
            2 * n + 5 <= deck.len(),
            lobby_ok(lobby_players@),
            deck_ok(deck@, n as int),
            d == deck@.subrange(0, 2 * n + 5),
            public_cards@ == deck@.subrange(2 * n, 2 * n + 5),
            players.len() == i,
            table_total(players@) == seat_money(lobby_players@, i as int),
            seat_moneys.len() == n,
            forall|a: int| 0 <= a < n ==> #[trigger] seat_moneys@[a] == money_of(lobby_players@, a),
            forall|a: int|
                0 <= a < i ==> {
                    let p = #[trigger] players@[a];
                    &&& p.money == money_of(lobby_players@, a) - blind_of(a)
                    &&& p.total_contribution == blind_of(a)
                    &&& p.private_cards@ == seq![deck@[2 * a], deck@[2 * a + 1]]
                    &&& !p.has_folded
                },
        decreases n - i,
    {
        let money = seat_moneys[i];
        proof {
            lemma_entry_found(lobby_players@, i as int, n as int);
        }
        let blind: u32 = if i == 1 {
            5
        } else if i == 2 {
            10
        } else {
            0
        };
        let private_cards = [deck[2 * i], deck[2 * i + 1]];
        assert(private_cards@ =~= seq![deck@[2 * i], deck@[2 * i + 1]]);
        let p = Player { money: money - blind, total_contribution: blind, private_cards, has_folded: false };
        let ghost before = players@;
        players.push(p);
        assert(players@.drop_last() =~= before);
        assert(lobby_players@.subrange(0, i + 1).drop_last() =~= lobby_players@.subrange(0, i as int));
        i = i + 1;
    }
    assert(lobby_players@.subrange(0, n as int) =~= lobby_players@);
    let g = Game {
        players,
        current_bet: 10,
        current_phase: 0,
        current_turn: (3 % n) as u8,
        last_bettor: 2,
        public_cards,
    };
    assert forall|k: int| 0 <= k < n implies all_wf(#[trigger] seven_cards_of(g.players@[k], public_cards))
        && all_distinct(seven_cards_of(g.players@[k], public_cards)) by {
        let seven = seven_cards_of(g.players@[k], public_cards);
        let idx = |j: int| if j < 2 { 2 * k + j } else { 2 * n + j - 2 };
        assert forall|j: int| 0 <= j < 7 implies seven[j] == d[idx(j)] by {}
        assert forall|a: int, b: int| 0 <= a < b < 7 implies (seven[a].rank != seven[b].rank
            || seven[a].suit != seven[b].suit) by {
            assert(idx(a) < idx(b));
        }
    }
    Some(g)
}

/// Relies on rand's `SliceRandom::shuffle` with the thread-local generator,
/// a Fisher-Yates shuffle made of swaps: the same cards come back, in some order.
#[verifier::external_body]
fn shuffle_cards(deck: &mut Vec<Card>)
    ensures
        final(deck)@.to_multiset() == old(deck)@.to_multiset(),
        final(deck)@.len() == old(deck)@.len(),
{
    deck.shuffle(&mut rand::thread_rng());
}

/// The 52 cards, each once.
pub fn full_deck() -> (deck: Vec<Card>)
    ensures
        deck@.len() == 52,
        all_wf(deck@),
        all_distinct(deck@),
{
    let mut deck: Vec<Card> = Vec::new();
    let mut suit: u8 = 0;
    while suit < 4
        invariant
            0 <= suit <= 4,
            deck@.len() == suit * 13,
            forall|j: int| 0 <= j < deck@.len() ==> (#[trigger] deck@[j]).wf() && deck@[j].suit * 13 + deck@[j].rank == j,
        decreases 4 - suit,
    {
        let mut rank: u8 = 0;
        while rank < 13
            invariant
                0 <= suit < 4,
                0 <= rank <= 13,
                deck@.len() == suit * 13 + rank,
                forall|j: int| 0 <= j < deck@.len() ==> (#[trigger] deck@[j]).wf() && deck@[j].suit * 13 + deck@[j].rank == j,
            decreases 13 - rank,
        {
            deck.push(Card { rank, suit });
            rank = rank + 1;
        }
        suit = suit + 1;
    }
    deck
}

proof fn lemma_distinct_no_duplicates(s: Seq<Card>)
    ensures
        all_distinct(s) <==> s.no_duplicates(),
{
    if all_distinct(s) {
        assert forall|i: int, j: int| 0 <= i < s.len() && 0 <= j < s.len() && i != j implies s[i] != s[j] by {
            if i > j {
                assert(s[j].rank != s[i].rank || s[j].suit != s[i].suit);
            }
        }
    }
}

/// Shuffles a full deck and deals a hand to `lobby_players` (seat, money);
/// `None` when the lobby cannot start a hand.
pub fn make_game(lobby_players: Vec<(u8, u32)>) -> (r: Option<Game>)
    ensures
        r is Some <==> lobby_ok(lobby_players@),
        r is Some ==> r->0.wf() && exists|deck: Seq<Card>|
            deck.len() == 52 && all_wf(deck) && all_distinct(deck) && dealt_from(
                r->0,
                lobby_players@,
                deck,
            ),
{
    let mut deck = full_deck();
    let ghost fresh = deck@;
    shuffle_cards(&mut deck);
    proof {
        broadcast use vstd::seq_lib::group_to_multiset_ensures;
        lemma_distinct_no_duplicates(fresh);
        fresh.lemma_multiset_has_no_duplicates();
        deck@.lemma_multiset_has_no_duplicates_conv();
        lemma_distinct_no_duplicates(deck@);
        assert forall|i: int| 0 <= i < deck@.len() implies (#[trigger] deck@[i]).wf() by {
            assert(deck@.to_multiset().contains(deck@[i]));
            assert(fresh.to_multiset().contains(deck@[i]));
        }
        let n = lobby_players@.len() as int;
        if 3 <= n <= 23 {
            let pre = deck@.subrange(0, 2 * n + 5);
            assert forall|i: int| 0 <= i < pre.len() implies (#[trigger] pre[i]).wf() by {
                assert(pre[i] == deck@[i]);
            }
            assert forall|a: int, b: int| 0 <= a < b < pre.len() implies (pre[a].rank != pre[b].rank
                || pre[a].suit != pre[b].suit) by {
                assert(pre[a] == deck@[a] && pre[b] == deck@[b]);
            }
        }
    }
    deal_game(lobby_players, &deck)
}

// ---------------------------------------------------------------------
// Splitting winnings.
// ---------------------------------------------------------------------

/// What the `j`-th of `count` winners gets of `winnings`: an even share, plus
/// one unit of the remainder for each of the first `winnings % count`.
pub open spec fn share_of(winnings: int, count: int, j: int) -> int {
    winnings / count + if j < winnings % count {
        1int
    } else {
        0int
    }
}

/// What the first `k` of `count` winners get together.
pub open spec fn shares_upto(winnings: int, count: int, k: int) -> int
    decreases k,
{
    if k <= 0 {
        0
    } else {
        shares_upto(winnings, count, k - 1) + share_of(winnings, count, k - 1)
    }
}

proof fn lemma_shares_upto(winnings: int, count: int, k: int)
    requires
        winnings >= 0,
        count > 0,
        0 <= k <= count,
    ensures
        shares_upto(winnings, count, k) == k * (winnings / count) + if k < winnings % count {
            k
        } else {
            winnings % count
        },
    decreases k,
{
    vstd::arithmetic::div_mod::lemma_mod_pos_bound(winnings, count);
    if k > 0 {
        lemma_shares_upto(winnings, count, k - 1);
        let q = winnings / count;
        assert(k * q == (k - 1) * q + q) by (nonlinear_arith);
    } else {
        assert(0 * (winnings / count) == 0);
    }
}

/// Split among `count` winners, `winnings` is paid out exactly: each gets
/// the even share or one more, and the extra units go to the first winners.
pub proof fn lemma_split_law(winnings: int, count: int)
    requires
        winnings >= 0,
        count > 0,
    ensures
        shares_upto(winnings, count, count) == winnings,
        forall|j: int|
            0 <= j < count ==> winnings / count <= #[trigger] share_of(winnings, count, j)
                <= winnings / count + 1,
        forall|i: int, j: int|
            0 <= i < j < count ==> share_of(winnings, count, i) >= share_of(winnings, count, j),
        forall|k: int| 0 <= k <= count ==> 0 <= #[trigger] shares_upto(winnings, count, k) <= winnings,
{
    lemma_shares_upto(winnings, count, count);
    vstd::arithmetic::div_mod::lemma_fundamental_div_mod(winnings, count);
    assert(0 <= winnings % count < count);
    assert(winnings / count >= 0) by {
        vstd::arithmetic::div_mod::lemma_div_pos_is_pos(winnings, count);
    }
    assert forall|k: int| 0 <= k <= count implies 0 <= #[trigger] shares_upto(winnings, count, k)
        <= winnings by {
        lemma_shares_upto(winnings, count, k);
        let q = winnings / count;
        assert(0 <= k * q <= count * q) by (nonlinear_arith)
            requires
                0 <= k <= count,
                q >= 0,
        ;
    }
}

/// Splits `winnings` among `count` winners in order.
pub fn split_winnings(winnings: u32, count: u32) -> (shares: Vec<u32>)
    requires
        count > 0,
    ensures
        shares.len() == count,
        forall|j: int| 0 <= j < count ==> shares@[j] == share_of(winnings as int, count as int, j),
{
    let even = winnings / count;
    let remainder = winnings % count;
    let mut shares: Vec<u32> = Vec::new();
    let mut j: u32 = 0;
    while j < count
        invariant
            0 <= j <= count,
            count > 0,
            even == winnings / count,
            remainder == winnings % count,
            shares.len() == j,
            forall|i: int| 0 <= i < j ==> shares@[i] == share_of(winnings as int, count as int, i),
        decreases count - j,
    {
        let extra: u32 = if j < remainder {
            1
        } else {
            0
        };
        if extra == 1 {
            assert(even * count + remainder == winnings) by {
                vstd::arithmetic::div_mod::lemma_fundamental_div_mod(winnings as int, count as int);
            }
            assert(even + 1 <= u32::MAX) by (nonlinear_arith)
                requires
                    even * count + remainder == winnings,
                    remainder >= 1,
                    count >= 1,
                    winnings <= u32::MAX,
            ;
        }
        shares.push(even + extra);
        j = j + 1;
    }
    shares
}

// ---------------------------------------------------------------------
// Showdown.
// ---------------------------------------------------------------------

/// One explained unit of pot resolution: a run of adjacent pots
/// (`pot_start_index..=pot_end_index`) won by the same players.
#[derive(Debug, Clone)]
pub struct ShowdownStep {
    /// The seats that share the winnings, in ascending order.
    pub winners: Vec<u8>,
    pub winnings: u32,
    pub pot_start_index: u8,
    pub pot_end_index: u8,
    /// The seats that could win, strongest hand first, equal hands by
    /// ascending seat.
    pub eligible_players: Vec<u8>,
    pub win_reason: ShowdownDecidingFactor,
}

pub struct StepModel {
    pub winners: Seq<u8>,
    pub winnings: u32,
    pub pot_start_index: u8,
    pub pot_end_index: u8,
    pub eligible_players: Seq<u8>,
    pub win_reason: ShowdownDecidingFactor,
}

impl View for ShowdownStep {
    type V = StepModel;

    open spec fn view(&self) -> StepModel {
        StepModel {
            winners: self.winners@,
            winnings: self.winnings,
            pot_start_index: self.pot_start_index,
            pot_end_index: self.pot_end_index,
            eligible_players: self.eligible_players@,
            win_reason: self.win_reason,
        }
    }
}

/// The index in `elig[0..k]` of the first best hand.
pub open spec fn best_in(elig: Seq<u8>, rk: Seq<HandRankModel>, k: int) -> int
    decreases k,
{
    if k <= 1 {
        0
    } else {
        let t = best_in(elig, rk, k - 1);
        if hand_order(rk[elig[k - 1] as int], rk[elig[t] as int]) == Ordering::Greater {
            k - 1
        } else {
            t
        }
    }
}

/// The seats of `elig[0..k]` whose hands tie with `top`, in order.
pub open spec fn tied_with(elig: Seq<u8>, rk: Seq<HandRankModel>, top: HandRankModel, k: int) -> Seq<
    u8,
>
    decreases k,
{
    if k <= 0 {
        Seq::empty()
    } else if hand_order(rk[elig[k - 1] as int], top) == Ordering::Equal {
        tied_with(elig, rk, top, k - 1).push(elig[k - 1])
    } else {
        tied_with(elig, rk, top, k - 1)
    }
}

/// The index in `elig[0..k]` of the first best hand below `top`, or -1.
pub open spec fn runner_up_in(elig: Seq<u8>, rk: Seq<HandRankModel>, top: HandRankModel, k: int) -> int
    decreases k,
{
    if k <= 0 {
        -1
    } else {
        let t = runner_up_in(elig, rk, top, k - 1);
        let e = rk[elig[k - 1] as int];
        if hand_order(e, top) == Ordering::Less && (t < 0 || hand_order(e, rk[elig[t] as int])
            == Ordering::Greater) {
            k - 1
        } else {
            t
        }
    }
}

pub open spec fn all_in(ws: Seq<u8>, elig: Seq<u8>) -> bool {
    forall|j: int| 0 <= j < ws.len() ==> elig.contains(ws[j])
}

/// The last pot from `i` on that the winners `ws` take together: each next
/// pot is merged while all of them can win it, or no one can.
pub open spec fn merge_end(pots: Seq<PotModel>, ws: Seq<u8>, i: int) -> int
    decreases pots.len() - i,
{
    if i < 0 || i + 1 >= pots.len() {
        i
    } else if all_in(ws, pots[i + 1].eligible_players) || pots[i + 1].eligible_players.len() == 0 {
        merge_end(pots, ws, i + 1)
    } else {
        i
    }
}

/// The money of pots `a..=b`.
pub open spec fn money_between(pots: Seq<PotModel>, a: int, b: int) -> int
    decreases b + 1 - a,
{
    if b < a {
        0
    } else {
        money_between(pots, a, b - 1) + pots[b].money
    }
}

pub open spec fn step_top(pots: Seq<PotModel>, rk: Seq<HandRankModel>, i: int) -> HandRankModel {
    let elig = pots[i].eligible_players;
    rk[elig[best_in(elig, rk, elig.len() as int)] as int]
}

pub open spec fn step_winners(pots: Seq<PotModel>, rk: Seq<HandRankModel>, i: int) -> Seq<u8> {
    let elig = pots[i].eligible_players;
    tied_with(elig, rk, step_top(pots, rk, i), elig.len() as int)
}

pub open spec fn step_end(pots: Seq<PotModel>, rk: Seq<HandRankModel>, i: int) -> int {
    merge_end(pots, step_winners(pots, rk, i), i)
}

/// The first position from `j` in `s` whose hand the hand of seat `x`
/// beats, or the length.
pub open spec fn first_beaten(s: Seq<u8>, rk: Seq<HandRankModel>, x: u8, j: int) -> int
    decreases s.len() - j,
{
    if j < 0 || j >= s.len() {
        s.len() as int
    } else if hand_order(rk[x as int], rk[s[j] as int]) == Ordering::Greater {
        j
    } else {
        first_beaten(s, rk, x, j + 1)
    }
}

/// The seats of `elig` by hand strength, strongest first: each seat in
/// turn goes before the first hand it beats, so seats with equal hands
/// keep their order in `elig` (ascending ids).
pub open spec fn by_strength(elig: Seq<u8>, rk: Seq<HandRankModel>) -> Seq<u8>
    decreases elig.len(),
{
    if elig.len() == 0 {
        Seq::empty()
    } else {
        let s = by_strength(elig.drop_last(), rk);
        s.insert(first_beaten(s, rk, elig.last(), 0), elig.last())
    }
}

/// The hands at `j` and `j + 1` of `s` are in order: the first is not
/// weaker, and on equal hands the lower seat comes first.
pub open spec fn in_strength_order(s: Seq<u8>, rk: Seq<HandRankModel>, j: int) -> bool {
    let a = s[j];
    let b = s[j + 1];
    &&& hand_order(rk[a as int], rk[b as int]) != Ordering::Less
    &&& hand_order(rk[a as int], rk[b as int]) == Ordering::Equal ==> a < b
}

proof fn lemma_first_beaten_scan(s: Seq<u8>, rk: Seq<HandRankModel>, x: u8, k: int)
    requires
        0 <= k <= s.len(),
    ensures
        k <= first_beaten(s, rk, x, k) <= s.len(),
        forall|j: int|
            k <= j < first_beaten(s, rk, x, k) ==> hand_order(rk[x as int], rk[s[j] as int])
                != Ordering::Greater,
        first_beaten(s, rk, x, k) < s.len() ==> hand_order(
            rk[x as int],
            rk[s[first_beaten(s, rk, x, k)] as int],
        ) == Ordering::Greater,
    decreases s.len() - k,
{
    if k < s.len() {
        lemma_first_beaten_scan(s, rk, x, k + 1);
    }
}

/// Listed by `by_strength`, the seats of `elig` (in ascending order) are
/// the same seats, strongest hand first, and seats with equal hands stand
/// in ascending order.
pub proof fn lemma_by_strength_sorted(elig: Seq<u8>, rk: Seq<HandRankModel>)
    requires
        forall|i: int, j: int| 0 <= i < j < elig.len() ==> elig[i] < elig[j],
        forall|i: int| 0 <= i < elig.len() ==> (#[trigger] elig[i]) < rk.len(),
        forall|s: int| 0 <= s < rk.len() ==> (#[trigger] rk[s]).wf(),
    ensures
        by_strength(elig, rk).len() == elig.len(),
        forall|x: u8| by_strength(elig, rk).contains(x) <==> elig.contains(x),
        forall|j: int|
            0 <= j < by_strength(elig, rk).len() - 1 ==> #[trigger] in_strength_order(
                by_strength(elig, rk),
                rk,
                j,
            ),
    decreases elig.len(),
{
    if elig.len() > 0 {
        let e = elig.drop_last();
        let x = elig.last();
        assert forall|i: int, j: int| 0 <= i < j < e.len() implies e[i] < e[j] by {
            assert(e[i] == elig[i] && e[j] == elig[j]);
        }
        assert forall|i: int| 0 <= i < e.len() implies (#[trigger] e[i]) < rk.len() by {
            assert(e[i] == elig[i]);
        }
        lemma_by_strength_sorted(e, rk);
        let s = by_strength(e, rk);
        let p = first_beaten(s, rk, x, 0);
        lemma_first_beaten_scan(s, rk, x, 0);
        let t = s.insert(p, x);
        assert(t == by_strength(elig, rk));
        assert(t.len() == elig.len());
        assert forall|i: int| 0 <= i < s.len() implies (#[trigger] s[i]) < x by {
            assert(s.contains(s[i]));
            assert(e.contains(s[i]));
            let k = choose|k: int| 0 <= k < e.len() && e[k] == s[i];
            assert(elig[k] == e[k]);
            assert(x == elig[elig.len() - 1]);
            assert(elig[k] < elig[elig.len() - 1]);
        }
        assert forall|y: u8| t.contains(y) <==> elig.contains(y) by {
            if t.contains(y) {
                let k = choose|k: int| 0 <= k < t.len() && t[k] == y;
                if k < p {
                    assert(s[k] == y && s.contains(y));
                    assert(e.contains(y));
                    let m = choose|m: int| 0 <= m < e.len() && e[m] == y;
                    assert(elig[m] == e[m]);
                } else if k > p {
                    assert(s[k - 1] == y && s.contains(y));
                    assert(e.contains(y));
                    let m = choose|m: int| 0 <= m < e.len() && e[m] == y;
                    assert(elig[m] == e[m]);
                } else {
                    assert(elig[elig.len() - 1] == y);
                }
            }
            if elig.contains(y) {
                let m = choose|m: int| 0 <= m < elig.len() && elig[m] == y;
                if m < elig.len() - 1 {
                    assert(e[m] == elig[m]);
                    assert(e.contains(y));
                    assert(s.contains(y));
                    let k = choose|k: int| 0 <= k < s.len() && s[k] == y;
                    if k < p {
                        assert(t[k] == y);
                    } else {
                        assert(t[k + 1] == y);
                    }
                } else {
                    assert(t[p] == y);
                }
            }
        }
        assert forall|j: int| 0 <= j < t.len() - 1 implies #[trigger] in_strength_order(t, rk, j) by {
            if j + 1 < p {
                assert(t[j] == s[j] && t[j + 1] == s[j + 1]);
                assert(in_strength_order(s, rk, j));
            } else if j + 1 == p {
                assert(t[j] == s[j] && t[j + 1] == x);
                lemma_hand_order_antisymmetric(rk[x as int], rk[s[j] as int]);
            } else if j == p {
                assert(t[j] == x && t[j + 1] == s[p]);
            } else {
                assert(t[j] == s[j - 1] && t[j + 1] == s[j]);
                assert(in_strength_order(s, rk, j - 1));
            }
        }
    }
}

/// The step that starts at pot `i`: the best hands among its eligible seats
/// win it and every following pot they can all win; when some seat loses,
/// the reason is how the first best hand beats the best losing one.
pub open spec fn step_at(pots: Seq<PotModel>, rk: Seq<HandRankModel>, i: int) -> StepModel {
    let elig = pots[i].eligible_players;
    let top = step_top(pots, rk, i);
    let end = step_end(pots, rk, i);
    let ru = runner_up_in(elig, rk, top, elig.len() as int);
    StepModel {
        winners: step_winners(pots, rk, i),
        winnings: money_between(pots, i, end) as u32,
        pot_start_index: #[verifier::truncate] (i as u8),
        pot_end_index: #[verifier::truncate] (end as u8),
        eligible_players: by_strength(elig, rk),
        win_reason: if ru >= 0 {
            hand_comparison(top, rk[elig[ru] as int]).1
        } else {
            ShowdownDecidingFactor::Tie
        },
    }
}

/// The steps that resolve the pots from `i` on, given each seat's hand rank.
pub open spec fn steps_from(pots: Seq<PotModel>, rk: Seq<HandRankModel>, i: int) -> Seq<StepModel>
    decreases pots.len() - i,
{
    if i < 0 || i >= pots.len() {
        Seq::empty()
    } else if pots[i].eligible_players.len() == 0 {
        steps_from(pots, rk, i + 1)
    } else if step_end(pots, rk, i) < i || step_end(pots, rk, i) >= pots.len() {
        Seq::empty()
    } else {
        seq![step_at(pots, rk, i)] + steps_from(pots, rk, step_end(pots, rk, i) + 1)
    }
}

/// What seat `seat` gets from the first `k` winners of a step.
pub open spec fn payout_in(ws: Seq<u8>, winnings: int, seat: int, k: int) -> int
    decreases k,
{
    if k <= 0 {
        0
    } else {
        payout_in(ws, winnings, seat, k - 1) + if ws[k - 1] == seat {
            share_of(winnings, ws.len() as int, k - 1)
        } else {
            0
        }
    }
}

/// The winnings of all the steps together.
pub open spec fn steps_winnings(steps: Seq<StepModel>) -> int
    decreases steps.len(),
{
    if steps.len() == 0 {
        0
    } else {
        steps_winnings(steps.drop_last()) + steps.last().winnings
    }
}

/// What seat `seat` wins over all the steps.
pub open spec fn payout(steps: Seq<StepModel>, seat: int) -> int
    decreases steps.len(),
{
    if steps.len() == 0 {
        0
    } else {
        payout(steps.drop_last(), seat) + payout_in(
            steps.last().winners,
            steps.last().winnings as int,
            seat,
            steps.last().winners.len() as int,
        )
    }
}

proof fn lemma_money_between_split(pots: Seq<PotModel>, a: int, m: int, b: int)
    requires
        a <= m <= b + 1,
    ensures
        money_between(pots, a, b) == money_between(pots, a, m - 1) + money_between(pots, m, b),
    decreases b + 1 - a,
{
    if b >= m {
        lemma_money_between_split(pots, a, m, b - 1);
    }
}

proof fn lemma_money_between_nonneg(pots: Seq<PotModel>, a: int, b: int)
    ensures
        money_between(pots, a, b) >= 0,
    decreases b + 1 - a,
{
    if b >= a {
        lemma_money_between_nonneg(pots, a, b - 1);
    }
}

proof fn lemma_money_between_front(pots: Seq<PotModel>, b: int)
    requires
        0 <= b < pots.len(),
    ensures
        money_between(pots, 0, b) == pots[0].money + money_between(pots.drop_first(), 0, b - 1),
    decreases b,
{
    if b > 0 {
        lemma_money_between_front(pots, b - 1);
        assert(pots.drop_first()[b - 1] == pots[b]);
        assert(money_between(pots, 0, b) == money_between(pots, 0, b - 1) + pots[b].money);
        assert(money_between(pots.drop_first(), 0, b - 1) == money_between(pots.drop_first(), 0, b - 2)
            + pots.drop_first()[b - 1].money);
    } else {
        assert(money_between(pots, 0, -1) == 0);
        assert(money_between(pots.drop_first(), 0, -1) == 0);
        assert(money_between(pots, 0, 0) == money_between(pots, 0, -1) + pots[0].money);
    }
}

proof fn lemma_pots_money_between(pots: Seq<PotModel>)
    ensures
        pots_money(pots) == money_between(pots, 0, pots.len() - 1),
    decreases pots.len(),
{
    if pots.len() > 0 {
        lemma_pots_money_between(pots.drop_first());
        lemma_money_between_front(pots, pots.len() - 1);
    }
}

proof fn lemma_tied_with(elig: Seq<u8>, rk: Seq<HandRankModel>, top: HandRankModel, k: int)
    requires
        0 <= k <= elig.len(),
    ensures
        tied_with(elig, rk, top, k).len() <= k,
        forall|j: int|
            0 <= j < tied_with(elig, rk, top, k).len() ==> exists|m: int|
                0 <= m < k && elig[m] == #[trigger] tied_with(elig, rk, top, k)[j],
    decreases k,
{
    if k > 0 {
        lemma_tied_with(elig, rk, top, k - 1);
        let w = tied_with(elig, rk, top, k - 1);
        assert forall|j: int| 0 <= j < tied_with(elig, rk, top, k).len() implies exists|m: int|
            0 <= m < k && elig[m] == #[trigger] tied_with(elig, rk, top, k)[j] by {
            if j < w.len() {
                assert(tied_with(elig, rk, top, k)[j] == w[j]);
            } else {
                assert(elig[k - 1] == tied_with(elig, rk, top, k)[j]);
            }
        }
    }
}

proof fn lemma_best_in(elig: Seq<u8>, rk: Seq<HandRankModel>, k: int)
    requires
        1 <= k <= elig.len(),
    ensures
        0 <= best_in(elig, rk, k) < k,
        tied_with(elig, rk, rk[elig[best_in(elig, rk, k)] as int], k).len() >= 1,
    decreases k,
{
    if k > 1 {
        lemma_best_in(elig, rk, k - 1);
    }
    lemma_tied_nonempty(elig, rk, best_in(elig, rk, k), k);
}

proof fn lemma_tied_nonempty(elig: Seq<u8>, rk: Seq<HandRankModel>, t: int, k: int)
    requires
        0 <= t < k <= elig.len(),
    ensures
        tied_with(elig, rk, rk[elig[t] as int], k).len() >= 1,
    decreases k,
{
    let top = rk[elig[t] as int];
    lemma_hand_order_antisymmetric(top, top);
    if t < k - 1 {
        lemma_tied_nonempty(elig, rk, t, k - 1);
    }
}

proof fn lemma_best_in_is_best(elig: Seq<u8>, rk: Seq<HandRankModel>, k: int)
    requires
        1 <= k <= elig.len(),
        forall|j: int| 0 <= j < elig.len() ==> (#[trigger] elig[j]) < rk.len(),
        forall|s: int| 0 <= s < rk.len() ==> (#[trigger] rk[s]).wf(),
    ensures
        forall|j: int|
            0 <= j < k ==> hand_order(rk[elig[j] as int], rk[elig[best_in(elig, rk, k)] as int])
                != Ordering::Greater,
    decreases k,
{
    let t = best_in(elig, rk, k);
    lemma_best_in(elig, rk, k);
    if k == 1 {
        lemma_hand_order_antisymmetric(rk[elig[0] as int], rk[elig[0] as int]);
    } else {
        lemma_best_in_is_best(elig, rk, k - 1);
        let t0 = best_in(elig, rk, k - 1);
        lemma_best_in(elig, rk, k - 1);
        let top = rk[elig[t] as int];
        lemma_hand_order_antisymmetric(top, top);
        if t == k - 1 {
            lemma_hand_order_antisymmetric(rk[elig[k - 1] as int], rk[elig[t0] as int]);
            assert forall|j: int| 0 <= j < k implies hand_order(rk[elig[j] as int], top)
                != Ordering::Greater by {
                if j < k - 1 {
                    lemma_hand_order_transitive(rk[elig[j] as int], rk[elig[t0] as int], top);
                }
            }
        }
    }
}

proof fn lemma_tied_with_members(elig: Seq<u8>, rk: Seq<HandRankModel>, top: HandRankModel, k: int)
    requires
        0 <= k <= elig.len(),
    ensures
        forall|a: int|
            0 <= a < tied_with(elig, rk, top, k).len() ==> hand_order(
                rk[#[trigger] tied_with(elig, rk, top, k)[a] as int],
                top,
            ) == Ordering::Equal,
        forall|b: int|
            0 <= b < k && hand_order(rk[elig[b] as int], top) == Ordering::Equal ==> tied_with(
                elig,
                rk,
                top,
                k,
            ).contains(#[trigger] elig[b]),
    decreases k,
{
    if k > 0 {
        lemma_tied_with_members(elig, rk, top, k - 1);
        let w = tied_with(elig, rk, top, k - 1);
        let w2 = tied_with(elig, rk, top, k);
        assert forall|a: int| 0 <= a < w2.len() implies hand_order(rk[#[trigger] w2[a] as int], top)
            == Ordering::Equal by {
            if a < w.len() {
                assert(w2[a] == w[a]);
            }
        }
        assert forall|b: int| 0 <= b < k && hand_order(rk[elig[b] as int], top) == Ordering::Equal
            implies w2.contains(#[trigger] elig[b]) by {
            if b < k - 1 {
                let a = choose|a: int| 0 <= a < w.len() && w[a] == elig[b];
                assert(w2[a] == w[a]);
            } else {
                assert(w2[w2.len() - 1] == elig[b]);
            }
        }
    }
}

/// At every step the winners hold the best hands among the seats that can
/// win its pots, and every other such seat holds a hand below theirs.
pub proof fn lemma_step_winners_best(pots: Seq<PotModel>, rk: Seq<HandRankModel>, i: int)
    requires
        0 <= i < pots.len(),
        pots[i].eligible_players.len() > 0,
        forall|j: int|
            0 <= j < pots[i].eligible_players.len() ==> (#[trigger] pots[i].eligible_players[j])
                < rk.len(),
        forall|s: int| 0 <= s < rk.len() ==> (#[trigger] rk[s]).wf(),
    ensures
        ({
            let elig = pots[i].eligible_players;
            let ws = step_at(pots, rk, i).winners;
            &&& ws.len() >= 1
            &&& forall|a: int| 0 <= a < ws.len() ==> elig.contains(#[trigger] ws[a])
            &&& forall|a: int, b: int|
                0 <= a < ws.len() && 0 <= b < elig.len() ==> hand_order(
                    rk[elig[b] as int],
                    rk[ws[a] as int],
                ) != Ordering::Greater
            &&& forall|a: int, b: int|
                0 <= a < ws.len() && 0 <= b < elig.len() && !ws.contains(elig[b]) ==> hand_order(
                    rk[elig[b] as int],
                    rk[ws[a] as int],
                ) == Ordering::Less
        }),
{
    let elig = pots[i].eligible_players;
    let n = elig.len() as int;
    let t = best_in(elig, rk, n);
    let top = rk[elig[t] as int];
    let ws = step_at(pots, rk, i).winners;
    assert(ws == tied_with(elig, rk, top, n));
    lemma_best_in(elig, rk, n);
    lemma_best_in_is_best(elig, rk, n);
    lemma_tied_with(elig, rk, top, n);
    lemma_tied_with_members(elig, rk, top, n);
    assert forall|a: int| 0 <= a < ws.len() implies elig.contains(#[trigger] ws[a]) by {
        let m = choose|m: int| 0 <= m < n && elig[m] == ws[a];
    }
    assert forall|a: int, b: int| 0 <= a < ws.len() && 0 <= b < elig.len() implies hand_order(
        rk[elig[b] as int],
        rk[ws[a] as int],
    ) != Ordering::Greater by {
        let w = rk[ws[a] as int];
        let e = rk[elig[b] as int];
        let m = choose|m: int| 0 <= m < n && elig[m] == ws[a];
        lemma_hand_order_antisymmetric(w, top);
        lemma_hand_order_transitive(e, top, w);
    }
    assert forall|a: int, b: int|
        0 <= a < ws.len() && 0 <= b < elig.len() && !ws.contains(elig[b]) implies hand_order(
        rk[elig[b] as int],
        rk[ws[a] as int],
    ) == Ordering::Less by {
        let w = rk[ws[a] as int];
        let e = rk[elig[b] as int];
        let m = choose|m: int| 0 <= m < n && elig[m] == ws[a];
        lemma_hand_order_antisymmetric(w, top);
        lemma_hand_order_antisymmetric(e, top);
        lemma_hand_order_antisymmetric(e, w);
        lemma_hand_order_transitive(e, top, w);
        if hand_order(e, w) == Ordering::Equal {
            lemma_hand_order_transitive(top, w, e);
        }
    }
}

fn contains_all(ws: &Vec<u8>, elig: &Vec<u8>) -> (r: bool)
    ensures
        r == all_in(ws@, elig@),
{
    let mut j: usize = 0;
    while j < ws.len()
        invariant
            0 <= j <= ws.len(),
            forall|a: int| 0 <= a < j ==> elig@.contains(ws@[a]),
        decreases ws.len() - j,
    {
        let mut found = false;
        let mut m: usize = 0;
        while m < elig.len()
            invariant
                0 <= m <= elig.len(),
                0 <= j < ws.len(),
                found ==> elig@.contains(ws@[j as int]),
                !found ==> forall|b: int| 0 <= b < m ==> elig@[b] != ws@[j as int],
            decreases elig.len() - m,
        {
            if elig[m] == ws[j] {
                found = true;
            }
            m = m + 1;
        }
        if !found {
            assert(!elig@.contains(ws@[j as int]));
            assert(!all_in(ws@, elig@));
            return false;
        }
        j = j + 1;
    }
    true
}

impl Game {
    /// The hand of every seat, folded or not.
    fn seat_hands(&self) -> (hands: Vec<ShowdownHand>)
        requires
            self.wf(),
        ensures
            hands.len() == self.players.len(),
            forall|s: int| 0 <= s < hands.len() ==> shows_hand(*self, #[trigger] hands@[s], s),
    {
        let mut hands: Vec<ShowdownHand> = Vec::new();
        let mut i: usize = 0;
        while i < self.players.len()
            invariant
                self.wf(),
                0 <= i <= self.players.len(),
                hands.len() == i,
                forall|s: int| 0 <= s < i ==> shows_hand(*self, #[trigger] hands@[s], s),
            decreases self.players.len() - i,
        {
            let p = self.players[i];
            let pc = self.public_cards;
            let seven = [p.private_cards[0], p.private_cards[1], pc[0], pc[1], pc[2], pc[3], pc[4]];
            assert(seven@ =~= seven_cards_of(self.players@[i as int], self.public_cards));
            let (best_cards, rank) = get_best_hand(&seven);
            hands.push(ShowdownHand { player: i as u8, private_cards: p.private_cards, best_cards, rank });
            i = i + 1;
        }
        hands
    }
}

pub open spec fn ranks_of(hands: Seq<ShowdownHand>) -> Seq<HandRankModel> {
    Seq::new(hands.len(), |s: int| hands[s].rank@)
}

pub open spec fn seats_below(elig: Seq<u8>, n: int) -> bool {
    forall|j: int| 0 <= j < elig.len() ==> (#[trigger] elig[j]) < n
}

/// The index in `elig` of the first best hand.
fn first_best(hands: &Vec<ShowdownHand>, elig: &Vec<u8>) -> (t: usize)
    requires
        elig.len() >= 1,
        seats_below(elig@, hands.len() as int),
    ensures
        t == best_in(elig@, ranks_of(hands@), elig.len() as int),
        t < elig.len(),
{
    let ghost rk = ranks_of(hands@);
    let mut t: usize = 0;
    let mut m: usize = 1;
    while m < elig.len()
        invariant
            1 <= m <= elig.len(),
            t == best_in(elig@, rk, m as int),
            0 <= t < m,
            seats_below(elig@, hands.len() as int),
            rk == ranks_of(hands@),
        decreases elig.len() - m,
    {
        let (o, _) = compare_hand_ranks(&hands[elig[m] as usize].rank, &hands[elig[t] as usize].rank);
        if let Ordering::Greater = o {
            t = m;
        }
        m = m + 1;
    }
    t
}

/// The seats of `elig` whose hands tie with that of seat `top`.
fn tied_seats(hands: &Vec<ShowdownHand>, elig: &Vec<u8>, top: usize) -> (ws: Vec<u8>)
    requires
        top < hands.len(),
        seats_below(elig@, hands.len() as int),
    ensures
        ws@ == tied_with(elig@, ranks_of(hands@), ranks_of(hands@)[top as int], elig.len() as int),
{
    let ghost rk = ranks_of(hands@);
    let mut ws: Vec<u8> = Vec::new();
    let mut m: usize = 0;
    while m < elig.len()
        invariant
            0 <= m <= elig.len(),
            ws@ == tied_with(elig@, rk, rk[top as int], m as int),
            top < hands.len(),
            seats_below(elig@, hands.len() as int),
            rk == ranks_of(hands@),
        decreases elig.len() - m,
    {
        let (o, _) = compare_hand_ranks(&hands[elig[m] as usize].rank, &hands[top].rank);
        if let Ordering::Equal = o {
            ws.push(elig[m]);
        }
        m = m + 1;
    }
    ws
}

/// The index in `elig` of the first best hand below that of seat `top`, or -1.
fn runner_up(hands: &Vec<ShowdownHand>, elig: &Vec<u8>, top: usize) -> (ru: i32)
    requires
        top < hands.len(),
        elig.len() < 256,
        seats_below(elig@, hands.len() as int),
    ensures
        ru == runner_up_in(elig@, ranks_of(hands@), ranks_of(hands@)[top as int], elig.len() as int),
        -1 <= ru < elig.len(),
{
    let ghost rk = ranks_of(hands@);
    let mut ru: i32 = -1;
    let mut m: usize = 0;
    while m < elig.len()
        invariant
            0 <= m <= elig.len(),
            elig.len() < 256,
            ru == runner_up_in(elig@, rk, rk[top as int], m as int),
            -1 <= ru < m,
            top < hands.len(),
            seats_below(elig@, hands.len() as int),
            rk == ranks_of(hands@),
        decreases elig.len() - m,
    {
        let (o, _) = compare_hand_ranks(&hands[elig[m] as usize].rank, &hands[top].rank);
        if let Ordering::Less = o {
            if ru < 0 {
                ru = m as i32;
            } else {
                let (o2, _) = compare_hand_ranks(
                    &hands[elig[m] as usize].rank,
                    &hands[elig[ru as usize] as usize].rank,
                );
                if let Ordering::Greater = o2 {
                    ru = m as i32;
                }
            }
        }
        m = m + 1;
    }
    ru
}

proof fn lemma_first_beaten(s: Seq<u8>, rk: Seq<HandRankModel>, x: u8, j: int)
    requires
        0 <= j <= s.len(),
    ensures
        j <= first_beaten(s, rk, x, j) <= s.len(),
    decreases s.len() - j,
{
    if j < s.len() {
        lemma_first_beaten(s, rk, x, j + 1);
    }
}

/// The seats of `elig` by hand strength, as `by_strength` says.
fn order_by_strength(hands: &Vec<ShowdownHand>, elig: &Vec<u8>) -> (r: Vec<u8>)
    requires
        seats_below(elig@, hands.len() as int),
    ensures
        r@ == by_strength(elig@, ranks_of(hands@)),
{
    let ghost rk = ranks_of(hands@);
    let mut r: Vec<u8> = Vec::new();
    let mut i: usize = 0;
    assert(elig@.subrange(0, 0) =~= Seq::<u8>::empty());
    while i < elig.len()
        invariant
            0 <= i <= elig.len(),
            rk == ranks_of(hands@),
            seats_below(elig@, hands.len() as int),
            r@ == by_strength(elig@.subrange(0, i as int), rk),
            seats_below(r@, hands.len() as int),
        decreases elig.len() - i,
    {
        let x = elig[i];
        let mut p: usize = 0;
        let mut done = false;
        while p < r.len() && !done
            invariant
                0 <= p <= r.len(),
                x < hands.len(),
                rk == ranks_of(hands@),
                seats_below(r@, hands.len() as int),
                !done ==> first_beaten(r@, rk, x, 0) == first_beaten(r@, rk, x, p as int),
                done ==> first_beaten(r@, rk, x, 0) == p,
            decreases r.len() - p + if done { 0int } else { 1int },
        {
            let (o, _) = compare_hand_ranks(&hands[x as usize].rank, &hands[r[p] as usize].rank);
            if let Ordering::Greater = o {
                done = true;
            } else {
                p = p + 1;
            }
        }
        proof {
            lemma_first_beaten(r@, rk, x, 0);
        }
        let ghost before = r@;
        r.insert(p, x);
        assert(elig@.subrange(0, i + 1).drop_last() =~= elig@.subrange(0, i as int));
        assert(elig@.subrange(0, i + 1).last() == x);
        assert forall|j: int| 0 <= j < r@.len() implies (#[trigger] r@[j]) < hands.len() by {
            if j < p {
                assert(r@[j] == before[j]);
            } else if j > p {
                assert(r@[j] == before[j - 1]);
            }
        }
        i = i + 1;
    }
    assert(elig@.subrange(0, elig.len() as int) =~= elig@);
    r
}

/// From pot `i`, the last pot that the winners take together, and the money of those pots.
fn merged_pots(pots: &Vec<Pot>, ws: &Vec<u8>, i: usize, Ghost(pm): Ghost<Seq<PotModel>>) -> (r: (
    usize,
    u32,
))
    requires
        i < pots.len(),
        pots.len() == pm.len(),
        forall|k: int| 0 <= k < pots.len() ==> #[trigger] pots@[k]@ == pm[k],
        money_between(pm, 0, pm.len() - 1) <= u32::MAX,
    ensures
        r.0 == merge_end(pm, ws@, i as int),
        i <= r.0 < pots.len(),
        r.1 == money_between(pm, i as int, r.0 as int),
{
    let mut end: usize = i;
    let mut winnings: u32 = pots[i].money;
    assert(pots@[i as int]@ == pm[i as int]);
    assert(money_between(pm, i as int, i as int) == money_between(pm, i as int, i - 1) + pm[i as int].money);
    let mut more = end + 1 < pots.len() && (pots[end + 1].eligible_players.len() == 0 || contains_all(
        ws,
        &pots[end + 1].eligible_players,
    ));
    proof {
        if end + 1 < pots.len() {
            assert(pots@[end + 1]@ == pm[end + 1]);
        }
    }
    while more
        invariant
            i <= end < pots.len(),
            pots.len() == pm.len(),
            forall|k: int| 0 <= k < pots.len() ==> #[trigger] pots@[k]@ == pm[k],
            money_between(pm, 0, pm.len() - 1) <= u32::MAX,
            merge_end(pm, ws@, i as int) == merge_end(pm, ws@, end as int),
            winnings == money_between(pm, i as int, end as int),
            more == (end + 1 < pots.len() && (all_in(ws@, pm[end + 1].eligible_players)
                || pm[end + 1].eligible_players.len() == 0)),
        decreases pots.len() - end,
    {
        end = end + 1;
        proof {
            lemma_money_between_split(pm, i as int, end as int + 1, pm.len() - 1);
            lemma_money_between_split(pm, 0, i as int, pm.len() - 1);
            lemma_money_between_nonneg(pm, end as int + 1, pm.len() - 1);
            lemma_money_between_nonneg(pm, 0, i - 1);
        }
        assert(pots@[end as int]@ == pm[end as int]);
        assert(money_between(pm, i as int, end as int) == money_between(pm, i as int, end - 1)
            + pm[end as int].money);
        winnings = winnings + pots[end].money;
        more = end + 1 < pots.len() && (pots[end + 1].eligible_players.len() == 0 || contains_all(
            ws,
            &pots[end + 1].eligible_players,
        ));
        proof {
            if end + 1 < pots.len() {
                assert(pots@[end + 1]@ == pm[end + 1]);
            }
        }
    }
    (end, winnings)
}

/// Pays `winnings` out to the winners `ws`, split as `share_of` says.
fn pay_out(players: &mut Vec<Player>, ws: &Vec<u8>, winnings: u32, Ghost(room): Ghost<int>)
    requires
        ws.len() >= 1,
        ws.len() <= old(players).len() < 256,
        seats_below(ws@, old(players).len() as int),
        sum_money(old(players)@) + winnings <= room <= u32::MAX,
    ensures
        final(players).len() == old(players).len(),
        sum_money(final(players)@) == sum_money(old(players)@) + winnings,
        forall|s: int|
            0 <= s < old(players).len() ==> {
                let p = #[trigger] final(players)@[s];
                let q = old(players)@[s];
                &&& p.money == q.money + payout_in(ws@, winnings as int, s, ws.len() as int)
                &&& p.total_contribution == q.total_contribution
                &&& p.private_cards == q.private_cards
                &&& p.has_folded == q.has_folded
            },
{
    let ghost ps0 = players@;
    let ghost n = ps0.len() as int;
    let ghost w = ws.len() as int;
    proof {
        lemma_split_law(winnings as int, w);
    }
    let shares = split_winnings(winnings, ws.len() as u32);
    let mut j: usize = 0;
    while j < ws.len()
        invariant
            0 <= j <= ws.len(),
            w == ws.len(),
            shares.len() == w,
            forall|a: int| 0 <= a < w ==> shares@[a] == share_of(winnings as int, w, a),
            forall|k: int| 0 <= k <= w ==> 0 <= #[trigger] shares_upto(winnings as int, w, k) <= winnings,
            seats_below(ws@, n),
            players@.len() == n,
            sum_money(ps0) + winnings <= room <= u32::MAX,
            forall|s: int|
                0 <= s < n ==> {
                    let p = #[trigger] players@[s];
                    let q = ps0[s];
                    &&& p.money == q.money + payout_in(ws@, winnings as int, s, j as int)
                    &&& p.total_contribution == q.total_contribution
                    &&& p.private_cards == q.private_cards
                    &&& p.has_folded == q.has_folded
                },
            sum_money(players@) == sum_money(ps0) + shares_upto(winnings as int, w, j as int),
        decreases ws.len() - j,
    {
        let seat = ws[j] as usize;
        let p = players[seat];
        proof {
            lemma_sums_nonneg(players@);
            assert(shares_upto(winnings as int, w, j + 1) <= winnings);
        }
        let q = Player { money: p.money + shares[j], ..p };
        proof {
            lemma_sums_update(players@, seat as int, q);
        }
        players.set(seat, q);
        j = j + 1;
    }
}

/// `g2` is `g` after its showdown, resolved in `steps`: the steps are
/// those that `steps_from` gives for some best hand of each seat, and each
/// seat is paid its `payout`.
pub open spec fn showdown_post(g: Game, g2: Game, steps: Seq<ShowdownStep>) -> bool {
    &&& g2.public_cards == g.public_cards
    &&& g2.current_bet == g.current_bet
    &&& g2.current_phase == g.current_phase
    &&& g2.current_turn == g.current_turn
    &&& g2.last_bettor == g.last_bettor
    &&& g2.players@.len() == g.players@.len()
    &&& exists|hands: Seq<ShowdownHand>|
        #![trigger ranks_of(hands)]
        {
            let n = g.players@.len() as int;
            let model = steps_from(pots_from(g.players@, 0), ranks_of(hands), 0);
            &&& hands.len() == n
            &&& forall|s: int| 0 <= s < n ==> shows_hand(g, #[trigger] hands[s], s)
            &&& steps.len() == model.len()
            &&& forall|k: int| 0 <= k < steps.len() ==> #[trigger] steps[k]@ == model[k]
            &&& g2.players@.len() == n
            &&& sum_money(g2.players@) == sum_money(g.players@) + steps_winnings(model)
            &&& forall|s: int|
                0 <= s < n ==> {
                    let p = #[trigger] g2.players@[s];
                    let q = g.players@[s];
                    &&& p.money == q.money + payout(model, s)
                    &&& p.total_contribution == q.total_contribution
                    &&& p.private_cards == q.private_cards
                    &&& p.has_folded == q.has_folded
                }
        }
}

impl Game {
    /// Resolves the showdown: pays each step's winnings to its winners,
    /// and says step by step who won which pots and why.
    pub fn evaluate_showdown(&mut self) -> (steps: Vec<ShowdownStep>)
        requires
            old(self).wf(),
            old(self).current_phase == 4,
        ensures
            showdown_post(*old(self), *final(self), steps@),
    {
        let ghost g = *self;
        let ghost ps0 = self.players@;
        let ghost n = ps0.len() as int;
        let hands = self.seat_hands();
        let ghost rk = ranks_of(hands@);
        proof {
            lemma_sums_nonneg(ps0);
        }
        let pots = compute_pots(&self.players);
        let ghost pm = pots_from(ps0, 0);
        proof {
            lemma_pots_law(ps0);
            lemma_pots_money_between(pm);
        }
        let ghost total = money_between(pm, 0, pm.len() - 1);
        assert(total == sum_contributions(ps0));
        let mut steps: Vec<ShowdownStep> = Vec::new();
        let ghost mut built: Seq<StepModel> = Seq::empty();
        let ghost mut paid: int = 0;
        let mut i: usize = 0;
        while i < pots.len()
            invariant
                0 <= i <= pots.len(),
                hands.len() == n,
                rk == ranks_of(hands@),
                pots.len() == pm.len(),
                forall|k: int| 0 <= k < pots.len() ==> #[trigger] pots@[k]@ == pm[k],
                forall|k: int, j: int|
                    0 <= k < pm.len() && 0 <= j < pm[k].eligible_players.len() ==> (
                    #[trigger] pm[k].eligible_players[j]) < n,
                forall|k: int| 0 <= k < pm.len() ==> (#[trigger] pm[k]).eligible_players.len() <= n,
                total == money_between(pm, 0, pm.len() - 1),
                sum_money(ps0) + total <= u32::MAX,
                sum_money(ps0) >= 0,
                n == ps0.len(),
                n < 255,
                built + steps_from(pm, rk, i as int) == steps_from(pm, rk, 0),
                steps.len() == built.len(),
                forall|k: int| 0 <= k < steps.len() ==> #[trigger] steps@[k]@ == built[k],
                self.players@.len() == n,
                forall|s: int|
                    0 <= s < n ==> {
                        let p = #[trigger] self.players@[s];
                        let q = ps0[s];
                        &&& p.money == q.money + payout(built, s)
                        &&& p.total_contribution == q.total_contribution
                        &&& p.private_cards == q.private_cards
                        &&& p.has_folded == q.has_folded
                    },
                sum_money(self.players@) == sum_money(ps0) + paid,
                paid == steps_winnings(built),
                0 <= paid <= money_between(pm, 0, i - 1),
                self.public_cards == g.public_cards,
                self.current_bet == g.current_bet,
                self.current_phase == g.current_phase,
                self.current_turn == g.current_turn,
                self.last_bettor == g.last_bettor,
            decreases pots.len() - i,
        {
            proof {
                lemma_money_between_split(pm, 0, i as int, pm.len() - 1);
                lemma_money_between_nonneg(pm, i as int, pm.len() - 1);
                lemma_money_between_nonneg(pm, 0, i - 1);
            }
            let elig = &pots[i].eligible_players;
            assert(pots@[i as int]@ == pm[i as int]);
            assert(elig@ == pm[i as int].eligible_players);
            assert(seats_below(elig@, n));
            if elig.len() == 0 {
                assert(money_between(pm, 0, i as int) == money_between(pm, 0, i - 1) + pm[i as int].money);
                i = i + 1;
            } else {
                let t = first_best(&hands, elig);
                let top = elig[t] as usize;
                proof {
                    lemma_best_in(elig@, rk, elig@.len() as int);
                }
                let winners = tied_seats(&hands, elig, top);
                proof {
                    lemma_tied_with(elig@, rk, rk[top as int], elig@.len() as int);
                    assert forall|j: int| 0 <= j < winners@.len() implies (#[trigger] winners@[j]) < n by {
                        let m = choose|m: int| 0 <= m < elig@.len() && elig@[m] == winners@[j];
                    }
                }
                let ru = runner_up(&hands, elig, top);
                let win_reason = if ru >= 0 {
                    compare_hand_ranks(&hands[top].rank, &hands[elig[ru as usize] as usize].rank).1
                } else {
                    ShowdownDecidingFactor::Tie
                };
                let (end, winnings) = merged_pots(&pots, &winners, i, Ghost(pm));
                proof {
                    lemma_money_between_split(pm, 0, i as int, end as int);
                    lemma_money_between_split(pm, 0, end as int + 1, pm.len() - 1);
                    lemma_money_between_nonneg(pm, end as int + 1, pm.len() - 1);
                }
                pay_out(&mut self.players, &winners, winnings, Ghost(sum_money(ps0) + total));
                let step = ShowdownStep {
                    winners,
                    winnings,
                    pot_start_index: #[verifier::truncate] (i as u8),
                    pot_end_index: #[verifier::truncate] (end as u8),
                    eligible_players: order_by_strength(&hands, elig),
                    win_reason,
                };
                assert(step@ == step_at(pm, rk, i as int));
                proof {
                    assert(steps_from(pm, rk, i as int) == seq![step_at(pm, rk, i as int)]
                        + steps_from(pm, rk, end + 1));
                    assert(built.push(step@) + steps_from(pm, rk, end + 1) =~= built + steps_from(
                        pm,
                        rk,
                        i as int,
                    ));
                    assert forall|s: int| 0 <= s < n implies payout(built.push(step@), s) == payout(
                        built,
                        s,
                    ) + payout_in(step@.winners, winnings as int, s, step@.winners.len() as int) by {
                        assert(built.push(step@).drop_last() =~= built);
                    }
                    assert(built.push(step@).drop_last() =~= built);
                    built = built.push(step@);
                    paid = paid + winnings;
                }
                steps.push(step);
                i = end + 1;
            }
        }
        assert(steps_from(pm, rk, i as int) =~= Seq::<StepModel>::empty());
        assert(built =~= steps_from(pm, rk, 0));
        assert(ranks_of(hands@) == rk);
        steps
    }
}

} // verus!
