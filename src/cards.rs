//! Cards, hand categories, hand ranks and their comparison.
use core::cmp::Ordering;
use vstd::prelude::*;

verus! {

/// A playing card: `rank` 0..=12 stands for 2..=A, `suit` 0..=3.
/// Cards compare by rank only; the suit matters for flushes alone.
#[derive(Debug, Clone, Copy)]
pub struct Card {
    pub rank: u8,
    pub suit: u8,
}

/// The card that a wire byte `suit << 4 | rank` stands for, if any.
pub open spec fn card_of_byte(b: u8) -> Option<Card> {
    if b % 16 < 13 && b / 16 < 4 {
        Some(Card { rank: (b % 16) as u8, suit: (b / 16) as u8 })
    } else {
        None
    }
}

impl Card {
    pub open spec fn wf(self) -> bool {
        self.rank < 13 && self.suit < 4
    }

    pub open spec fn spec_byte(self) -> u8 {
        (self.suit << 4u8) | self.rank
    }

    /// The wire form `suit << 4 | rank`.
    pub fn to_byte(&self) -> (r: u8)
        ensures
            r == self.spec_byte(),
    {
        (self.suit << 4u8) | self.rank
    }

    /// Reads a wire byte back; fails on a rank above 12 or a suit above 3.
    pub fn from_byte(b: u8) -> (r: Option<Card>)
        ensures
            r == card_of_byte(b),
    {
        let rank = b % 16;
        let suit = b / 16;
        if rank < 13 && suit < 4 {
            Some(Card { rank, suit })
        } else {
            None
        }
    }
}

impl PartialEq for Card {
    fn eq(&self, other: &Card) -> (r: bool) {
        self.rank == other.rank
    }
}

impl vstd::std_specs::cmp::PartialEqSpecImpl for Card {
    open spec fn obeys_eq_spec() -> bool {
        true
    }

    open spec fn eq_spec(&self, other: &Card) -> bool {
        self.rank == other.rank
    }
}

impl Eq for Card {}

/// The byte of a valid card is never the "absent" marker 255 and reads back as the card.
pub proof fn lemma_card_byte(c: Card)
    requires
        c.wf(),
    ensures
        card_of_byte(c.spec_byte()) == Some(c),
        c.spec_byte() < 255,
{
    let s = c.suit;
    let k = c.rank;
    assert(s < 4 && k < 13 ==> ((s << 4u8) | k) == s * 16 + k) by (bit_vector);
    let b = c.suit * 16 + c.rank;
    assert(b % 16 == c.rank && b / 16 == c.suit) by (nonlinear_arith)
        requires
            b == c.suit * 16 + c.rank,
            c.rank < 13,
            c.suit < 4,
    ;
}

#[derive(Debug, Clone, Copy, PartialEq, Eq, Structural, PartialOrd, Ord, Hash)]
pub enum HandCategory {
    HighCard,
    OnePair,
    TwoPair,
    ThreeKind,
    Straight,
    Flush,
    FullHouse,
    FourKind,
    StraightFlush,
    RoyalFlush,
}

/// The ordinal of a category, which is its strength.
pub open spec fn category_index(c: HandCategory) -> u8 {
    match c {
        HandCategory::HighCard => 0,
        HandCategory::OnePair => 1,
        HandCategory::TwoPair => 2,
        HandCategory::ThreeKind => 3,
        HandCategory::Straight => 4,
        HandCategory::Flush => 5,
        HandCategory::FullHouse => 6,
        HandCategory::FourKind => 7,
        HandCategory::StraightFlush => 8,
        HandCategory::RoyalFlush => 9,
    }
}

pub open spec fn category_of_byte(b: u8) -> Option<HandCategory> {
    if b == 0 {
        Some(HandCategory::HighCard)
    } else if b == 1 {
        Some(HandCategory::OnePair)
    } else if b == 2 {
        Some(HandCategory::TwoPair)
    } else if b == 3 {
        Some(HandCategory::ThreeKind)
    } else if b == 4 {
        Some(HandCategory::Straight)
    } else if b == 5 {
        Some(HandCategory::Flush)
    } else if b == 6 {
        Some(HandCategory::FullHouse)
    } else if b == 7 {
        Some(HandCategory::FourKind)
    } else if b == 8 {
        Some(HandCategory::StraightFlush)
    } else if b == 9 {
        Some(HandCategory::RoyalFlush)
    } else {
        None
    }
}

impl HandCategory {
    pub fn to_byte(&self) -> (r: u8)
        ensures
            r == category_index(*self),
            category_of_byte(r) == Some(*self),
    {
        match *self {
            HandCategory::HighCard => 0u8,
            HandCategory::OnePair => 1u8,
            HandCategory::TwoPair => 2u8,
            HandCategory::ThreeKind => 3u8,
            HandCategory::Straight => 4u8,
            HandCategory::Flush => 5u8,
            HandCategory::FullHouse => 6u8,
            HandCategory::FourKind => 7u8,
            HandCategory::StraightFlush => 8u8,
            HandCategory::RoyalFlush => 9u8,
        }
    }

    pub fn from_byte(b: u8) -> (r: Option<HandCategory>)
        ensures
            r == category_of_byte(b),
    {
        match b {
            0 => Some(HandCategory::HighCard),
            1 => Some(HandCategory::OnePair),
            2 => Some(HandCategory::TwoPair),
            3 => Some(HandCategory::ThreeKind),
            4 => Some(HandCategory::Straight),
            5 => Some(HandCategory::Flush),
            6 => Some(HandCategory::FullHouse),
            7 => Some(HandCategory::FourKind),
            8 => Some(HandCategory::StraightFlush),
            9 => Some(HandCategory::RoyalFlush),
            _ => None,
        }
    }
}

/// The rank of a five-card hand: its category, the lead card of the
/// decisive group, the lead card of the second group (full house, two
/// pair), and the remaining single cards in descending order.
#[derive(Debug, Clone)]
pub struct HandRank {
    pub category: HandCategory,
    pub primary: Option<Card>,
    pub secondary: Option<Card>,
    pub kickers: Vec<Card>,
}

pub struct HandRankModel {
    pub category: HandCategory,
    pub primary: Option<Card>,
    pub secondary: Option<Card>,
    pub kickers: Seq<Card>,
}

impl View for HandRank {
    type V = HandRankModel;

    open spec fn view(&self) -> HandRankModel {
        HandRankModel {
            category: self.category,
            primary: self.primary,
            secondary: self.secondary,
            kickers: self.kickers@,
        }
    }
}

/// What decided a comparison of two hands, with the two deciding cards.
#[derive(Debug, Clone, Copy)]
pub enum ShowdownDecidingFactor {
    Category,
    Primary(Card, Card),
    Secondary(Card, Card),
    Kicker(Card, Card),
    Tie,
}

pub open spec fn order_of(a: int, b: int) -> Ordering {
    if a < b {
        Ordering::Less
    } else if a > b {
        Ordering::Greater
    } else {
        Ordering::Equal
    }
}

/// The first index from `i` at which the two kicker lists differ in rank,
/// or the length of the shorter list.
pub open spec fn kicker_difference(a: Seq<Card>, b: Seq<Card>, i: int) -> int
    decreases a.len() - i,
{
    if i < 0 || i >= a.len() || i >= b.len() {
        i
    } else if a[i].rank != b[i].rank {
        i
    } else {
        kicker_difference(a, b, i + 1)
    }
}

/// Both options hold cards, of different ranks.
pub open spec fn lead_cards_differ(a: Option<Card>, b: Option<Card>) -> bool {
    a is Some && b is Some && a->0.rank != b->0.rank
}

/// How two hand ranks compare, and what decided it: the category, then the
/// primary group's lead card, then the secondary's, then the kickers pairwise.
pub open spec fn hand_comparison(a: HandRankModel, b: HandRankModel) -> (
    Ordering,
    ShowdownDecidingFactor,
) {
    if a.category != b.category {
        (
            order_of(category_index(a.category) as int, category_index(b.category) as int),
            ShowdownDecidingFactor::Category,
        )
    } else if lead_cards_differ(a.primary, b.primary) {
        (
            order_of(a.primary->0.rank as int, b.primary->0.rank as int),
            ShowdownDecidingFactor::Primary(a.primary->0, b.primary->0),
        )
    } else if lead_cards_differ(a.secondary, b.secondary) {
        (
            order_of(a.secondary->0.rank as int, b.secondary->0.rank as int),
            ShowdownDecidingFactor::Secondary(a.secondary->0, b.secondary->0),
        )
    } else {
        let k = kicker_difference(a.kickers, b.kickers, 0);
        if k < a.kickers.len() && k < b.kickers.len() {
            (
                order_of(a.kickers[k].rank as int, b.kickers[k].rank as int),
                ShowdownDecidingFactor::Kicker(a.kickers[k], b.kickers[k]),
            )
        } else {
            (Ordering::Equal, ShowdownDecidingFactor::Tie)
        }
    }
}

pub open spec fn hand_order(a: HandRankModel, b: HandRankModel) -> Ordering {
    hand_comparison(a, b).0
}

fn compare_ranks(a: u8, b: u8) -> (r: Ordering)
    ensures
        r == order_of(a as int, b as int),
{
    if a < b {
        Ordering::Less
    } else if a > b {
        Ordering::Greater
    } else {
        Ordering::Equal
    }
}

/// Compares two hand ranks and says which card or category decided.
pub fn compare_hand_ranks(hand1: &HandRank, hand2: &HandRank) -> (r: (
    Ordering,
    ShowdownDecidingFactor,
))
    ensures
        r == hand_comparison(hand1@, hand2@),
{
    let c1 = hand1.category.to_byte();
    let c2 = hand2.category.to_byte();
    if c1 != c2 {
        return (compare_ranks(c1, c2), ShowdownDecidingFactor::Category);
    }
    assert(hand1.category == hand2.category) by {
        assert(category_of_byte(c1) == Some(hand1.category));
        assert(category_of_byte(c2) == Some(hand2.category));
    }
    if let (Some(a), Some(b)) = (hand1.primary, hand2.primary) {
        if a.rank != b.rank {
            return (compare_ranks(a.rank, b.rank), ShowdownDecidingFactor::Primary(a, b));
        }
    }
    if let (Some(a), Some(b)) = (hand1.secondary, hand2.secondary) {
        if a.rank != b.rank {
            return (compare_ranks(a.rank, b.rank), ShowdownDecidingFactor::Secondary(a, b));
        }
    }
    let k1 = &hand1.kickers;
    let k2 = &hand2.kickers;
    let mut i: usize = 0;
    while i < k1.len() && i < k2.len()
        invariant
            0 <= i <= k1.len(),
            i <= k2.len(),
            kicker_difference(k1@, k2@, 0) == kicker_difference(k1@, k2@, i as int),
            k1@ == hand1.kickers@,
            k2@ == hand2.kickers@,
            hand1.category == hand2.category,
            !lead_cards_differ(hand1.primary, hand2.primary),
            !lead_cards_differ(hand1.secondary, hand2.secondary),
        decreases k1.len() - i,
    {
        if k1[i].rank != k2[i].rank {
            return (
                compare_ranks(k1[i].rank, k2[i].rank),
                ShowdownDecidingFactor::Kicker(k1[i], k2[i]),
            );
        }
        i = i + 1;
    }
    (Ordering::Equal, ShowdownDecidingFactor::Tie)
}

// ---------------------------------------------------------------------
// Ranking a five-card hand.
// ---------------------------------------------------------------------

/// How many cards of `s` have rank `r`.
pub open spec fn rank_count(s: Seq<Card>, r: int) -> nat
    decreases s.len(),
{
    if s.len() == 0 {
        0
    } else {
        rank_count(s.drop_last(), r) + if s.last().rank == r {
            1nat
        } else {
            0nat
        }
    }
}

/// The index of the first card of `s` from `i` on with rank `r`, or the length.
pub open spec fn first_index_of_rank(s: Seq<Card>, r: int, i: int) -> int
    decreases s.len() - i,
{
    if i < 0 || i >= s.len() {
        s.len() as int
    } else if s[i].rank == r {
        i
    } else {
        first_index_of_rank(s, r, i + 1)
    }
}

/// The first card of `s` with rank `r`: the card that stands for its rank group.
pub open spec fn first_of_rank(s: Seq<Card>, r: int) -> Card {
    s[first_index_of_rank(s, r, 0)]
}

/// Among the ranks `0..=r` other than `excl` that hold two or more cards, the
/// one with the most cards, the higher rank on equal counts; -1 if none.
pub open spec fn top_group(s: Seq<Card>, r: int, excl: int) -> int
    decreases r + 1,
{
    if r < 0 {
        -1
    } else {
        let rest = top_group(s, r - 1, excl);
        if r != excl && rank_count(s, r) >= 2 && (rest < 0 || rank_count(s, r) >= rank_count(
            s,
            rest,
        )) {
            r
        } else {
            rest
        }
    }
}

/// The cards of the ranks `r..=12` that hold exactly one card, highest rank first.
pub open spec fn singles_from(s: Seq<Card>, r: int) -> Seq<Card>
    decreases 13 - r,
{
    if r > 12 {
        Seq::empty()
    } else if rank_count(s, r) == 1 {
        singles_from(s, r + 1).push(first_of_rank(s, r))
    } else {
        singles_from(s, r + 1)
    }
}

pub open spec fn is_flush(s: Seq<Card>) -> bool {
    forall|i: int| 0 <= i < s.len() ==> #[trigger] s[i].suit == s[0].suit
}

/// Ranks `lo..lo+5` hold one card each.
pub open spec fn run_from(s: Seq<Card>, lo: int) -> bool {
    &&& rank_count(s, lo) == 1
    &&& rank_count(s, lo + 1) == 1
    &&& rank_count(s, lo + 2) == 1
    &&& rank_count(s, lo + 3) == 1
    &&& rank_count(s, lo + 4) == 1
}

/// A-2-3-4-5, the ace counting low.
pub open spec fn is_wheel(s: Seq<Card>) -> bool {
    rank_count(s, 0) == 1 && rank_count(s, 1) == 1 && rank_count(s, 2) == 1 && rank_count(s, 3)
        == 1 && rank_count(s, 12) == 1
}

pub open spec fn is_straight(s: Seq<Card>) -> bool {
    is_wheel(s) || exists|lo: int| 0 <= lo <= 8 && run_from(s, lo)
}

pub open spec fn primary_rank(s: Seq<Card>) -> int {
    top_group(s, 12, -1)
}

pub open spec fn secondary_rank(s: Seq<Card>) -> int {
    top_group(s, 12, primary_rank(s))
}

/// The category of a five-card hand, from the sizes of its two largest rank
/// groups and whether it is a straight or a flush.
pub open spec fn category_of(s: Seq<Card>) -> HandCategory {
    let p = primary_rank(s);
    let q = secondary_rank(s);
    if p < 0 {
        if is_straight(s) && is_flush(s) {
            if run_from(s, 8) {
                HandCategory::RoyalFlush
            } else {
                HandCategory::StraightFlush
            }
        } else if is_flush(s) {
            HandCategory::Flush
        } else if is_straight(s) {
            HandCategory::Straight
        } else {
            HandCategory::HighCard
        }
    } else if rank_count(s, p) == 4 {
        HandCategory::FourKind
    } else if rank_count(s, p) == 3 {
        if q >= 0 {
            HandCategory::FullHouse
        } else {
            HandCategory::ThreeKind
        }
    } else if rank_count(s, p) == 2 {
        if q >= 0 {
            HandCategory::TwoPair
        } else {
            HandCategory::OnePair
        }
    } else {
        HandCategory::HighCard
    }
}

/// The rank of a five-card hand.
pub open spec fn hand_rank_of(s: Seq<Card>) -> HandRankModel {
    let p = primary_rank(s);
    let q = secondary_rank(s);
    HandRankModel {
        category: category_of(s),
        primary: if p >= 0 {
            Some(first_of_rank(s, p))
        } else {
            None
        },
        secondary: if q >= 0 {
            Some(first_of_rank(s, q))
        } else {
            None
        },
        kickers: singles_from(s, 0),
    }
}

pub open spec fn has_primary(c: HandCategory) -> bool {
    match c {
        HandCategory::OnePair | HandCategory::TwoPair | HandCategory::ThreeKind
        | HandCategory::FullHouse | HandCategory::FourKind => true,
        _ => false,
    }
}

pub open spec fn has_secondary(c: HandCategory) -> bool {
    c == HandCategory::TwoPair || c == HandCategory::FullHouse
}

pub open spec fn kicker_count(c: HandCategory) -> nat {
    match c {
        HandCategory::OnePair => 3,
        HandCategory::TwoPair => 1,
        HandCategory::ThreeKind => 2,
        HandCategory::FullHouse => 0,
        HandCategory::FourKind => 1,
        _ => 5,
    }
}

impl HandRankModel {
    /// The shape that the category fixes: which lead cards are present and how many kickers.
    pub open spec fn wf(self) -> bool {
        &&& (self.primary is Some) == has_primary(self.category)
        &&& (self.secondary is Some) == has_secondary(self.category)
        &&& self.kickers.len() == kicker_count(self.category)
    }
}

/// Every card of `s` is valid.
pub open spec fn all_wf(s: Seq<Card>) -> bool {
    forall|i: int| 0 <= i < s.len() ==> s[i].wf()
}

/// No two cards of `s` are the same card.
pub open spec fn all_distinct(s: Seq<Card>) -> bool {
    forall|i: int, j: int|
        0 <= i < j < s.len() ==> (s[i].rank != s[j].rank || s[i].suit != s[j].suit)
}

// ---------------------------------------------------------------------
// Counting lemmas.
// ---------------------------------------------------------------------

/// Cards of the ranks `r..=12`.
pub open spec fn weight_from(s: Seq<Card>, r: int) -> nat
    decreases 13 - r,
{
    if r > 12 {
        0
    } else {
        weight_from(s, r + 1) + rank_count(s, r)
    }
}

/// Cards of the ranks `r..=12` that hold two or more cards.
pub open spec fn group_weight_from(s: Seq<Card>, r: int) -> nat
    decreases 13 - r,
{
    if r > 12 {
        0
    } else {
        group_weight_from(s, r + 1) + if rank_count(s, r) >= 2 {
            rank_count(s, r)
        } else {
            0
        }
    }
}

pub open spec fn group_part(s: Seq<Card>, r: int, a: int) -> nat {
    if r <= a <= 12 && rank_count(s, a) >= 2 {
        rank_count(s, a)
    } else {
        0
    }
}

proof fn lemma_rank_count_bound(s: Seq<Card>, r: int)
    ensures
        rank_count(s, r) <= s.len(),
        rank_count(s, r) == s.len() ==> forall|i: int| 0 <= i < s.len() ==> s[i].rank == r,
    decreases s.len(),
{
    if s.len() > 0 {
        lemma_rank_count_bound(s.drop_last(), r);
        if rank_count(s, r) == s.len() {
            assert forall|i: int| 0 <= i < s.len() implies s[i].rank == r by {
                if i < s.len() - 1 {
                    assert(s[i] == s.drop_last()[i]);
                }
            }
        }
    }
}

proof fn lemma_weight_drop_last(s: Seq<Card>, r: int)
    requires
        s.len() > 0,
    ensures
        weight_from(s, r) == weight_from(s.drop_last(), r) + if r <= s.last().rank <= 12 {
            1nat
        } else {
            0nat
        },
    decreases 13 - r,
{
    if r <= 12 {
        lemma_weight_drop_last(s, r + 1);
    }
}

proof fn lemma_weight_total(s: Seq<Card>)
    requires
        all_wf(s),
    ensures
        weight_from(s, 0) == s.len(),
    decreases s.len(),
{
    if s.len() > 0 {
        lemma_weight_drop_last(s, 0);
        lemma_weight_total(s.drop_last());
    } else {
        lemma_weight_empty(s, 0);
    }
}

proof fn lemma_weight_empty(s: Seq<Card>, r: int)
    requires
        s.len() == 0,
    ensures
        weight_from(s, r) == 0,
    decreases 13 - r,
{
    if r <= 12 {
        lemma_weight_empty(s, r + 1);
    }
}

proof fn lemma_weight_split(s: Seq<Card>, r: int)
    ensures
        weight_from(s, r) == singles_from(s, r).len() + group_weight_from(s, r),
    decreases 13 - r,
{
    if r <= 12 {
        lemma_weight_split(s, r + 1);
    }
}

proof fn lemma_group_weight_lower(s: Seq<Card>, r: int, a: int, b: int, c: int)
    requires
        a != b,
        a != c,
        b != c,
    ensures
        group_weight_from(s, r) >= group_part(s, r, a) + group_part(s, r, b) + group_part(s, r, c),
    decreases 13 - r,
{
    if r <= 12 {
        lemma_group_weight_lower(s, r + 1, a, b, c);
    }
}

proof fn lemma_group_weight_exact(s: Seq<Card>, r: int, a: int, b: int)
    requires
        a != b,
        forall|k: int| r <= k <= 12 && k != a && k != b ==> rank_count(s, k) < 2,
    ensures
        group_weight_from(s, r) == group_part(s, r, a) + group_part(s, r, b),
    decreases 13 - r,
{
    if r <= 12 {
        lemma_group_weight_exact(s, r + 1, a, b);
    }
}

proof fn lemma_top_group(s: Seq<Card>, r: int, excl: int)
    ensures
        ({
            let t = top_group(s, r, excl);
            &&& t < 0 ==> t == -1 && forall|k: int|
                0 <= k <= r && k != excl ==> rank_count(s, k) < 2
            &&& t >= 0 ==> {
                &&& t <= r
                &&& t != excl
                &&& rank_count(s, t) >= 2
                &&& forall|k: int|
                    0 <= k <= r && k != excl && k != t ==> rank_count(s, k) < 2 || rank_count(
                        s,
                        k,
                    ) < rank_count(s, t) || (rank_count(s, k) == rank_count(s, t) && k < t)
            }
        }),
    decreases r + 1,
{
    if r >= 0 {
        lemma_top_group(s, r - 1, excl);
    }
}

/// A five-card hand in which no rank holds all five cards has the shape its category fixes.
pub proof fn lemma_hand_rank_shape(s: Seq<Card>)
    requires
        s.len() == 5,
        all_wf(s),
        forall|k: int| rank_count(s, k) <= 4,
    ensures
        hand_rank_of(s).wf(),
{
    let p = primary_rank(s);
    let q = secondary_rank(s);
    lemma_top_group(s, 12, -1);
    lemma_top_group(s, 12, p);
    lemma_weight_total(s);
    lemma_weight_split(s, 0);
    if p < 0 {
        assert(q == -1);
        lemma_group_weight_exact(s, 0, -1, -2);
    } else if q < 0 {
        lemma_group_weight_exact(s, 0, p, -1);
    } else {
        assert forall|k: int| 0 <= k <= 12 && k != p && k != q implies rank_count(s, k) < 2 by {
            if rank_count(s, k) >= 2 {
                lemma_group_weight_lower(s, 0, p, q, k);
            }
        }
        lemma_group_weight_exact(s, 0, p, q);
    }
}

/// Five distinct valid cards never share one rank.
pub proof fn lemma_distinct_rank_count(s: Seq<Card>, r: int)
    requires
        s.len() == 5,
        all_wf(s),
        all_distinct(s),
    ensures
        rank_count(s, r) <= 4,
{
    lemma_rank_count_bound(s, r);
    if rank_count(s, r) == 5 {
        assert(s[0].rank == r && s[1].rank == r && s[2].rank == r && s[3].rank == r && s[4].rank
            == r);
        assert(s[0].suit != s[1].suit);
        assert(s[0].suit != s[2].suit && s[1].suit != s[2].suit);
        assert(s[0].suit != s[3].suit && s[1].suit != s[3].suit && s[2].suit != s[3].suit);
        assert(s[0].suit != s[4].suit && s[1].suit != s[4].suit && s[2].suit != s[4].suit
            && s[3].suit != s[4].suit);
    }
}

// ---------------------------------------------------------------------
// Laws of the hand order.
// ---------------------------------------------------------------------

pub open spec fn reversed(o: Ordering) -> Ordering {
    match o {
        Ordering::Less => Ordering::Greater,
        Ordering::Greater => Ordering::Less,
        Ordering::Equal => Ordering::Equal,
    }
}

pub open spec fn kicker_order(a: Seq<Card>, b: Seq<Card>, i: int) -> Ordering {
    let k = kicker_difference(a, b, i);
    if k < a.len() && k < b.len() {
        order_of(a[k].rank as int, b[k].rank as int)
    } else {
        Ordering::Equal
    }
}

proof fn lemma_kicker_difference_symmetric(a: Seq<Card>, b: Seq<Card>, i: int)
    requires
        0 <= i,
    ensures
        kicker_difference(a, b, i) == kicker_difference(b, a, i),
        i <= kicker_difference(a, b, i),
    decreases a.len() - i,
{
    if i < a.len() && i < b.len() && a[i].rank == b[i].rank {
        lemma_kicker_difference_symmetric(a, b, i + 1);
    }
}

proof fn lemma_kicker_order_transitive(a: Seq<Card>, b: Seq<Card>, c: Seq<Card>, i: int)
    requires
        a.len() == b.len(),
        b.len() == c.len(),
        0 <= i <= a.len(),
        kicker_order(a, b, i) != Ordering::Greater,
        kicker_order(b, c, i) != Ordering::Greater,
    ensures
        kicker_order(a, c, i) != Ordering::Greater,
    decreases a.len() - i,
{
    if i < a.len() {
        if a[i].rank == b[i].rank && b[i].rank == c[i].rank {
            lemma_kicker_order_transitive(a, b, c, i + 1);
        }
    }
}

/// Swapping the two hands reverses their order.
pub proof fn lemma_hand_order_antisymmetric(a: HandRankModel, b: HandRankModel)
    ensures
        hand_order(b, a) == reversed(hand_order(a, b)),
{
    lemma_kicker_difference_symmetric(a.kickers, b.kickers, 0);
}

/// On ranks of the shape their category fixes, "not above" is transitive.
pub proof fn lemma_hand_order_transitive(a: HandRankModel, b: HandRankModel, c: HandRankModel)
    requires
        a.wf(),
        b.wf(),
        c.wf(),
        hand_order(a, b) != Ordering::Greater,
        hand_order(b, c) != Ordering::Greater,
    ensures
        hand_order(a, c) != Ordering::Greater,
{
    if a.category == b.category && b.category == c.category {
        if !lead_cards_differ(a.primary, b.primary) && !lead_cards_differ(b.primary, c.primary)
            && !lead_cards_differ(a.secondary, b.secondary) && !lead_cards_differ(
            b.secondary,
            c.secondary,
        ) {
            lemma_kicker_order_transitive(a.kickers, b.kickers, c.kickers, 0);
        }
    }
}

/// Two hands with equal categories and lead cards and kickers of equal
/// ranks tie, and nothing is named as deciding.
pub proof fn lemma_equal_hands_tie(a: HandRankModel, b: HandRankModel)
    requires
        a.category == b.category,
        (a.primary is Some) == (b.primary is Some),
        a.primary is Some ==> a.primary->0.rank == b.primary->0.rank,
        (a.secondary is Some) == (b.secondary is Some),
        a.secondary is Some ==> a.secondary->0.rank == b.secondary->0.rank,
        a.kickers.len() == b.kickers.len(),
        forall|i: int| 0 <= i < a.kickers.len() ==> a.kickers[i].rank == b.kickers[i].rank,
    ensures
        hand_comparison(a, b) == (Ordering::Equal, ShowdownDecidingFactor::Tie),
{
    lemma_kickers_equal(a.kickers, b.kickers, 0);
}

proof fn lemma_kickers_equal(a: Seq<Card>, b: Seq<Card>, i: int)
    requires
        0 <= i <= a.len(),
        a.len() == b.len(),
        forall|j: int| 0 <= j < a.len() ==> a[j].rank == b[j].rank,
    ensures
        kicker_difference(a, b, i) == a.len(),
    decreases a.len() - i,
{
    if i < a.len() {
        lemma_kickers_equal(a, b, i + 1);
    }
}

// ---------------------------------------------------------------------
// Ranking, executable.
// ---------------------------------------------------------------------

proof fn lemma_rank_present(s: Seq<Card>, r: int)
    requires
        rank_count(s, r) > 0,
    ensures
        exists|j: int| 0 <= j < s.len() && s[j].rank == r,
    decreases s.len(),
{
    if s.last().rank != r {
        lemma_rank_present(s.drop_last(), r);
        let j = choose|j: int| 0 <= j < s.drop_last().len() && s.drop_last()[j].rank == r;
        assert(s[j] == s.drop_last()[j]);
    } else {
        assert(s[s.len() - 1].rank == r);
    }
}

fn count_ranks(cards: &[Card; 5]) -> (counts: Vec<u8>)
    requires
        all_wf(cards@),
    ensures
        counts.len() == 13,
        forall|r: int| 0 <= r < 13 ==> counts@[r] == rank_count(cards@, r),
{
    let mut counts: Vec<u8> = Vec::new();
    let mut r: usize = 0;
    while r < 13
        invariant
            counts.len() == r,
            r <= 13,
            forall|k: int| 0 <= k < r ==> counts@[k] == 0,
        decreases 13 - r,
    {
        counts.push(0);
        r = r + 1;
    }
    assert(cards@.subrange(0, 0).len() == 0);
    let mut i: usize = 0;
    while i < 5
        invariant
            counts.len() == 13,
            0 <= i <= 5,
            all_wf(cards@),
            forall|k: int|
                0 <= k < 13 ==> counts@[k] == rank_count(cards@.subrange(0, i as int), k),
        decreases 5 - i,
    {
        let rk = cards[i].rank as usize;
        let ghost pre = cards@.subrange(0, i as int);
        proof {
            lemma_rank_count_bound(pre, rk as int);
            assert(cards@.subrange(0, i + 1).drop_last() =~= pre);
        }
        let c = counts[rk];
        counts.set(rk, c + 1);
        i = i + 1;
    }
    assert(cards@.subrange(0, 5) =~= cards@);
    counts
}

fn first_card_of_rank(cards: &[Card; 5], r: u8) -> (c: Card)
    requires
        rank_count(cards@, r as int) > 0,
    ensures
        c == first_of_rank(cards@, r as int),
{
    proof {
        lemma_rank_present(cards@, r as int);
    }
    let mut i: usize = 0;
    while i < 5
        invariant
            0 <= i <= 5,
            first_index_of_rank(cards@, r as int, 0) == first_index_of_rank(cards@, r as int, i as int),
            forall|j: int| 0 <= j < i ==> cards@[j].rank != r,
        decreases 5 - i,
    {
        if cards[i].rank == r {
            return cards[i];
        }
        i = i + 1;
    }
    cards[0]
}

fn top_group_of(counts: &Vec<u8>, excl: i8, Ghost(s): Ghost<Seq<Card>>) -> (t: i8)
    requires
        counts.len() == 13,
        forall|r: int| 0 <= r < 13 ==> counts@[r] == rank_count(s, r),
    ensures
        t == top_group(s, 12, excl as int),
        -1 <= t <= 12,
{
    let mut best: i8 = -1;
    let mut r: i8 = 0;
    while r < 13
        invariant
            0 <= r <= 13,
            -1 <= best < r,
            best == top_group(s, r - 1, excl as int),
            counts.len() == 13,
            forall|k: int| 0 <= k < 13 ==> counts@[k] == rank_count(s, k),
        decreases 13 - r,
    {
        let c = counts[r as usize];
        if r != excl && c >= 2 && (best < 0 || c >= counts[best as usize]) {
            best = r;
        }
        r = r + 1;
    }
    best
}

fn run_at(counts: &Vec<u8>, lo: usize, Ghost(s): Ghost<Seq<Card>>) -> (b: bool)
    requires
        counts.len() == 13,
        lo <= 8,
        forall|r: int| 0 <= r < 13 ==> counts@[r] == rank_count(s, r),
    ensures
        b == run_from(s, lo as int),
{
    counts[lo] == 1 && counts[lo + 1] == 1 && counts[lo + 2] == 1 && counts[lo + 3] == 1
        && counts[lo + 4] == 1
}

fn straight_in(counts: &Vec<u8>, Ghost(s): Ghost<Seq<Card>>) -> (b: bool)
    requires
        counts.len() == 13,
        forall|r: int| 0 <= r < 13 ==> counts@[r] == rank_count(s, r),
    ensures
        b == is_straight(s),
{
    if counts[0] == 1 && counts[1] == 1 && counts[2] == 1 && counts[3] == 1 && counts[12] == 1 {
        return true;
    }
    let mut lo: usize = 0;
    while lo <= 8
        invariant
            0 <= lo <= 9,
            !is_wheel(s),
            counts.len() == 13,
            forall|r: int| 0 <= r < 13 ==> counts@[r] == rank_count(s, r),
            forall|l: int| 0 <= l < lo ==> !run_from(s, l),
        decreases 9 - lo,
    {
        if run_at(counts, lo, Ghost(s)) {
            return true;
        }
        lo = lo + 1;
    }
    false
}

fn flush_in(cards: &[Card; 5]) -> (b: bool)
    ensures
        b == is_flush(cards@),
{
    let mut i: usize = 1;
    while i < 5
        invariant
            1 <= i <= 5,
            forall|j: int| 0 <= j < i ==> #[trigger] cards@[j].suit == cards@[0].suit,
        decreases 5 - i,
    {
        if cards[i].suit != cards[0].suit {
            return false;
        }
        i = i + 1;
    }
    true
}

/// Ranks a five-card hand.
pub fn rank_hand(cards: &[Card; 5]) -> (r: HandRank)
    requires
        all_wf(cards@),
    ensures
        r@ == hand_rank_of(cards@),
{
    let ghost s = cards@;
    let counts = count_ranks(cards);
    let p = top_group_of(&counts, -1, Ghost(s));
    let q = top_group_of(&counts, p, Ghost(s));
    proof {
        lemma_top_group(s, 12, -1);
        lemma_top_group(s, 12, p as int);
    }
    let category = if p < 0 {
        let straight = straight_in(&counts, Ghost(s));
        let flush = flush_in(cards);
        if straight && flush {
            if run_at(&counts, 8, Ghost(s)) {
                HandCategory::RoyalFlush
            } else {
                HandCategory::StraightFlush
            }
        } else if flush {
            HandCategory::Flush
        } else if straight {
            HandCategory::Straight
        } else {
            HandCategory::HighCard
        }
    } else {
        let c = counts[p as usize];
        if c == 4 {
            HandCategory::FourKind
        } else if c == 3 {
            if q >= 0 {
                HandCategory::FullHouse
            } else {
                HandCategory::ThreeKind
            }
        } else if c == 2 {
            if q >= 0 {
                HandCategory::TwoPair
            } else {
                HandCategory::OnePair
            }
        } else {
            HandCategory::HighCard
        }
    };
    let primary = if p >= 0 {
        Some(first_card_of_rank(cards, p as u8))
    } else {
        None
    };
    let secondary = if q >= 0 {
        Some(first_card_of_rank(cards, q as u8))
    } else {
        None
    };
    let mut kickers: Vec<Card> = Vec::new();
    let mut i: usize = 13;
    while i > 0
        invariant
            0 <= i <= 13,
            kickers@ == singles_from(s, i as int),
            s == cards@,
            counts.len() == 13,
            forall|k: int| 0 <= k < 13 ==> counts@[k] == rank_count(s, k),
        decreases i,
    {
        let rk = i - 1;
        if counts[rk] == 1 {
            kickers.push(first_card_of_rank(cards, rk as u8));
        }
        i = rk;
    }
    HandRank { category, primary, secondary, kickers }
}

// ---------------------------------------------------------------------
// The best five of seven.
// ---------------------------------------------------------------------

/// The `j`-th index kept when indices `a` and `b` (`a < b`) are left out of `0..7`.
pub open spec fn kept_index(a: int, b: int, j: int) -> int {
    if j < a {
        j
    } else if j + 1 < b {
        j + 1
    } else {
        j + 2
    }
}

/// The five cards of `s` left when the cards at `a` and `b` are left out.
pub open spec fn omit_two(s: Seq<Card>, a: int, b: int) -> Seq<Card> {
    Seq::new(5, |j: int| s[kept_index(a, b, j)])
}

pub open spec fn is_five_of(s: Seq<Card>, five: Seq<Card>) -> bool {
    exists|a: int, b: int| 0 <= a < b < 7 && five == omit_two(s, a, b)
}

fn kept(a: usize, b: usize, j: usize) -> (r: usize)
    requires
        a < b < 7,
        j < 5,
    ensures
        r == kept_index(a as int, b as int, j as int),
        r < 7,
{
    if j < a {
        j
    } else if j + 1 < b {
        j + 1
    } else {
        j + 2
    }
}

proof fn lemma_five_valid(s: Seq<Card>, a: int, b: int)
    requires
        s.len() == 7,
        0 <= a < b < 7,
        all_wf(s),
        all_distinct(s),
    ensures
        all_wf(omit_two(s, a, b)),
        all_distinct(omit_two(s, a, b)),
        forall|k: int| rank_count(omit_two(s, a, b), k) <= 4,
{
    let f = omit_two(s, a, b);
    assert forall|i: int, j: int| 0 <= i < j < 5 implies (f[i].rank != f[j].rank || f[i].suit
        != f[j].suit) by {
        assert(kept_index(a, b, i) < kept_index(a, b, j));
    }
    assert forall|k: int| rank_count(f, k) <= 4 by {
        lemma_distinct_rank_count(f, k);
    }
}

/// Some entry of `r` is the five cards of `s` left without those at `x` and `y`.
pub open spec fn covered(r: Seq<[Card; 5]>, s: Seq<Card>, x: int, y: int) -> bool {
    exists|k: int| 0 <= k < r.len() && r[k]@ == omit_two(s, x, y)
}

/// How many pairs `x < y < 7` have `x < a`.
pub open spec fn pairs_before(a: int) -> int {
    if a <= 0 {
        0
    } else if a == 1 {
        6
    } else if a == 2 {
        11
    } else if a == 3 {
        15
    } else if a == 4 {
        18
    } else if a == 5 {
        20
    } else {
        21
    }
}

/// Where the hand without the cards at `a < b` stands among the 21: the
/// pairs in order of `a`, then of `b`.
pub open spec fn pair_index(a: int, b: int) -> int {
    pairs_before(a) + (b - a - 1)
}

/// Entry `pair_index(x, y)` of `r` is the hand without the cards at `x` and `y`.
pub open spec fn in_place(r: Seq<[Card; 5]>, s: Seq<Card>, x: int, y: int) -> bool {
    pair_index(x, y) < r.len() && r[pair_index(x, y)]@ == omit_two(s, x, y)
}

/// All 21 ways to take five of the seven cards.
fn get_all_combinations(cards: &[Card; 7]) -> (r: Vec<[Card; 5]>)
    ensures
        r.len() == 21,
        forall|k: int| 0 <= k < r.len() ==> is_five_of(cards@, #[trigger] r@[k]@),
        forall|a: int, b: int| 0 <= a < b < 7 ==> #[trigger] covered(r@, cards@, a, b),
        forall|a: int, b: int| 0 <= a < b < 7 ==> #[trigger] in_place(r@, cards@, a, b),
{
    let mut r: Vec<[Card; 5]> = Vec::new();
    let mut a: usize = 0;
    while a < 7
        invariant
            0 <= a <= 7,
            r.len() == pairs_before(a as int),
            forall|k: int| 0 <= k < r.len() ==> is_five_of(cards@, #[trigger] r@[k]@),
            forall|x: int, y: int|
                0 <= x < y < 7 && x < a ==> #[trigger] covered(r@, cards@, x, y),
            forall|x: int, y: int|
                0 <= x < y < 7 && x < a ==> #[trigger] in_place(r@, cards@, x, y),
        decreases 7 - a,
    {
        let mut b: usize = a + 1;
        while b < 7
            invariant
                0 <= a < 7,
                a + 1 <= b <= 7,
                r.len() == pairs_before(a as int) + (b - a - 1),
                forall|k: int| 0 <= k < r.len() ==> is_five_of(cards@, #[trigger] r@[k]@),
                forall|x: int, y: int|
                    0 <= x < y < 7 && (x < a || (x == a && y < b)) ==> #[trigger] covered(
                        r@,
                        cards@,
                        x,
                        y,
                    ),
                forall|x: int, y: int|
                    0 <= x < y < 7 && (x < a || (x == a && y < b)) ==> #[trigger] in_place(
                        r@,
                        cards@,
                        x,
                        y,
                    ),
            decreases 7 - b,
        {
            let five = [
                cards[kept(a, b, 0)],
                cards[kept(a, b, 1)],
                cards[kept(a, b, 2)],
                cards[kept(a, b, 3)],
                cards[kept(a, b, 4)],
            ];
            assert(five@ =~= omit_two(cards@, a as int, b as int));
            let ghost old_r = r@;
            r.push(five);
            assert forall|x: int, y: int|
                0 <= x < y < 7 && (x < a || (x == a && y < b + 1)) implies #[trigger] covered(
                r@,
                cards@,
                x,
                y,
            ) by {
                if x == a && y == b {
                    assert(r@[old_r.len() as int]@ == omit_two(cards@, x, y));
                } else {
                    assert(covered(old_r, cards@, x, y));
                    let k = choose|k: int|
                        0 <= k < old_r.len() && old_r[k]@ == omit_two(cards@, x, y);
                    assert(r@[k] == old_r[k]);
                }
            }
            assert forall|x: int, y: int|
                0 <= x < y < 7 && (x < a || (x == a && y < b + 1)) implies #[trigger] in_place(
                r@,
                cards@,
                x,
                y,
            ) by {
                if x == a && y == b {
                    assert(pair_index(x, y) == old_r.len());
                } else {
                    assert(in_place(old_r, cards@, x, y));
                    assert(r@[pair_index(x, y)] == old_r[pair_index(x, y)]);
                }
            }
            assert(is_five_of(cards@, r@[old_r.len() as int]@));
            assert forall|k: int| 0 <= k < r.len() implies is_five_of(cards@, #[trigger] r@[k]@) by {
                if k < old_r.len() {
                    assert(r@[k] == old_r[k]);
                }
            }
            b = b + 1;
        }
        a = a + 1;
    }
    r
}

/// The best five-card hand among the seven cards, and its rank.
pub fn get_best_hand(cards: &[Card; 7]) -> (r: ([Card; 5], HandRank))
    requires
        all_wf(cards@),
        all_distinct(cards@),
    ensures
        is_five_of(cards@, r.0@),
        r.1@ == hand_rank_of(r.0@),
        r.1@.wf(),
        forall|a: int, b: int|
            0 <= a < b < 7 ==> hand_order(hand_rank_of(omit_two(cards@, a, b)), r.1@)
                != Ordering::Greater,
{
    let combos = get_all_combinations(cards);
    proof {
        assert forall|k: int| 0 <= k < combos.len() implies all_wf(#[trigger] combos@[k]@) && hand_rank_of(
            combos@[k]@,
        ).wf() by {
            let (a, b) = choose|a: int, b: int|
                0 <= a < b < 7 && combos@[k]@ == omit_two(cards@, a, b);
            lemma_five_valid(cards@, a, b);
            lemma_hand_rank_shape(combos@[k]@);
        }
    }
    let mut best_cards = combos[0];
    let mut best = rank_hand(&best_cards);
    let mut i: usize = 1;
    while i < 21
        invariant
            1 <= i <= 21,
            combos.len() == 21,
            forall|k: int| 0 <= k < combos.len() ==> is_five_of(cards@, #[trigger] combos@[k]@),
            forall|k: int|
                0 <= k < combos.len() ==> all_wf(#[trigger] combos@[k]@) && hand_rank_of(
                    combos@[k]@,
                ).wf(),
            is_five_of(cards@, best_cards@),
            best@ == hand_rank_of(best_cards@),
            best@.wf(),
            forall|k: int|
                0 <= k < i ==> hand_order(hand_rank_of(#[trigger] combos@[k]@), best@)
                    != Ordering::Greater,
        decreases 21 - i,
    {
        let five = combos[i];
        let rank = rank_hand(&five);
        let (ord, _) = compare_hand_ranks(&rank, &best);
        if let Ordering::Greater = ord {
            proof {
                lemma_hand_order_antisymmetric(rank@, best@);
                assert forall|k: int| 0 <= k < i + 1 implies hand_order(
                    hand_rank_of(#[trigger] combos@[k]@),
                    rank@,
                ) != Ordering::Greater by {
                    if k < i {
                        lemma_hand_order_transitive(hand_rank_of(combos@[k]@), best@, rank@);
                    }
                }
            }
            best = rank;
            best_cards = five;
        }
        i = i + 1;
    }
    proof {
        assert forall|a: int, b: int| 0 <= a < b < 7 implies hand_order(
            hand_rank_of(omit_two(cards@, a, b)),
            best@,
        ) != Ordering::Greater by {
            assert(covered(combos@, cards@, a, b));
            let k = choose|k: int| 0 <= k < combos.len() && combos@[k]@ == omit_two(cards@, a, b);
        }
    }
    (best_cards, best)
}

/// The rank of the best five-card hand among the seven cards: no five of
/// them rank above it.
pub fn get_best_hand_rank(cards: &[Card; 7]) -> (r: HandRank)
    requires
        all_wf(cards@),
        all_distinct(cards@),
    ensures
        exists|five: Seq<Card>| is_five_of(cards@, five) && r@ == hand_rank_of(five),
        r@.wf(),
        forall|a: int, b: int|
            0 <= a < b < 7 ==> hand_order(hand_rank_of(omit_two(cards@, a, b)), r@)
                != Ordering::Greater,
{
    let (_, rank) = get_best_hand(cards);
    rank
}

} // verus!
