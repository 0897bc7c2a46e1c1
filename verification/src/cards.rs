//! Cards and blackjack hand scoring.

use vstd::prelude::*;

verus! {

/// A playing card. `value` runs 1..=13 (1 = ace, 11..=13 = face cards);
/// `suit` runs 0..=3.
#[derive(Clone, Copy, Debug, PartialEq, Eq, Structural)]
pub struct Card {
    pub value: u32,
    pub suit: u32,
}

pub open spec fn card_valid(c: Card) -> bool {
    1 <= c.value <= 13 && c.suit <= 3
}

pub open spec fn hand_valid(h: Seq<Card>) -> bool {
    forall|i: int| 0 <= i < h.len() ==> card_valid(#[trigger] h[i])
}

/// Points a card contributes before any ace is re-valued: an ace counts 11,
/// face cards count 10, every other card counts its value.
pub open spec fn soft_points(c: Card) -> int {
    if c.value == 1 {
        11
    } else if 11 <= c.value && c.value <= 13 {
        10
    } else {
        c.value as int
    }
}

/// Points a card contributes once every ace counts 1.
pub open spec fn hard_points(c: Card) -> int {
    if 11 <= c.value && c.value <= 13 {
        10
    } else {
        c.value as int
    }
}

pub open spec fn soft_total(h: Seq<Card>) -> int
    decreases h.len(),
{
    if h.len() == 0 {
        0
    } else {
        soft_total(h.drop_last()) + soft_points(h.last())
    }
}

pub open spec fn hard_total(h: Seq<Card>) -> int
    decreases h.len(),
{
    if h.len() == 0 {
        0
    } else {
        hard_total(h.drop_last()) + hard_points(h.last())
    }
}

pub open spec fn ace_count(h: Seq<Card>) -> int
    decreases h.len(),
{
    if h.len() == 0 {
        0
    } else {
        ace_count(h.drop_last()) + if h.last().value == 1 {
            1int
        } else {
            0int
        }
    }
}

/// Re-values aces from 11 down to 1, one at a time, while the total busts.
pub open spec fn adjust(total: int, aces: int) -> int
    decreases aces,
{
    if total > 21 && aces > 0 {
        adjust(total - 10, aces - 1)
    } else {
        total
    }
}

/// The blackjack value of a hand: aces start at 11 and drop to 1 only as
/// needed to bring the total back to 21 or below.
pub open spec fn score(h: Seq<Card>) -> int {
    adjust(soft_total(h), ace_count(h))
}

/// Totals of a valid hand: the hard total sits between the hand's length and
/// ten times its length, and the soft total exceeds it by ten per ace.
pub proof fn lemma_hand_totals(h: Seq<Card>)
    requires
        hand_valid(h),
    ensures
        h.len() <= hard_total(h) <= 10 * h.len(),
        soft_total(h) == hard_total(h) + 10 * ace_count(h),
        0 <= ace_count(h) <= h.len(),
    decreases h.len(),
{
    if h.len() > 0 {
        assert(hand_valid(h.drop_last()));
        lemma_hand_totals(h.drop_last());
        assert(card_valid(h.last()));
    }
}

proof fn lemma_adjust_bounds(t: int, a: int)
    requires
        a >= 0,
    ensures
        t - 10 * a <= adjust(t, a) <= t,
        adjust(t, a) > 21 ==> adjust(t, a) == t - 10 * a,
    decreases a,
{
    if t > 21 && a > 0 {
        lemma_adjust_bounds(t - 10, a - 1);
    }
}

/// The score of a valid hand sits between its hard and soft totals, and is
/// at least the number of cards in it.
pub proof fn lemma_score_bounds(h: Seq<Card>)
    requires
        hand_valid(h),
    ensures
        hard_total(h) <= score(h) <= soft_total(h),
        h.len() <= score(h),
{
    lemma_hand_totals(h);
    lemma_adjust_bounds(soft_total(h), ace_count(h));
}

/// A hand that still scores above 21 has no reducible soft ace left: every
/// ace already counts 1, so the score equals the hard total and no further
/// re-valuation could lower it.
pub proof fn lemma_score_irreducible(h: Seq<Card>)
    requires
        hand_valid(h),
    ensures
        score(h) > 21 ==> score(h) == hard_total(h),
{
    lemma_hand_totals(h);
    lemma_adjust_bounds(soft_total(h), ace_count(h));
}

/// Two valid cards never score above 21: at worst a pair of aces starts at
/// 22 and one ace drops to 1, for a score of 12.
pub proof fn lemma_two_card_score(h: Seq<Card>)
    requires
        hand_valid(h),
        h.len() == 2,
    ensures
        score(h) <= 21,
{
    let c0 = h[0];
    let c1 = h[1];
    assert(h.last() == c1);
    assert(h.drop_last().len() == 1);
    assert(h.drop_last().last() == c0);
    assert(h.drop_last().drop_last() =~= Seq::<Card>::empty());
    assert(soft_total(h.drop_last().drop_last()) == 0);
    assert(ace_count(h.drop_last().drop_last()) == 0);
    assert(soft_total(h.drop_last()) == soft_points(c0));
    assert(ace_count(h.drop_last()) == (if c0.value == 1 {
        1int
    } else {
        0int
    }));
    assert(soft_total(h) == soft_points(c0) + soft_points(c1));
    assert(ace_count(h) == (if c0.value == 1 {
        1int
    } else {
        0int
    }) + (if c1.value == 1 {
        1int
    } else {
        0int
    }));
    assert(card_valid(c0) && card_valid(c1));
    if soft_total(h) <= 21 {
        assert(score(h) == soft_total(h));
    } else {
        assert(soft_points(c0) == 11 && soft_points(c1) == 11);
        assert(c0.value == 1 && c1.value == 1);
        assert(score(h) == adjust(22, 2));
        assert(adjust(22, 2) == adjust(12, 1));
        assert(adjust(12, 1) == 12);
    }
}

/// Computes the blackjack value of `hand`: aces count 11, then drop to 1
/// one at a time while the total exceeds 21.
pub fn calculate_hand_value(hand: &Vec<Card>) -> (r: u32)
    requires
        hand_valid(hand@),
        11 * hand@.len() <= u32::MAX,
    ensures
        r == score(hand@),
{
    let mut value: u32 = 0;
    let mut aces: u32 = 0;
    let mut i: usize = 0;
    while i < hand.len()
        invariant
            i <= hand@.len(),
            hand_valid(hand@),
            11 * hand@.len() <= u32::MAX,
            value == soft_total(hand@.take(i as int)),
            aces == ace_count(hand@.take(i as int)),
            value <= 11 * i,
            aces <= i,
        decreases hand@.len() - i,
    {
        proof {
            assert(hand@.take(i + 1).drop_last() =~= hand@.take(i as int));
            assert(hand@.take(i + 1).last() == hand@[i as int]);
            assert(card_valid(hand@[i as int]));
        }
        let c = hand[i];
        if c.value == 1 {
            aces += 1;
            value += 11;
        } else if c.value >= 11 {
            value += 10;
        } else {
            value += c.value;
        }
        i += 1;
    }
    proof {
        assert(hand@.take(hand@.len() as int) =~= hand@);
    }
    while value > 21 && aces > 0
        invariant
            adjust(value as int, aces as int) == score(hand@),
        decreases aces,
    {
        value -= 10;
        aces -= 1;
    }
    value
}

/// Forms a card from two raw random draws, as the dealing edge supplies
/// them: the value draw is folded into 1..=13, the suit draw into 0..=3.
pub fn deal_card(value_entropy: u64, suit_entropy: u64) -> (c: Card)
    ensures
        c.value == value_entropy % 13 + 1,
        c.suit == suit_entropy % 4,
        card_valid(c),
{
    Card { value: (value_entropy % 13 + 1) as u32, suit: (suit_entropy % 4) as u32 }
}

} // verus!
