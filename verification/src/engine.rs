//! The game engine: per-player game records, the house bankroll, and the
//! bet / hit / stand state machine with settlement.

use vstd::prelude::*;
use crate::cards::{
    Card, calculate_hand_value, card_valid, hand_valid, lemma_score_bounds, lemma_two_card_score,
    score,
};

verus! {

/// Minimum stake accepted for a bet (one whole unit in stroops).
pub const MIN_BET: i128 = 10_000_000;

/// Every way an operation can be refused. Each is a non-retryable rejection
/// that leaves the engine unchanged.
#[derive(Clone, Copy, Debug, PartialEq, Eq, Structural)]
pub enum BlackjackError {
    GameAlreadyExists,
    NoGameExists,
    InvalidBet,
    NotPlayerTurn,
    NotDealerTurn,
    GameNotResolved,
    Unauthorized,
    InvalidPhase,
    InsufficientFunds,
    InvalidAmount,
    AlreadyInitialized,
}

impl BlackjackError {
    pub open spec fn code_spec(self) -> u32 {
        match self {
            BlackjackError::GameAlreadyExists => 1,
            BlackjackError::NoGameExists => 2,
            BlackjackError::InvalidBet => 3,
            BlackjackError::NotPlayerTurn => 4,
            BlackjackError::NotDealerTurn => 5,
            BlackjackError::GameNotResolved => 6,
            BlackjackError::Unauthorized => 7,
            BlackjackError::InvalidPhase => 8,
            BlackjackError::InsufficientFunds => 9,
            BlackjackError::InvalidAmount => 10,
            BlackjackError::AlreadyInitialized => 11,
        }
    }

    /// The stable numeric code of the error, as the surrounding host
    /// reports it to callers.
    pub fn code(self) -> (r: u32)
        ensures
            r == self.code_spec(),
    {
        match self {
            BlackjackError::GameAlreadyExists => 1,
            BlackjackError::NoGameExists => 2,
            BlackjackError::InvalidBet => 3,
            BlackjackError::NotPlayerTurn => 4,
            BlackjackError::NotDealerTurn => 5,
            BlackjackError::GameNotResolved => 6,
            BlackjackError::Unauthorized => 7,
            BlackjackError::InvalidPhase => 8,
            BlackjackError::InsufficientFunds => 9,
            BlackjackError::InvalidAmount => 10,
            BlackjackError::AlreadyInitialized => 11,
        }
    }
}

/// Phase of a live game. A record in `Resolved` is never stored: settlement
/// produces it and deletes the record in the same operation.
#[derive(Clone, Copy, Debug, PartialEq, Eq, Structural)]
pub enum GamePhase {
    PlayerTurn,
    DealerTurn,
    Resolved,
}

/// One player's game: the wager, both hands, the phase, and the scores of
/// the two hands at their last mutation.
#[derive(Debug)]
pub struct GameState {
    pub player: u64,
    pub bet: i128,
    pub player_hand: Vec<Card>,
    pub dealer_hand: Vec<Card>,
    pub phase: GamePhase,
    pub player_score: u32,
    pub dealer_score: u32,
}

/// The mathematical shadow of a `GameState`.
pub ghost struct GameModel {
    pub player: u64,
    pub bet: int,
    pub player_hand: Seq<Card>,
    pub dealer_hand: Seq<Card>,
    pub phase: GamePhase,
    pub player_score: int,
    pub dealer_score: int,
}

impl View for GameState {
    type V = GameModel;

    open spec fn view(&self) -> GameModel {
        GameModel {
            player: self.player,
            bet: self.bet as int,
            player_hand: self.player_hand@,
            dealer_hand: self.dealer_hand@,
            phase: self.phase,
            player_score: self.player_score as int,
            dealer_score: self.dealer_score as int,
        }
    }
}

/// A stored record is well formed: it is in the player's turn, both hands
/// hold valid cards (two for the dealer, at least two for the player), the
/// score fields match the hands, the player has not busted, and the wager
/// meets the minimum stake. The wager's double also fits in an `i128`: a
/// bet is only ever accepted after the twofold payout has been computed
/// against the bankroll.
pub open spec fn game_wf(g: GameModel) -> bool {
    &&& g.phase == GamePhase::PlayerTurn
    &&& hand_valid(g.player_hand)
    &&& hand_valid(g.dealer_hand)
    &&& g.player_hand.len() >= 2
    &&& g.dealer_hand.len() == 2
    &&& g.player_score == score(g.player_hand)
    &&& g.dealer_score == score(g.dealer_hand)
    &&& g.player_score <= 21
    &&& g.bet >= MIN_BET
    &&& 2 * g.bet <= i128::MAX
}

/// The first record for `p` in `s`, if any.
pub open spec fn game_of_seq(s: Seq<GameState>, p: u64) -> Option<GameModel>
    decreases s.len(),
{
    if s.len() == 0 {
        None
    } else if s[0]@.player == p {
        Some(s[0]@)
    } else {
        game_of_seq(s.drop_first(), p)
    }
}

proof fn lemma_game_of_seq_none(s: Seq<GameState>, p: u64)
    ensures
        game_of_seq(s, p) is None <==> forall|i: int| 0 <= i < s.len() ==> (#[trigger] s[i])@.player != p,
    decreases s.len(),
{
    if s.len() > 0 {
        lemma_game_of_seq_none(s.drop_first(), p);
        assert forall|i: int| 0 <= i < s.len() && (game_of_seq(s, p) is None) implies (#[trigger] s[i])@.player != p by {
            if i > 0 {
                assert(s.drop_first()[i - 1] == s[i]);
            }
        }
        if forall|i: int| 0 <= i < s.len() ==> (#[trigger] s[i])@.player != p {
            assert forall|i: int| 0 <= i < s.drop_first().len() implies (#[trigger] s.drop_first()[i])@.player != p by {
                assert(s.drop_first()[i] == s[i + 1]);
            }
        }
    }
}

proof fn lemma_game_of_seq_skip(s: Seq<GameState>, p: u64, i: int)
    requires
        0 <= i <= s.len(),
        forall|j: int| 0 <= j < i ==> (#[trigger] s[j])@.player != p,
    ensures
        game_of_seq(s, p) == game_of_seq(s.skip(i), p),
    decreases i,
{
    if i > 0 {
        assert(s[0]@.player != p);
        assert(s.drop_first() =~= s.skip(1));
        assert forall|j: int| 0 <= j < i - 1 implies (#[trigger] s.skip(1)[j])@.player != p by {
            assert(s.skip(1)[j] == s[j + 1]);
        }
        lemma_game_of_seq_skip(s.skip(1), p, i - 1);
        assert(s.skip(1).skip(i - 1) =~= s.skip(i));
    } else {
        assert(s.skip(0) =~= s);
    }
}

proof fn lemma_game_of_seq_push(s: Seq<GameState>, g: GameState, p: u64)
    ensures
        game_of_seq(s.push(g), p) == if game_of_seq(s, p) is Some {
            game_of_seq(s, p)
        } else if g@.player == p {
            Some(g@)
        } else {
            None::<GameModel>
        },
    decreases s.len(),
{
    if s.len() == 0 {
        assert(s.push(g)[0] == g);
        if g@.player == p {
            assert(game_of_seq(s.push(g), p) == Some(g@));
        } else {
            assert(s.push(g).drop_first() =~= Seq::<GameState>::empty());
            assert(game_of_seq(s.push(g).drop_first(), p) is None);
            assert(game_of_seq(s.push(g), p) is None);
        }
        assert(game_of_seq(s, p) is None);
    } else {
        assert(s.push(g)[0] == s[0]);
        if s[0]@.player == p {
            assert(game_of_seq(s.push(g), p) == Some(s[0]@));
            assert(game_of_seq(s, p) == Some(s[0]@));
        } else {
            assert(s.push(g).drop_first() =~= s.drop_first().push(g));
            lemma_game_of_seq_push(s.drop_first(), g, p);
            assert(game_of_seq(s.push(g), p) == game_of_seq(s.drop_first().push(g), p));
            assert(game_of_seq(s, p) == game_of_seq(s.drop_first(), p));
        }
    }
}

proof fn lemma_game_of_seq_remove(s: Seq<GameState>, i: int, p: u64)
    requires
        0 <= i < s.len(),
        s[i]@.player == p,
        forall|a: int, b: int| 0 <= a < b < s.len() ==> (#[trigger] s[a])@.player != (#[trigger] s[b])@.player,
    ensures
        game_of_seq(s.remove(i), p) is None,
        forall|q: u64| q != p ==> game_of_seq(s.remove(i), q) == game_of_seq(s, q),
    decreases s.len(),
{
    let r = s.remove(i);
    assert forall|j: int| 0 <= j < r.len() implies (#[trigger] r[j])@.player != p by {
        if j < i {
            assert(r[j] == s[j]);
        } else {
            assert(r[j] == s[j + 1]);
        }
    }
    lemma_game_of_seq_none(r, p);
    assert forall|q: u64| q != p implies game_of_seq(s.remove(i), q) == game_of_seq(s, q) by {
        lemma_game_of_seq_remove_other(s, i, q);
    }
}

proof fn lemma_game_of_seq_remove_other(s: Seq<GameState>, i: int, q: u64)
    requires
        0 <= i < s.len(),
        s[i]@.player != q,
    ensures
        game_of_seq(s.remove(i), q) == game_of_seq(s, q),
    decreases s.len(),
{
    let r = s.remove(i);
    if i == 0 {
        assert(r =~= s.drop_first());
    } else {
        assert(r[0] == s[0]);
        if s[0]@.player == q {
        } else {
            assert(r.drop_first() =~= s.drop_first().remove(i - 1));
            assert(s.drop_first()[i - 1] == s[i]);
            lemma_game_of_seq_remove_other(s.drop_first(), i - 1, q);
        }
    }
}

/// What settlement pays back to the player: nothing on a player bust or a
/// dealer win, twice the wager when the player outscores the dealer or the
/// dealer busts, and the bare wager on a push.
pub open spec fn payout_spec(ps: int, ds: int, bet: int) -> int {
    if ps > 21 {
        0
    } else if ds > 21 || ps > ds {
        2 * bet
    } else if ps == ds {
        bet
    } else {
        0
    }
}

/// Settlement never pays out more than twice the wager, and never a
/// negative amount.
pub proof fn lemma_payout_bounds(ps: int, ds: int, bet: int)
    requires
        bet >= 0,
    ensures
        0 <= payout_spec(ps, ds, bet) <= 2 * bet,
{
}

/// The dealer's auto-play policy: starting from `start`, keep taking the
/// next card of `draws` while the hand scores below 17.
pub open spec fn dealer_play(start: Seq<Card>, draws: Seq<Card>) -> Seq<Card>
    decreases draws.len(),
{
    if score(start) >= 17 || draws.len() == 0 {
        start
    } else {
        dealer_play(start.push(draws[0]), draws.drop_first())
    }
}

fn copy_hand(v: &Vec<Card>) -> (r: Vec<Card>)
    ensures
        r@ == v@,
{
    let mut r: Vec<Card> = Vec::new();
    let mut i: usize = 0;
    while i < v.len()
        invariant
            i <= v@.len(),
            r@ == v@.take(i as int),
        decreases v@.len() - i,
    {
        r.push(v[i]);
        proof {
            assert(v@.take(i + 1) =~= v@.take(i as int).push(v@[i as int]));
        }
        i += 1;
    }
    proof {
        assert(v@.take(v@.len() as int) =~= v@);
    }
    r
}

fn snapshot_game(g: &GameState) -> (r: GameState)
    ensures
        r@ == g@,
{
    GameState {
        player: g.player,
        bet: g.bet,
        player_hand: copy_hand(&g.player_hand),
        dealer_hand: copy_hand(&g.dealer_hand),
        phase: g.phase,
        player_score: g.player_score,
        dealer_score: g.dealer_score,
    }
}

fn hand_ok(v: &Vec<Card>) -> (b: bool)
    ensures
        b == hand_valid(v@),
{
    let mut i: usize = 0;
    while i < v.len()
        invariant
            i <= v@.len(),
            forall|j: int| 0 <= j < i ==> card_valid(#[trigger] v@[j]),
        decreases v@.len() - i,
    {
        let c = v[i];
        if c.value < 1 || c.value > 13 || c.suit > 3 {
            return false;
        }
        i += 1;
    }
    true
}

/// Plays the dealer's hand out in place: draws from `draws` while the hand
/// scores below 17, and returns the final score. Fifteen cards always
/// suffice, since every valid card adds at least one point.
fn dealer_draw_out(hand: &mut Vec<Card>, start_score: u32, draws: &Vec<Card>) -> (ds: u32)
    requires
        hand_valid(old(hand)@),
        old(hand)@.len() == 2,
        start_score == score(old(hand)@),
        hand_valid(draws@),
        draws@.len() >= 15,
    ensures
        final(hand)@ == dealer_play(old(hand)@, draws@),
        hand_valid(final(hand)@),
        ds == score(final(hand)@),
        ds >= 17,
{
    proof {
        assert(draws@.skip(0) =~= draws@);
    }
    let mut ds = start_score;
    let mut i: usize = 0;
    while ds < 17
        invariant
            hand_valid(draws@),
            draws@.len() >= 15,
            i <= 15,
            hand_valid(hand@),
            ds == score(hand@),
            hand@.len() == 2 + i,
            dealer_play(old(hand)@, draws@) == dealer_play(hand@, draws@.skip(i as int)),
        decreases 15 - i,
    {
        proof {
            lemma_score_bounds(hand@);
            assert(2 + i <= score(hand@));
            assert(i < 15);
        }
        let ghost prev = hand@;
        let c = draws[i];
        hand.push(c);
        ds = calculate_hand_value(hand);
        i += 1;
        proof {
            assert(draws@.skip((i - 1) as int)[0] == draws@[(i - 1) as int]);
            assert(draws@.skip((i - 1) as int).drop_first() =~= draws@.skip(i as int));
            assert(dealer_play(prev, draws@.skip((i - 1) as int)) == dealer_play(
                hand@,
                draws@.skip(i as int),
            ));
        }
    }
    proof {
        assert(dealer_play(hand@, draws@.skip(i as int)) == hand@);
    }
    ds
}

/// The payout that settling `g` would owe, were the dealer to play out its
/// hand from `draws`. A host can compute this ahead of `stand` to detect a
/// bankroll below what settlement will actually debit — which only a prior
/// accounting bug can produce, and which is fatal, not an ordinary error.
pub fn prospective_payout(g: &GameState, draws: &Vec<Card>) -> (p: i128)
    requires
        game_wf(g@),
        hand_valid(draws@),
        draws@.len() >= 15,
    ensures
        p == payout_spec(g@.player_score, score(dealer_play(g@.dealer_hand, draws@)), g@.bet),
{
    let mut hand = copy_hand(&g.dealer_hand);
    let ds = dealer_draw_out(&mut hand, g.dealer_score, draws);
    if g.player_score > 21 {
        0
    } else if ds > 21 || g.player_score > ds {
        g.bet * 2
    } else if g.player_score == ds {
        g.bet
    } else {
        0
    }
}

fn game_ok(g: &GameState) -> (b: bool)
    ensures
        b == game_wf(g@),
{
    if !matches!(g.phase, GamePhase::PlayerTurn) {
        return false;
    }
    if !hand_ok(&g.player_hand) || !hand_ok(&g.dealer_hand) {
        return false;
    }
    if g.player_hand.len() < 2 || g.dealer_hand.len() != 2 {
        return false;
    }
    if g.player_hand.len() > 21 {
        proof {
            lemma_score_bounds(g@.player_hand);
        }
        return false;
    }
    let ps = calculate_hand_value(&g.player_hand);
    let ds = calculate_hand_value(&g.dealer_hand);
    if g.player_score != ps || g.dealer_score != ds {
        return false;
    }
    if ps > 21 {
        return false;
    }
    if g.bet < MIN_BET {
        return false;
    }
    if g.bet > i128::MAX / 2 {
        return false;
    }
    true
}

proof fn lemma_game_of_seq_player(s: Seq<GameState>, p: u64)
    requires
        game_of_seq(s, p) is Some,
    ensures
        game_of_seq(s, p)->Some_0.player == p,
    decreases s.len(),
{
    if s.len() > 0 && s[0]@.player != p {
        lemma_game_of_seq_player(s.drop_first(), p);
    }
}

proof fn lemma_game_of_seq_in(s: Seq<GameState>, p: u64)
    requires
        game_of_seq(s, p) is Some,
    ensures
        exists|i: int| 0 <= i < s.len() && (#[trigger] s[i])@ == game_of_seq(s, p)->Some_0,
    decreases s.len(),
{
    if s.len() > 0 {
        if s[0]@.player == p {
            assert(s[0]@ == game_of_seq(s, p)->Some_0);
        } else {
            lemma_game_of_seq_in(s.drop_first(), p);
            let j = choose|j: int|
                0 <= j < s.drop_first().len() && (#[trigger] s.drop_first()[j])@ == game_of_seq(
                    s.drop_first(),
                    p,
                )->Some_0;
            assert(s[j + 1]@ == game_of_seq(s, p)->Some_0);
        }
    }
}

/// The engine: the owner identity once set, the house bankroll, and the
/// live game records (at most one per player).
pub struct BlackjackContract {
    owner: Option<u64>,
    house_balance: i128,
    games: Vec<GameState>,
}

impl BlackjackContract {
    pub closed spec fn owner_spec(self) -> Option<u64> {
        self.owner
    }

    pub closed spec fn balance(self) -> int {
        self.house_balance as int
    }

    pub closed spec fn game_of(self, p: u64) -> Option<GameModel> {
        game_of_seq(self.games@, p)
    }

    /// The engine invariant: the bankroll is never negative, no player has
    /// two records, and every stored record is well formed.
    pub closed spec fn wf(self) -> bool {
        &&& self.house_balance >= 0
        &&& forall|a: int, b: int|
            0 <= a < b < self.games@.len() ==> (#[trigger] self.games@[a])@.player != (
            #[trigger] self.games@[b])@.player
        &&& forall|i: int| 0 <= i < self.games@.len() ==> game_wf((#[trigger] self.games@[i])@)
    }

    /// A fresh, uninitialized engine: no owner, an empty bankroll, no games.
    pub fn new() -> (r: Self)
        ensures
            r.wf(),
            r.owner_spec() is None,
            r.balance() == 0,
            forall|p: u64| r.game_of(p) is None,
    {
        BlackjackContract { owner: None, house_balance: 0, games: Vec::new() }
    }

    /// What the engine invariant guarantees observably: the bankroll is
    /// never negative, its live record for any player carries that player's
    /// identity, and every live record is well formed — so its scores are
    /// exactly the scoring function of its hands, never stale, it is in the
    /// player's turn with two dealer cards and at least two player cards,
    /// the player has not busted, and its wager meets the minimum stake.
    pub proof fn lemma_wf_consequences(self, p: u64)
        requires
            self.wf(),
        ensures
            self.balance() >= 0,
            self.game_of(p) matches Some(g) ==> game_wf(g) && g.player == p,
    {
        if self.game_of(p) is Some {
            lemma_game_of_seq_in(self.games@, p);
            lemma_game_of_seq_player(self.games@, p);
        }
    }

    /// Rebuilds an engine from persisted plain state, accepting it only
    /// when the state satisfies the engine invariant: a non-negative
    /// bankroll, at most one record per player, and every record well
    /// formed.
    pub fn restore(owner: Option<u64>, house_balance: i128, games: Vec<GameState>) -> (r: Option<
        BlackjackContract,
    >)
        ensures
            r is Some <==> house_balance >= 0 && (forall|a: int, b: int|
                0 <= a < b < games@.len() ==> (#[trigger] games@[a])@.player != (
                #[trigger] games@[b])@.player) && (forall|i: int|
                0 <= i < games@.len() ==> game_wf((#[trigger] games@[i])@)),
            r matches Some(e) ==> ({
                &&& e.wf()
                &&& e.owner_spec() == owner
                &&& e.balance() == house_balance
                &&& forall|p: u64| e.game_of(p) == game_of_seq(games@, p)
            }),
    {
        if house_balance < 0 {
            return None;
        }
        let mut i: usize = 0;
        while i < games.len()
            invariant
                i <= games@.len(),
                forall|j: int| 0 <= j < i ==> game_wf((#[trigger] games@[j])@),
            decreases games@.len() - i,
        {
            if !game_ok(&games[i]) {
                return None;
            }
            i += 1;
        }
        let mut a: usize = 0;
        while a < games.len()
            invariant
                a <= games@.len(),
                forall|x: int, y: int|
                    0 <= x < y < games@.len() && x < a ==> (#[trigger] games@[x])@.player != (
                    #[trigger] games@[y])@.player,
            decreases games@.len() - a,
        {
            let mut b: usize = a + 1;
            while b < games.len()
                invariant
                    a < games@.len(),
                    a + 1 <= b <= games@.len(),
                    forall|y: int|
                        a < y < b ==> (#[trigger] games@[y])@.player != games@[a as int]@.player,
                decreases games@.len() - b,
            {
                if games[a].player == games[b].player {
                    return None;
                }
                b += 1;
            }
            a += 1;
        }
        Some(BlackjackContract { owner, house_balance, games })
    }

    /// Sets the owner, exactly once, and opens the bankroll at zero.
    /// Fails with `AlreadyInitialized` on every later call.
    pub fn initialize(&mut self, owner: u64) -> (r: Result<(), BlackjackError>)
        requires
            old(self).wf(),
        ensures
            final(self).wf(),
            old(self).owner_spec() is Some ==> r == Err::<(), BlackjackError>(
                BlackjackError::AlreadyInitialized,
            ) && *final(self) == *old(self),
            old(self).owner_spec() is None ==> r == Ok::<(), BlackjackError>(())
                && final(self).owner_spec() == Some(owner) && final(self).balance() == 0
                && (forall|p: u64| final(self).game_of(p) == old(self).game_of(p)),
    {
        if self.owner.is_some() {
            return Err(BlackjackError::AlreadyInitialized);
        }
        self.owner = Some(owner);
        self.house_balance = 0;
        Ok(())
    }

    /// Credits the bankroll by `amount`. Fails with `Unauthorized` while no
    /// owner is set and with `InvalidAmount` when `amount <= 0`; on failure
    /// the engine is unchanged.
    pub fn deposit_house_funds(&mut self, amount: i128) -> (r: Result<(), BlackjackError>)
        requires
            old(self).wf(),
            old(self).owner_spec() is Some && amount > 0 ==> old(self).balance() + amount
                <= i128::MAX,
        ensures
            final(self).wf(),
            final(self).owner_spec() == old(self).owner_spec(),
            forall|p: u64| final(self).game_of(p) == old(self).game_of(p),
            old(self).owner_spec() is None ==> r == Err::<(), BlackjackError>(
                BlackjackError::Unauthorized,
            ) && *final(self) == *old(self),
            old(self).owner_spec() is Some && amount <= 0 ==> r == Err::<(), BlackjackError>(
                BlackjackError::InvalidAmount,
            ) && *final(self) == *old(self),
            old(self).owner_spec() is Some && amount > 0 ==> r == Ok::<(), BlackjackError>(())
                && final(self).balance() == old(self).balance() + amount,
    {
        if self.owner.is_none() {
            return Err(BlackjackError::Unauthorized);
        }
        if amount <= 0 {
            return Err(BlackjackError::InvalidAmount);
        }
        self.house_balance = self.house_balance + amount;
        Ok(())
    }

    /// Debits the bankroll by `amount`. Fails with `Unauthorized` while no
    /// owner is set, with `InvalidAmount` when `amount <= 0`, and with
    /// `InsufficientFunds` when `amount` exceeds the balance; on failure the
    /// engine is unchanged.
    pub fn withdraw_house_funds(&mut self, amount: i128) -> (r: Result<(), BlackjackError>)
        requires
            old(self).wf(),
        ensures
            final(self).wf(),
            final(self).owner_spec() == old(self).owner_spec(),
            forall|p: u64| final(self).game_of(p) == old(self).game_of(p),
            old(self).owner_spec() is None ==> r == Err::<(), BlackjackError>(
                BlackjackError::Unauthorized,
            ) && *final(self) == *old(self),
            old(self).owner_spec() is Some && amount <= 0 ==> r == Err::<(), BlackjackError>(
                BlackjackError::InvalidAmount,
            ) && *final(self) == *old(self),
            old(self).owner_spec() is Some && amount > 0 && amount > old(self).balance() ==> r
                == Err::<(), BlackjackError>(BlackjackError::InsufficientFunds) && *final(self)
                == *old(self),
            old(self).owner_spec() is Some && 0 < amount <= old(self).balance() ==> r == Ok::<
                (),
                BlackjackError,
            >(()) && final(self).balance() == old(self).balance() - amount,
    {
        if self.owner.is_none() {
            return Err(BlackjackError::Unauthorized);
        }
        if amount <= 0 {
            return Err(BlackjackError::InvalidAmount);
        }
        if self.house_balance < amount {
            return Err(BlackjackError::InsufficientFunds);
        }
        self.house_balance = self.house_balance - amount;
        Ok(())
    }

    fn find_game(&self, player: u64) -> (r: Option<usize>)
        ensures
            match r {
                Some(i) => i < self.games@.len() && self.games@[i as int]@.player == player
                    && self.game_of(player) == Some(self.games@[i as int]@),
                None => self.game_of(player) is None,
            },
    {
        let mut i: usize = 0;
        while i < self.games.len()
            invariant
                i <= self.games@.len(),
                forall|j: int| 0 <= j < i ==> (#[trigger] self.games@[j])@.player != player,
            decreases self.games@.len() - i,
        {
            if self.games[i].player == player {
                proof {
                    lemma_game_of_seq_skip(self.games@, player, i as int);
                    assert(self.games@.skip(i as int)[0] == self.games@[i as int]);
                }
                return Some(i);
            }
            i += 1;
        }
        proof {
            lemma_game_of_seq_skip(self.games@, player, self.games@.len() as int);
            assert(self.games@.skip(self.games@.len() as int) =~= Seq::<GameState>::empty());
        }
        None
    }

    fn remove_game(&mut self, player: u64)
        requires
            old(self).wf(),
        ensures
            final(self).wf(),
            final(self).owner_spec() == old(self).owner_spec(),
            final(self).balance() == old(self).balance(),
            final(self).game_of(player) is None,
            forall|q: u64| q != player ==> final(self).game_of(q) == old(self).game_of(q),
    {
        match self.find_game(player) {
            Some(i) => {
                proof {
                    lemma_game_of_seq_remove(self.games@, i as int, player);
                }
                let ghost s0 = self.games@;
                self.games.remove(i);
                proof {
                    let s1 = self.games@;
                    assert(s1 == s0.remove(i as int));
                    assert forall|k: int| 0 <= k < s1.len() implies game_wf(
                        (#[trigger] s1[k])@,
                    ) by {
                        if k < i {
                            assert(s1[k] == s0[k]);
                        } else {
                            assert(s1[k] == s0[k + 1]);
                        }
                    }
                    assert forall|a: int, b: int| 0 <= a < b < s1.len() implies (
                    #[trigger] s1[a])@.player != (#[trigger] s1[b])@.player by {
                        if a < i {
                            assert(s1[a] == s0[a]);
                        } else {
                            assert(s1[a] == s0[a + 1]);
                        }
                        if b < i {
                            assert(s1[b] == s0[b]);
                        } else {
                            assert(s1[b] == s0[b + 1]);
                        }
                    }
                }
            },
            None => {},
        }
    }

    fn settle(&mut self, game: &mut GameState)
        requires
            old(self).wf(),
            old(game)@.bet >= 0,
            payout_spec(old(game)@.player_score, old(game)@.dealer_score, old(game)@.bet)
                <= old(self).balance(),
        ensures
            final(self).wf(),
            final(self).owner_spec() == old(self).owner_spec(),
            final(self).balance() == old(self).balance() - payout_spec(
                old(game)@.player_score,
                old(game)@.dealer_score,
                old(game)@.bet,
            ),
            final(self).game_of(old(game)@.player) is None,
            forall|q: u64|
                q != old(game)@.player ==> final(self).game_of(q) == old(self).game_of(q),
            final(game)@ == (GameModel { phase: GamePhase::Resolved, ..old(game)@ }),
    {
        let payout: i128 = if game.player_score > 21 {
            0
        } else if game.dealer_score > 21 || game.player_score > game.dealer_score {
            proof {
                assert(payout_spec(game@.player_score, game@.dealer_score, game@.bet)
                    == 2 * game@.bet);
            }
            game.bet * 2
        } else if game.player_score == game.dealer_score {
            game.bet
        } else {
            0
        };
        if payout > 0 {
            self.house_balance = self.house_balance - payout;
        }
        game.phase = GamePhase::Resolved;
        let p = game.player;
        self.remove_game(p);
    }

    /// Accepts a wager and deals the opening hands from `draws`, in the
    /// order player, dealer, player, dealer. The wager is pooled into the
    /// bankroll first; the house must already hold twice the wager to cover
    /// a win. A natural 21 on either side settles the game at once; any
    /// other deal is stored as a live record in the player's turn. On every
    /// failure the engine is unchanged.
    pub fn place_bet(&mut self, player: u64, bet: i128, draws: &Vec<Card>) -> (r: Result<
        GameState,
        BlackjackError,
    >)
        requires
            old(self).wf(),
            hand_valid(draws@),
            draws@.len() >= 4,
            old(self).game_of(player) is None && bet >= MIN_BET ==> 2 * bet <= i128::MAX,
            old(self).game_of(player) is None && bet >= MIN_BET && old(self).balance() >= 2 * bet
                ==> old(self).balance() + bet <= i128::MAX,
        ensures
            final(self).wf(),
            final(self).owner_spec() == old(self).owner_spec(),
            forall|q: u64| q != player ==> final(self).game_of(q) == old(self).game_of(q),
            old(self).game_of(player) is Some ==> r == Err::<GameState, BlackjackError>(
                BlackjackError::GameAlreadyExists,
            ) && *final(self) == *old(self),
            old(self).game_of(player) is None && bet < MIN_BET ==> r == Err::<
                GameState,
                BlackjackError,
            >(BlackjackError::InvalidBet) && *final(self) == *old(self),
            old(self).game_of(player) is None && bet >= MIN_BET && old(self).balance() < 2 * bet
                ==> r == Err::<GameState, BlackjackError>(BlackjackError::InsufficientFunds)
                && *final(self) == *old(self),
            old(self).game_of(player) is None && bet >= MIN_BET && old(self).balance() >= 2 * bet
                ==> r is Ok && ({
                let g = r->Ok_0@;
                let ph = seq![draws@[0], draws@[2]];
                let dh = seq![draws@[1], draws@[3]];
                &&& g.player == player
                &&& g.bet == bet
                &&& g.player_hand == ph
                &&& g.dealer_hand == dh
                &&& g.player_score == score(ph)
                &&& g.dealer_score == score(dh)
                &&& if score(ph) == 21 || score(dh) == 21 {
                    &&& g.phase == GamePhase::Resolved
                    &&& final(self).game_of(player) is None
                    &&& final(self).balance() == old(self).balance() + bet - payout_spec(
                        score(ph),
                        score(dh),
                        bet as int,
                    )
                } else {
                    &&& g.phase == GamePhase::PlayerTurn
                    &&& final(self).game_of(player) == Some(g)
                    &&& final(self).balance() == old(self).balance() + bet
                }
            }),
    {
        if self.find_game(player).is_some() {
            return Err(BlackjackError::GameAlreadyExists);
        }
        if bet < MIN_BET {
            return Err(BlackjackError::InvalidBet);
        }
        if self.house_balance < bet * 2 {
            return Err(BlackjackError::InsufficientFunds);
        }
        self.house_balance = self.house_balance + bet;

        let mut player_hand: Vec<Card> = Vec::new();
        let mut dealer_hand: Vec<Card> = Vec::new();
        player_hand.push(draws[0]);
        dealer_hand.push(draws[1]);
        player_hand.push(draws[2]);
        dealer_hand.push(draws[3]);
        proof {
            assert(player_hand@ =~= seq![draws@[0], draws@[2]]);
            assert(dealer_hand@ =~= seq![draws@[1], draws@[3]]);
            assert(hand_valid(player_hand@));
            assert(hand_valid(dealer_hand@));
            lemma_two_card_score(player_hand@);
            lemma_two_card_score(dealer_hand@);
        }
        let player_score = calculate_hand_value(&player_hand);
        let dealer_score = calculate_hand_value(&dealer_hand);

        let mut game = GameState {
            player,
            bet,
            player_hand,
            dealer_hand,
            phase: GamePhase::PlayerTurn,
            player_score,
            dealer_score,
        };

        if player_score == 21 || dealer_score == 21 {
            proof {
                lemma_payout_bounds(game@.player_score, game@.dealer_score, game@.bet);
            }
            self.settle(&mut game);
        } else {
            let stored = snapshot_game(&game);
            proof {
                lemma_game_of_seq_push(self.games@, stored, player);
                lemma_game_of_seq_none(self.games@, player);
                assert forall|q: u64| q != player implies game_of_seq(
                    self.games@.push(stored),
                    q,
                ) == game_of_seq(self.games@, q) by {
                    lemma_game_of_seq_push(self.games@, stored, q);
                }
            }
            let ghost s0 = self.games@;
            self.games.push(stored);
            proof {
                let s1 = self.games@;
                assert(s1 == s0.push(stored));
                assert forall|k: int| 0 <= k < s1.len() implies game_wf((#[trigger] s1[k])@) by {
                    if k < s0.len() {
                        assert(s1[k] == s0[k]);
                    } else {
                        assert(s1[k] == stored);
                    }
                }
                assert forall|a: int, b: int| 0 <= a < b < s1.len() implies (
                #[trigger] s1[a])@.player != (#[trigger] s1[b])@.player by {
                    if b < s0.len() {
                        assert(s1[a] == s0[a] && s1[b] == s0[b]);
                    } else {
                        assert(s1[b] == stored);
                        assert(s1[a] == s0[a]);
                    }
                }
            }
        }
        Ok(game)
    }

    /// Draws one more card into the player's hand and re-scores it. A score
    /// above 21 is a bust and settles the game at once (the pooled wager
    /// stays with the house); otherwise the updated record stays live in
    /// the player's turn. The bankroll never changes here. On every failure
    /// the engine is unchanged.
    pub fn hit(&mut self, player: u64, card: Card) -> (r: Result<GameState, BlackjackError>)
        requires
            old(self).wf(),
            card_valid(card),
        ensures
            final(self).wf(),
            final(self).owner_spec() == old(self).owner_spec(),
            final(self).balance() == old(self).balance(),
            forall|q: u64| q != player ==> final(self).game_of(q) == old(self).game_of(q),
            old(self).game_of(player) is None ==> r == Err::<GameState, BlackjackError>(
                BlackjackError::NoGameExists,
            ) && *final(self) == *old(self),
            old(self).game_of(player) matches Some(g0) ==> ({
                &&& g0.phase != GamePhase::PlayerTurn ==> r == Err::<GameState, BlackjackError>(
                    BlackjackError::NotPlayerTurn,
                ) && *final(self) == *old(self)
                &&& g0.phase == GamePhase::PlayerTurn ==> r is Ok && ({
                    let g = r->Ok_0@;
                    let ph = g0.player_hand.push(card);
                    &&& g.player == player
                    &&& g.bet == g0.bet
                    &&& g.player_hand == ph
                    &&& g.dealer_hand == g0.dealer_hand
                    &&& g.player_score == score(ph)
                    &&& g.dealer_score == g0.dealer_score
                    &&& if score(ph) > 21 {
                        g.phase == GamePhase::Resolved && final(self).game_of(player) is None
                    } else {
                        g.phase == GamePhase::PlayerTurn && final(self).game_of(player) == Some(g)
                    }
                })
            }),
    {
        let idx = match self.find_game(player) {
            Some(i) => i,
            None => {
                return Err(BlackjackError::NoGameExists);
            },
        };
        if !matches!(self.games[idx].phase, GamePhase::PlayerTurn) {
            return Err(BlackjackError::NotPlayerTurn);
        }
        let mut game = snapshot_game(&self.games[idx]);
        proof {
            lemma_score_bounds(game@.player_hand);
        }
        self.remove_game(player);
        game.player_hand.push(card);
        let new_score = calculate_hand_value(&game.player_hand);
        game.player_score = new_score;
        if new_score > 21 {
            self.settle(&mut game);
        } else {
            let stored = snapshot_game(&game);
            proof {
                lemma_game_of_seq_push(self.games@, stored, player);
                lemma_game_of_seq_none(self.games@, player);
                assert forall|q: u64| q != player implies game_of_seq(
                    self.games@.push(stored),
                    q,
                ) == game_of_seq(self.games@, q) by {
                    lemma_game_of_seq_push(self.games@, stored, q);
                }
            }
            let ghost s0 = self.games@;
            self.games.push(stored);
            proof {
                let s1 = self.games@;
                assert(s1 == s0.push(stored));
                assert forall|k: int| 0 <= k < s1.len() implies game_wf((#[trigger] s1[k])@) by {
                    if k < s0.len() {
                        assert(s1[k] == s0[k]);
                    } else {
                        assert(s1[k] == stored);
                    }
                }
                assert forall|a: int, b: int| 0 <= a < b < s1.len() implies (
                #[trigger] s1[a])@.player != (#[trigger] s1[b])@.player by {
                    if b < s0.len() {
                        assert(s1[a] == s0[a] && s1[b] == s0[b]);
                    } else {
                        assert(s1[b] == stored);
                        assert(s1[a] == s0[a]);
                    }
                }
            }
        }
        Ok(game)
    }

    /// Ends the player's turn: the dealer draws from `draws` while scoring
    /// below 17 (even at the risk of busting), then the game settles and
    /// the record is deleted. Fifteen cards always suffice, since every
    /// card adds at least one point. Settlement debits the payout from the
    /// bankroll; the bankroll must cover the payout actually owed (as
    /// `prospective_payout` computes it), since a balance below what
    /// settlement debits can only come from a prior accounting bug and is
    /// fatal, not an ordinary error. On every failure the engine is
    /// unchanged.
    pub fn stand(&mut self, player: u64, draws: &Vec<Card>) -> (r: Result<
        GameState,
        BlackjackError,
    >)
        requires
            old(self).wf(),
            hand_valid(draws@),
            draws@.len() >= 15,
            old(self).game_of(player) matches Some(g0) ==> payout_spec(
                g0.player_score,
                score(dealer_play(g0.dealer_hand, draws@)),
                g0.bet,
            ) <= old(self).balance(),
        ensures
            final(self).wf(),
            final(self).owner_spec() == old(self).owner_spec(),
            forall|q: u64| q != player ==> final(self).game_of(q) == old(self).game_of(q),
            old(self).game_of(player) is None ==> r == Err::<GameState, BlackjackError>(
                BlackjackError::NoGameExists,
            ) && *final(self) == *old(self),
            old(self).game_of(player) matches Some(g0) ==> ({
                &&& g0.phase != GamePhase::PlayerTurn ==> r == Err::<GameState, BlackjackError>(
                    BlackjackError::NotPlayerTurn,
                ) && *final(self) == *old(self)
                &&& g0.phase == GamePhase::PlayerTurn ==> r is Ok && ({
                    let g = r->Ok_0@;
                    let dh = dealer_play(g0.dealer_hand, draws@);
                    &&& g.player == player
                    &&& g.bet == g0.bet
                    &&& g.player_hand == g0.player_hand
                    &&& g.dealer_hand == dh
                    &&& g.player_score == g0.player_score
                    &&& g.dealer_score == score(dh)
                    &&& score(dh) >= 17
                    &&& g.phase == GamePhase::Resolved
                    &&& final(self).game_of(player) is None
                    &&& final(self).balance() == old(self).balance() - payout_spec(
                        g0.player_score,
                        score(dh),
                        g0.bet,
                    )
                })
            }),
    {
        let idx = match self.find_game(player) {
            Some(i) => i,
            None => {
                return Err(BlackjackError::NoGameExists);
            },
        };
        if !matches!(self.games[idx].phase, GamePhase::PlayerTurn) {
            return Err(BlackjackError::NotPlayerTurn);
        }
        let mut game = snapshot_game(&self.games[idx]);
        let ghost g0 = game@;
        game.phase = GamePhase::DealerTurn;

        let ds = dealer_draw_out(&mut game.dealer_hand, game.dealer_score, draws);
        game.dealer_score = ds;
        proof {
            assert(game@.dealer_hand == dealer_play(g0.dealer_hand, draws@));
        }
        self.settle(&mut game);
        Ok(game)
    }

    /// The live game for `player`, if one exists; absence is not an error.
    pub fn get_game(&self, player: u64) -> (r: Option<GameState>)
        ensures
            match r {
                Some(g) => self.game_of(player) == Some(g@),
                None => self.game_of(player) is None,
            },
    {
        match self.find_game(player) {
            Some(i) => Some(snapshot_game(&self.games[i])),
            None => None,
        }
    }

    /// The current bankroll.
    pub fn get_house_balance(&self) -> (r: i128)
        ensures
            r == self.balance(),
    {
        self.house_balance
    }

    /// The owner identity; `Unauthorized` while none is set.
    pub fn get_owner(&self) -> (r: Result<u64, BlackjackError>)
        ensures
            match self.owner_spec() {
                Some(o) => r == Ok::<u64, BlackjackError>(o),
                None => r == Err::<u64, BlackjackError>(BlackjackError::Unauthorized),
            },
    {
        match self.owner {
            Some(o) => Ok(o),
            None => Err(BlackjackError::Unauthorized),
        }
    }
}

} // verus!
