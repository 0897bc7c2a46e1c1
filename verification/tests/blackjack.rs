use blackjack::cards::{calculate_hand_value, deal_card, Card};
use blackjack::engine::{
    prospective_payout, BlackjackContract, BlackjackError, GamePhase, GameState, MIN_BET,
};

fn cards_of(values: &[u32]) -> Vec<Card> {
    let mut v: Vec<Card> = Vec::new();
    for &x in values {
        v.push(Card { value: x, suit: 0 });
    }
    v
}

/// Fifteen draw cards, the leading ones as given, padded with twos.
fn draws_of(leading: &[u32]) -> Vec<Card> {
    let mut v = cards_of(leading);
    while v.len() < 15 {
        v.push(Card { value: 2, suit: 0 });
    }
    v
}

fn funded_engine(deposit: i128) -> BlackjackContract {
    let mut e = BlackjackContract::new();
    e.initialize(1).unwrap();
    e.deposit_house_funds(deposit).unwrap();
    e
}

#[test]
fn test_initialize() {
    let mut e = BlackjackContract::new();
    let owner: u64 = 1;
    e.initialize(owner).unwrap();

    assert_eq!(e.get_owner(), Ok(owner));
    assert_eq!(e.get_house_balance(), 0);
}

#[test]
fn test_deposit_and_withdraw() {
    let mut e = BlackjackContract::new();
    let owner: u64 = 1;
    e.initialize(owner).unwrap();

    e.deposit_house_funds(100_000_000).unwrap();
    assert_eq!(e.get_house_balance(), 100_000_000);

    e.withdraw_house_funds(50_000_000).unwrap();
    assert_eq!(e.get_house_balance(), 50_000_000);
}

#[test]
fn test_place_bet() {
    let mut e = BlackjackContract::new();
    let owner: u64 = 1;
    let player: u64 = 2;

    e.initialize(owner).unwrap();
    e.deposit_house_funds(1_000_000_000).unwrap();

    let draws = cards_of(&[5, 9, 7, 8]);
    let game = e.place_bet(player, 50_000_000, &draws).unwrap();

    assert_eq!(game.player, player);
    assert_eq!(game.bet, 50_000_000);
    assert_eq!(game.player_hand.len(), 2);
    assert_eq!(game.dealer_hand.len(), 2);
}

#[test]
fn test_second_call_to_initialize_fails() {
    let mut e = BlackjackContract::new();
    e.initialize(1).unwrap();
    assert!(matches!(e.initialize(1), Err(BlackjackError::AlreadyInitialized)));
    assert!(matches!(e.initialize(9), Err(BlackjackError::AlreadyInitialized)));
}

#[test]
fn test_owner_gated_operations_before_initialize() {
    let mut e = BlackjackContract::new();
    assert!(matches!(e.deposit_house_funds(10), Err(BlackjackError::Unauthorized)));
    assert!(matches!(e.withdraw_house_funds(10), Err(BlackjackError::Unauthorized)));
    assert!(matches!(e.get_owner(), Err(BlackjackError::Unauthorized)));
}

#[test]
fn test_deposit_and_withdraw_reject_nonpositive_amounts() {
    let mut e = funded_engine(100);
    assert!(matches!(e.deposit_house_funds(0), Err(BlackjackError::InvalidAmount)));
    assert!(matches!(e.deposit_house_funds(-5), Err(BlackjackError::InvalidAmount)));
    assert!(matches!(e.withdraw_house_funds(0), Err(BlackjackError::InvalidAmount)));
    assert!(matches!(e.withdraw_house_funds(-5), Err(BlackjackError::InvalidAmount)));
    assert_eq!(e.get_house_balance(), 100);
}

#[test]
fn test_score_two_aces() {
    let hand = cards_of(&[1, 1]);
    assert_eq!(calculate_hand_value(&hand), 12);
}

#[test]
fn test_score_ace_king() {
    let hand = cards_of(&[1, 13]);
    assert_eq!(calculate_hand_value(&hand), 21);
}

#[test]
fn test_score_king_queen_ace() {
    let hand = cards_of(&[13, 12, 1]);
    assert_eq!(calculate_hand_value(&hand), 21);
}

#[test]
fn test_score_busted_hand_is_fully_reduced() {
    // An ace, a nine, a five and an eight: the ace drops to 1 and the hand
    // still scores 23, the hard total, with nothing left to re-value.
    let hand = cards_of(&[1, 9, 5, 8]);
    assert_eq!(calculate_hand_value(&hand), 23);
}

#[test]
fn test_score_empty_hand() {
    let hand = cards_of(&[]);
    assert_eq!(calculate_hand_value(&hand), 0);
}

#[test]
fn test_deal_card_folds_entropy() {
    let c = deal_card(12, 5);
    assert_eq!(c.value, 13);
    assert_eq!(c.suit, 1);
    let a = deal_card(0, 0);
    assert_eq!(a.value, 1);
    assert_eq!(a.suit, 0);
    let k = deal_card(25, 7);
    assert_eq!(k.value, 13);
    assert_eq!(k.suit, 3);
}

#[test]
fn test_place_bet_below_minimum() {
    let mut e = funded_engine(1_000_000_000);
    let draws = cards_of(&[5, 9, 7, 8]);
    let r = e.place_bet(2, MIN_BET - 1, &draws);
    assert!(matches!(r, Err(BlackjackError::InvalidBet)));
    assert_eq!(e.get_house_balance(), 1_000_000_000);
    assert!(e.get_game(2).is_none());
}

#[test]
fn test_place_bet_insufficient_house_funds() {
    let mut e = funded_engine(50_000_000);
    let draws = cards_of(&[5, 9, 7, 8]);
    let r = e.place_bet(2, 50_000_000, &draws);
    assert!(matches!(r, Err(BlackjackError::InsufficientFunds)));
    assert_eq!(e.get_house_balance(), 50_000_000);
    assert!(e.get_game(2).is_none());
}

#[test]
fn test_place_bet_twice_fails() {
    let mut e = funded_engine(1_000_000_000);
    let draws = cards_of(&[5, 9, 7, 8]);
    e.place_bet(2, 50_000_000, &draws).unwrap();
    let r = e.place_bet(2, 50_000_000, &draws);
    assert!(matches!(r, Err(BlackjackError::GameAlreadyExists)));
    assert_eq!(e.get_house_balance(), 1_050_000_000);
}

#[test]
fn test_place_bet_natural_blackjack_settles_at_once() {
    let mut e = funded_engine(1_000_000_000);
    // Player is dealt ace and king: a natural 21 against a dealer 17, so
    // the game settles at once and pays twice the wager.
    let draws = cards_of(&[1, 9, 13, 8]);
    let game = e.place_bet(2, 50_000_000, &draws).unwrap();
    assert_eq!(game.player_score, 21);
    assert_eq!(game.dealer_score, 17);
    assert!(matches!(game.phase, GamePhase::Resolved));
    assert!(e.get_game(2).is_none());
    assert_eq!(e.get_house_balance(), 1_000_000_000 + 50_000_000 - 100_000_000);
}

#[test]
fn test_hit_until_bust_keeps_pooled_bet() {
    let mut e = funded_engine(1_000_000_000);
    let draws = cards_of(&[10, 9, 9, 8]);
    e.place_bet(2, 50_000_000, &draws).unwrap();
    assert_eq!(e.get_house_balance(), 1_050_000_000);

    // Player stands at 19 after the deal; a ten busts the hand at 29.
    let game = e.hit(2, Card { value: 10, suit: 1 }).unwrap();
    assert_eq!(game.player_score, 29);
    assert!(matches!(game.phase, GamePhase::Resolved));
    assert!(e.get_game(2).is_none());
    assert_eq!(e.get_house_balance(), 1_050_000_000);
}

#[test]
fn test_hit_below_21_keeps_game_live() {
    let mut e = funded_engine(1_000_000_000);
    let draws = cards_of(&[5, 9, 7, 8]);
    e.place_bet(2, 50_000_000, &draws).unwrap();

    let game = e.hit(2, Card { value: 4, suit: 2 }).unwrap();
    assert_eq!(game.player_score, 16);
    assert_eq!(game.player_hand.len(), 3);
    assert!(matches!(game.phase, GamePhase::PlayerTurn));

    let live = e.get_game(2).unwrap();
    assert_eq!(live.player_score, 16);
    assert_eq!(e.get_house_balance(), 1_050_000_000);
}

#[test]
fn test_stand_dealer_draws_to_seventeen_house_loses() {
    let mut e = funded_engine(1_000_000_000);
    // Player holds 20; dealer holds 14 and must draw.
    let draws = cards_of(&[10, 10, 10, 4]);
    e.place_bet(2, 50_000_000, &draws).unwrap();
    assert_eq!(e.get_house_balance(), 1_050_000_000);

    // The dealer draws a three to exactly 17 and stands; 20 beats 17.
    let game = e.stand(2, &draws_of(&[3])).unwrap();
    assert_eq!(game.player_score, 20);
    assert_eq!(game.dealer_score, 17);
    assert_eq!(game.dealer_hand.len(), 3);
    assert!(matches!(game.phase, GamePhase::Resolved));
    assert!(e.get_game(2).is_none());
    // The payout of twice the wager comes back out of the post-bet balance.
    assert_eq!(e.get_house_balance(), 1_050_000_000 - 100_000_000);
}

#[test]
fn test_stand_push_returns_bet() {
    let mut e = funded_engine(1_000_000_000);
    // Player holds 19; dealer holds 16, draws a three, and ties at 19.
    let draws = cards_of(&[10, 10, 9, 6]);
    e.place_bet(2, 50_000_000, &draws).unwrap();
    let game = e.stand(2, &draws_of(&[3])).unwrap();
    assert_eq!(game.player_score, 19);
    assert_eq!(game.dealer_score, 19);
    assert!(matches!(game.phase, GamePhase::Resolved));
    // The push pays the bare wager back: no net change from the pre-bet balance.
    assert_eq!(e.get_house_balance(), 1_000_000_000);
}

#[test]
fn test_stand_dealer_busts() {
    let mut e = funded_engine(1_000_000_000);
    // Player holds 12; dealer holds 16 and draws a ten, busting at 26.
    let draws = cards_of(&[10, 10, 2, 6]);
    e.place_bet(2, 50_000_000, &draws).unwrap();
    let game = e.stand(2, &draws_of(&[10])).unwrap();
    assert_eq!(game.player_score, 12);
    assert_eq!(game.dealer_score, 26);
    assert!(e.get_game(2).is_none());
    assert_eq!(e.get_house_balance(), 1_050_000_000 - 100_000_000);
}

#[test]
fn test_stand_push_after_owner_withdraws_mid_game() {
    // The owner may draw the bankroll below twice the live wager; a push
    // owes only the bare wager back, so settlement still proceeds.
    let mut e = funded_engine(150_000_000);
    let draws = cards_of(&[10, 10, 9, 6]);
    e.place_bet(2, 50_000_000, &draws).unwrap();
    assert_eq!(e.get_house_balance(), 200_000_000);
    e.withdraw_house_funds(150_000_000).unwrap();
    assert_eq!(e.get_house_balance(), 50_000_000);

    // Dealer draws a three from 16 and ties the player at 19.
    let game = e.stand(2, &draws_of(&[3])).unwrap();
    assert_eq!(game.player_score, 19);
    assert_eq!(game.dealer_score, 19);
    assert!(matches!(game.phase, GamePhase::Resolved));
    assert!(e.get_game(2).is_none());
    assert_eq!(e.get_house_balance(), 0);
}

#[test]
fn test_stand_dealer_win_after_owner_withdraws_everything() {
    // Nothing is owed when the dealer wins, so even an emptied bankroll
    // settles normally.
    let mut e = funded_engine(150_000_000);
    e.place_bet(2, 50_000_000, &cards_of(&[9, 10, 3, 8])).unwrap();
    e.withdraw_house_funds(200_000_000).unwrap();
    assert_eq!(e.get_house_balance(), 0);

    // Player 12 against a standing dealer 18: the house keeps the pooled bet.
    let game = e.stand(2, &draws_of(&[])).unwrap();
    assert_eq!(game.player_score, 12);
    assert_eq!(game.dealer_score, 18);
    assert!(e.get_game(2).is_none());
    assert_eq!(e.get_house_balance(), 0);
}

#[test]
fn test_prospective_payout_matches_settlement() {
    let mut e = funded_engine(1_000_000_000);
    // Player 20 against dealer 14: the dealer will draw a three to 17 and lose.
    e.place_bet(2, 50_000_000, &cards_of(&[10, 10, 10, 4])).unwrap();
    let live = e.get_game(2).unwrap();
    let draws = draws_of(&[3]);
    assert_eq!(prospective_payout(&live, &draws), 100_000_000);
    let before = e.get_house_balance();
    e.stand(2, &draws).unwrap();
    assert_eq!(e.get_house_balance(), before - 100_000_000);

    // A dealer win owes nothing.
    e.place_bet(2, 50_000_000, &cards_of(&[9, 10, 3, 8])).unwrap();
    let live = e.get_game(2).unwrap();
    assert_eq!(prospective_payout(&live, &draws_of(&[])), 0);
}

#[test]
fn test_withdraw_more_than_balance() {
    let mut e = funded_engine(100_000_000);
    let r = e.withdraw_house_funds(200_000_000);
    assert!(matches!(r, Err(BlackjackError::InsufficientFunds)));
    assert_eq!(e.get_house_balance(), 100_000_000);
}

#[test]
fn test_hit_and_stand_without_game() {
    let mut e = funded_engine(1_000_000_000);
    let r = e.hit(2, Card { value: 2, suit: 0 });
    assert!(matches!(r, Err(BlackjackError::NoGameExists)));
    let r = e.stand(2, &draws_of(&[]));
    assert!(matches!(r, Err(BlackjackError::NoGameExists)));
}

#[test]
fn test_two_players_have_independent_games() {
    let mut e = funded_engine(1_000_000_000);
    e.place_bet(2, 50_000_000, &cards_of(&[5, 9, 7, 8])).unwrap();
    e.place_bet(3, 20_000_000, &cards_of(&[10, 9, 9, 8])).unwrap();
    assert_eq!(e.get_house_balance(), 1_070_000_000);

    // Busting player 3 leaves player 2's record untouched.
    e.hit(3, Card { value: 10, suit: 1 }).unwrap();
    assert!(e.get_game(3).is_none());
    let live = e.get_game(2).unwrap();
    assert_eq!(live.bet, 50_000_000);
}

#[test]
fn test_error_codes() {
    assert_eq!(BlackjackError::GameAlreadyExists.code(), 1);
    assert_eq!(BlackjackError::NoGameExists.code(), 2);
    assert_eq!(BlackjackError::InvalidBet.code(), 3);
    assert_eq!(BlackjackError::Unauthorized.code(), 7);
    assert_eq!(BlackjackError::InsufficientFunds.code(), 9);
    assert_eq!(BlackjackError::InvalidAmount.code(), 10);
    assert_eq!(BlackjackError::AlreadyInitialized.code(), 11);
}

#[test]
fn test_restore_accepts_only_well_formed_state() {
    assert!(BlackjackContract::restore(Some(1), 100, Vec::new()).is_some());
    assert!(BlackjackContract::restore(None, 0, Vec::new()).is_some());
    assert!(BlackjackContract::restore(Some(1), -1, Vec::new()).is_none());

    // A record whose stored score does not match its hand is refused.
    let stale = GameState {
        player: 2,
        bet: 50_000_000,
        player_hand: cards_of(&[5, 7]),
        dealer_hand: cards_of(&[9, 8]),
        phase: GamePhase::PlayerTurn,
        player_score: 20,
        dealer_score: 17,
    };
    let mut games: Vec<GameState> = Vec::new();
    games.push(stale);
    assert!(BlackjackContract::restore(Some(1), 100, games).is_none());

    // The same record with the true scores is accepted and round-trips.
    let good = GameState {
        player: 2,
        bet: 50_000_000,
        player_hand: cards_of(&[5, 7]),
        dealer_hand: cards_of(&[9, 8]),
        phase: GamePhase::PlayerTurn,
        player_score: 12,
        dealer_score: 17,
    };
    let mut games: Vec<GameState> = Vec::new();
    games.push(good);
    let e = BlackjackContract::restore(Some(1), 100_000_000, games).unwrap();
    assert_eq!(e.get_owner(), Ok(1));
    assert_eq!(e.get_house_balance(), 100_000_000);
    assert_eq!(e.get_game(2).unwrap().player_score, 12);
}
