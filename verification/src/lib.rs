//! A house-vs-player blackjack engine with a verified ledger.
//!
//! The crate keeps the game state machine and the bankroll accounting as
//! verified code: hand scoring with ace re-valuation, bet acceptance with
//! solvency checks, turn progression, the dealer's draw-to-17 policy, and
//! win/loss/push settlement against the house balance. Card draws enter the
//! engine as plain values, so every operation is deterministic given the
//! cards it is handed; the surrounding host (storage, caller authentication,
//! the randomness source) lives outside the library.

pub mod cards;
pub mod engine;
