//! `bacc-core`: primitive types for baccarat rounds and their scoreboards.

use vstd::prelude::*;

pub mod bounded;
pub mod grid;
pub mod hex;
pub mod laws;
pub mod round;
pub mod scoreboard;
pub mod roads;

pub use hex::{bytes_to_hex, hex_to_bytes, hex_to_nib};
pub use round::{BaccHand, BaccOutcome, BaccRound};
pub use scoreboard::BaccScoreboard;

verus! {

/// The rank of a playing card.
#[derive(Clone, Copy, Debug, PartialEq, Eq, Structural)]
pub enum Rank {
    Deuce,
    Trey,
    Four,
    Five,
    Six,
    Seven,
    Eight,
    Nine,
    Ten,
    Jack,
    Queen,
    King,
    Ace,
}

/// Baccarat pip value of a rank: Ace 1, Deuce to Nine their pips, tens and
/// faces 10.
pub open spec fn pip(rank: Rank) -> u8 {
    match rank {
        Rank::Ace => 1,
        Rank::Deuce => 2,
        Rank::Trey => 3,
        Rank::Four => 4,
        Rank::Five => 5,
        Rank::Six => 6,
        Rank::Seven => 7,
        Rank::Eight => 8,
        Rank::Nine => 9,
        Rank::Ten | Rank::Jack | Rank::Queen | Rank::King => 10,
    }
}

/// Returns the pip value of a card of rank `card`.
///
/// | Rank                   | Value |
/// |------------------------|-------|
/// | Ace                    | 1     |
/// | 2-9                    | pip   |
/// | Ten, Jack, Queen, King | 10    |
pub fn pip_value(card: Rank) -> (v: u8)
    ensures
        v == pip(card),
        1 <= v <= 10,
{
    match card {
        Rank::Ace => 1,
        Rank::King | Rank::Queen | Rank::Jack | Rank::Ten => 10,
        Rank::Nine => 9,
        Rank::Eight => 8,
        Rank::Seven => 7,
        Rank::Six => 6,
        Rank::Five => 5,
        Rank::Four => 4,
        Rank::Trey => 3,
        Rank::Deuce => 2,
    }
}

} // verus!
