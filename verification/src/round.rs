//! A baccarat round: the two hands, and the outcome they decide.

use vstd::prelude::*;
use crate::{pip, pip_value, Rank};

verus! {

/// Sum of the pip values of `cards`.
pub open spec fn pip_sum(cards: Seq<Rank>) -> int
    decreases cards.len(),
{
    if cards.len() == 0 {
        0
    } else {
        pip_sum(cards.drop_last()) + pip(cards.last())
    }
}

/// Point value of a hand: the pip sum, modulo ten.
pub open spec fn hand_value(cards: Seq<Rank>) -> int {
    pip_sum(cards) % 10
}

/// A hand opens with a pair when its first two cards share a rank.
pub open spec fn opens_with_pair(cards: Seq<Rank>) -> bool {
    cards.len() >= 2 && cards[0] == cards[1]
}

/// A hand drew a third card.
pub open spec fn drew_third(cards: Seq<Rank>) -> bool {
    cards.len() == 3
}

/// Two flags packed as bits: bit 0 for the player, bit 1 for the banker.
pub open spec fn flag_bits(player: bool, banker: bool) -> u8 {
    ((if player { 1int } else { 0 }) + (if banker { 2int } else { 0 })) as u8
}

/// Winner marker: `1` player, `2` banker, `3` tie.
pub open spec fn winner_marker(player_value: int, banker_value: int) -> u8 {
    if player_value > banker_value {
        1
    } else if banker_value > player_value {
        2
    } else {
        3
    }
}

/// A single baccarat hand of up to three cards.
pub struct BaccHand {
    cards: Vec<Rank>,
}

impl View for BaccHand {
    type V = Seq<Rank>;

    closed spec fn view(&self) -> Seq<Rank> {
        self.cards@
    }
}

impl BaccHand {
    /// An empty hand.
    pub fn new() -> (h: Self)
        ensures
            h@ == Seq::<Rank>::empty(),
    {
        BaccHand { cards: Vec::new() }
    }

    /// Deals `card` into the hand; a hand holds at most three cards.
    pub fn take(&mut self, card: &Rank)
        requires
            old(self)@.len() < 3,
        ensures
            final(self)@ == old(self)@.push(*card),
    {
        self.cards.push(*card);
    }

    /// The cards dealt so far, in order.
    pub fn cards(&self) -> (r: &[Rank])
        ensures
            r@ == self@,
    {
        self.cards.as_slice()
    }

    /// The point value of the hand (0-9).
    pub fn value(&self) -> (v: u8)
        ensures
            v == hand_value(self@),
            v <= 9,
    {
        let mut total: u8 = 0;
        let mut i: usize = 0;
        while i < self.cards.len()
            invariant
                i <= self@.len(),
                self@ == self.cards@,
                total == pip_sum(self@.take(i as int)) % 10,
            decreases self@.len() - i,
        {
            let p = pip_value(self.cards[i]);
            assert(self@.take(i + 1).drop_last() =~= self@.take(i as int));
            total = (total + p) % 10;
            i = i + 1;
        }
        assert(self@.take(i as int) =~= self@);
        total
    }

    /// Whether the first two cards share a rank.
    pub fn is_pair(&self) -> (b: bool)
        ensures
            b == opens_with_pair(self@),
    {
        self.cards.len() >= 2 && self.cards[0] == self.cards[1]
    }

    /// Whether a third card was drawn.
    pub fn has_third(&self) -> (b: bool)
        ensures
            b == drew_third(self@),
    {
        self.cards.len() == 3
    }
}

impl Default for BaccHand {
    fn default() -> (h: Self)
        ensures
            h@ == Seq::<Rank>::empty(),
    {
        BaccHand::new()
    }
}

/// What a round decided: winner, pair flags, third-card flags and both hand
/// values.
pub struct BaccOutcome {
    marker: u8,
    pairs: u8,
    thirds: u8,
    player_value: u8,
    banker_value: u8,
}

impl BaccOutcome {
    pub closed spec fn spec_marker(&self) -> u8 {
        self.marker
    }

    pub closed spec fn spec_pairs(&self) -> u8 {
        self.pairs
    }

    pub closed spec fn spec_thirds(&self) -> u8 {
        self.thirds
    }

    pub closed spec fn spec_player_value(&self) -> u8 {
        self.player_value
    }

    pub closed spec fn spec_banker_value(&self) -> u8 {
        self.banker_value
    }

    /// The outcome that two hands decide.
    pub open spec fn decided_by(&self, player: Seq<Rank>, banker: Seq<Rank>) -> bool {
        &&& self.spec_player_value() == hand_value(player)
        &&& self.spec_banker_value() == hand_value(banker)
        &&& self.spec_marker() == winner_marker(hand_value(player), hand_value(banker))
        &&& self.spec_pairs() == flag_bits(opens_with_pair(player), opens_with_pair(banker))
        &&& self.spec_thirds() == flag_bits(drew_third(player), drew_third(banker))
    }

    /// Winner marker: `1` player, `2` banker, `3` tie.
    pub fn marker(&self) -> (r: u8)
        ensures
            r == self.spec_marker(),
    {
        self.marker
    }

    /// Pair flags: bit 0 player pair, bit 1 banker pair.
    pub fn pairs(&self) -> (r: u8)
        ensures
            r == self.spec_pairs(),
    {
        self.pairs
    }

    /// Third-card flags: bit 0 player drew, bit 1 banker drew.
    pub fn thirds(&self) -> (r: u8)
        ensures
            r == self.spec_thirds(),
    {
        self.thirds
    }

    /// The player's final hand value.
    pub fn player_value(&self) -> (r: u8)
        ensures
            r == self.spec_player_value(),
    {
        self.player_value
    }

    /// The banker's final hand value.
    pub fn banker_value(&self) -> (r: u8)
        ensures
            r == self.spec_banker_value(),
    {
        self.banker_value
    }
}

/// A resolved baccarat round: both hands, whether a third card was forced,
/// and the 1-based ordinal of the cut card when one came out.
pub struct BaccRound {
    player: BaccHand,
    banker: BaccHand,
    forced_third: bool,
    cut_card: Option<u8>,
}

impl BaccRound {
    pub closed spec fn player_cards(&self) -> Seq<Rank> {
        self.player@
    }

    pub closed spec fn banker_cards(&self) -> Seq<Rank> {
        self.banker@
    }

    pub closed spec fn spec_forced_third(&self) -> bool {
        self.forced_third
    }

    pub closed spec fn spec_cut_card(&self) -> Option<u8> {
        self.cut_card
    }

    /// Builds a round from its two hands and metadata.
    pub fn new(player: BaccHand, banker: BaccHand, forced_third: bool, cut_card: Option<u8>) -> (r:
        Self)
        ensures
            r.player_cards() == player@,
            r.banker_cards() == banker@,
            r.spec_forced_third() == forced_third,
            r.spec_cut_card() == cut_card,
    {
        BaccRound { player, banker, forced_third, cut_card }
    }

    /// Whether the banker's third card was forced.
    pub fn forced_third(&self) -> (r: bool)
        ensures
            r == self.spec_forced_third(),
    {
        self.forced_third
    }

    /// The 1-based ordinal of the cut card, if it came out this round.
    pub fn cut_card(&self) -> (r: Option<u8>)
        ensures
            r == self.spec_cut_card(),
    {
        self.cut_card
    }

    /// Derives the winner, the pair and third-card flags and both hand values.
    pub fn outcome(&self) -> (o: BaccOutcome)
        ensures
            o.decided_by(self.player_cards(), self.banker_cards()),
    {
        let player_value = self.player.value();
        let banker_value = self.banker.value();
        let marker: u8 = if player_value > banker_value {
            1
        } else if banker_value > player_value {
            2
        } else {
            3
        };
        let player_pair: u8 = if self.player.is_pair() { 1 } else { 0 };
        let banker_pair: u8 = if self.banker.is_pair() { 2 } else { 0 };
        let player_third: u8 = if self.player.has_third() { 1 } else { 0 };
        let banker_third: u8 = if self.banker.has_third() { 2 } else { 0 };
        BaccOutcome {
            marker,
            pairs: player_pair + banker_pair,
            thirds: player_third + banker_third,
            player_value,
            banker_value,
        }
    }
}

} // verus!
