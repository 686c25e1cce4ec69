//! Baccarat scoreboard tracking the five standard road displays.

use vstd::prelude::*;
pub use crate::grid::{MAX_COL_COUNT, ROWS};
use arrayvec::{ArrayString, ArrayVec};
use crate::bounded::{
    bytes_192, bytes_288, bytes_96, chars_384, clear_192, clear_288, clear_96, columns_16,
    columns_40, extend_192, new_192, new_288, new_96, pop_288, push_288, push_96, set_288, set_96,
    slice_192, slice_288, slice_96, str_384,
};
use crate::grid::{
    bead_plate_grid, big_road_columns, big_road_grid, cells, column_major, decode_bead_plate,
    decode_big_road_cols, decode_derived_runs, derived_runs, lay_out, lemma_holds_columns,
    lemma_laid_out_parses, plate_window, simulate, ColorKey,
};
use crate::hex::{
    bytes_to_hex, decoded_len, hex_decode, hex_text, hex_to_bytes, lemma_hex_text_ascii,
    nibbles_to_bytes, starts_with,
};
use crate::roads::{
    big_road_step, derived_after, derived_icon, derived_step, lemma_replay_ok, push_icon, replay,
    roads_ok, tie_bead, words, Roads,
};
use crate::round::{
    drew_third, flag_bits, hand_value, opens_with_pair, winner_marker, BaccOutcome, BaccRound,
};
use crate::Rank;
use vstd::string::StringSliceAdditionalSpecFns;
use vstd::utf8::encode_utf8;

verus! {

/// Rounds a shoe can hold.
pub const MAX_ROUNDS: usize = 96;

/// The two big-endian bytes of a bead word.
pub open spec fn bead_bytes(bead: u16) -> Seq<u8> {
    seq![(bead / 256) as u8, (bead % 256) as u8]
}

/// `b` without a trailing odd byte.
pub open spec fn even_prefix(b: Seq<u8>) -> Seq<u8> {
    b.take(b.len() - b.len() % 2)
}

/// The bead word a round contributes.
///
/// | Bits  | Content                                              |
/// |-------|------------------------------------------------------|
/// | 15-8  | Winner's hand value (the player's on a tie)          |
/// | 5-4   | Third card flags (`01` player, `10` banker)          |
/// | 3-2   | Pair flags (`01` player, `10` banker)                |
/// | 1-0   | Outcome (`1` player, `2` banker, `3` tie)            |
pub open spec fn round_bead(player: Seq<Rank>, banker: Seq<Rank>) -> u16 {
    let marker = winner_marker(hand_value(player), hand_value(banker));
    let value = if marker == 2 {
        hand_value(banker)
    } else {
        hand_value(player)
    };
    (value * 256 + marker + 4 * flag_bits(opens_with_pair(player), opens_with_pair(banker)) + 16
        * flag_bits(drew_third(player), drew_third(banker))) as u16
}

/// The UTF-8 bytes of the hex text of a bead plate.
pub open spec fn client_bytes(plate: Seq<u8>) -> Seq<u8> {
    encode_utf8(hex_text(plate))
}

/// Whether the text `h` (UTF-8 bytes) begins with the hex text of `plate`.
pub open spec fn extends_client(plate: Seq<u8>, h: Seq<u8>) -> bool {
    let c = client_bytes(plate);
    c.len() <= h.len() && h.take(c.len() as int) == c
}

/// The bead plate that [`BaccScoreboard::apply_hex_diff`] leaves.
pub open spec fn plate_after_diff(plate: Seq<u8>, h: Seq<u8>) -> Seq<u8> {
    if extends_client(plate, h) {
        plate + even_prefix(hex_decode(h.skip(2 * plate.len() as int)))
    } else {
        even_prefix(hex_decode(h))
    }
}

/// The inputs on which [`BaccScoreboard::apply_hex_diff`] stays within
/// capacity.
pub open spec fn diff_fits(plate: Seq<u8>, h: Seq<u8>) -> bool {
    if extends_client(plate, h) {
        &&& decoded_len(h.len() - 2 * plate.len()) <= 192
        &&& plate.len() + even_prefix(hex_decode(h.skip(2 * plate.len() as int))).len() <= 192
    } else {
        decoded_len(h.len() as int) <= 192
    }
}

/// Appending a bead word's bytes to an even-length plate appends the word.
pub proof fn lemma_words_push(plate: Seq<u8>, bead: u16)
    requires
        plate.len() % 2 == 0,
    ensures
        words(plate + bead_bytes(bead)) == words(plate).push(bead),
        (plate + bead_bytes(bead)).len() % 2 == 0,
{
    let p = plate + bead_bytes(bead);
    assert forall|i: int| 0 <= i < words(plate).len() implies #[trigger] words(p)[i] == words(
        plate,
    )[i] by {
        assert(p[2 * i] == plate[2 * i]);
        assert(p[2 * i + 1] == plate[2 * i + 1]);
    }
    let m: int = (plate.len() / 2) as int;
    assert(p[2 * m] == (bead / 256) as u8);
    assert(p[2 * m + 1] == (bead % 256) as u8);
    assert(words(p) =~= words(plate).push(bead));
}

/// Tracks the five standard baccarat scoreboards for a running shoe.
///
/// Call [`update`] after each round to advance all five boards.
///
/// [`update`]: BaccScoreboard::update
pub struct BaccScoreboard {
    // Bead words in chronological order, two big-endian bytes each.
    bead_plate: ArrayVec<u8, 192>,
    // Big road columns in chronological order; see `roads::big_road_step`.
    big_road: ArrayVec<u8, 288>,
    // Row counts of the five most recent big road columns (index 0 = current).
    col_heights: [u8; 5],
    // [Big Eye Boy, Small Road, Cockroach Pig] - one run-length register each.
    derived_roads: [ArrayVec<u8, 96>; 3],
}

impl BaccScoreboard {
    /// The bead plate bytes: each bead word as two big-endian bytes.
    pub closed spec fn plate(&self) -> Seq<u8> {
        bytes_192(self.bead_plate)
    }

    /// The big road, column heights and derived roads.
    pub closed spec fn roads(&self) -> Roads {
        Roads {
            big_road: bytes_288(self.big_road),
            heights: self.col_heights@,
            derived: seq![
                bytes_96(self.derived_roads[0]),
                bytes_96(self.derived_roads[1]),
                bytes_96(self.derived_roads[2]),
            ],
        }
    }

    /// The bead words played so far, oldest first.
    pub open spec fn beads(&self) -> Seq<u16> {
        words(self.plate())
    }

    /// The registers agree with the bead words, which fit the bead plate.
    pub open spec fn wf(&self) -> bool {
        &&& self.plate().len() % 2 == 0
        &&& self.plate().len() <= 192
        &&& self.roads() == replay(self.beads())
    }

    /// Creates a new [`BaccScoreboard`] with all scoreboards zeroed.
    pub fn new() -> (sb: Self)
        ensures
            sb.wf(),
            sb.plate() == Seq::<u8>::empty(),
    {
        let sb = BaccScoreboard {
            bead_plate: new_192(),
            big_road: new_288(),
            col_heights: [0u8, 0u8, 0u8, 0u8, 0u8],
            derived_roads: [new_96(), new_96(), new_96()],
        };
        assert(sb.roads().heights =~= seq![0u8, 0u8, 0u8, 0u8, 0u8]);
        assert(sb.beads() =~= Seq::<u16>::empty());
        sb
    }

    /// Appends the bytes of one bead word to the bead plate.
    fn update_bead_plate(&mut self, bead: u16)
        requires
            old(self).plate().len() + 2 <= 192,
        ensures
            final(self).plate() == old(self).plate() + bead_bytes(bead),
            final(self).roads() == old(self).roads(),
    {
        let pair: [u8; 2] = [(bead / 256) as u8, (bead % 256) as u8];
        assert(pair@ =~= bead_bytes(bead));
        extend_192(&mut self.bead_plate, pair.as_slice()).expect(
            "bead_plate capacity not exceeded",
        );
    }

    /// Applies one bead word to the big road and the column heights.
    fn update_big_road(&mut self, bead: u16, is_tie: bool)
        requires
            is_tie == tie_bead(bead),
            exists|n: int| 0 <= n < 96 && roads_ok(old(self).roads(), n),
        ensures
            final(self).roads() == big_road_step(old(self).roads(), bead),
            final(self).plate() == old(self).plate(),
    {
        let ghost n: int = choose|n: int| 0 <= n < 96 && roads_ok(old(self).roads(), n);
        let ghost r = old(self).roads();
        let val: u8 = (bead / 256) as u8;
        let out: u8 = (bead % 256) as u8;
        let road = slice_288(&self.big_road);
        let len = road.len();
        if len == 0 {
            if is_tie {
                push_288(&mut self.big_road, 0x10);
                push_288(&mut self.big_road, out);
                push_288(&mut self.big_road, 0);
            } else {
                push_288(&mut self.big_road, val);
                push_288(&mut self.big_road, out);
                push_288(&mut self.big_road, 1);
                self.col_heights = [1u8, 0u8, 0u8, 0u8, 0u8];
            }
            assert(self.roads().big_road =~= big_road_step(r, bead).big_road);
            assert(self.roads().heights =~= big_road_step(r, bead).heights);
            return;
        }
        let last_outcome = road[len - 2] & 0x3;
        let is_shoe_tie_start = last_outcome == 0x3;
        let is_column_hit = last_outcome == (out & 0x3);
        if is_tie {
            let b = road[len - 3];
            set_288(&mut self.big_road, len - 3, if b < 0xF0 { b + 0x10 } else { b });
        } else if is_shoe_tie_start {
            let first = road[len - 3] | val;
            set_288(&mut self.big_road, len - 3, first);
            set_288(&mut self.big_road, len - 2, out);
            set_288(&mut self.big_road, len - 1, 1);
            self.col_heights[0] = 1;
        } else if is_column_hit {
            let row_cnt = pop_288(&mut self.big_road).expect("big_road is non-empty");
            push_288(&mut self.big_road, val);
            push_288(&mut self.big_road, out);
            push_288(&mut self.big_road, row_cnt + 1);
            self.col_heights[0] = self.col_heights[0] + 1;
        } else {
            push_288(&mut self.big_road, val);
            push_288(&mut self.big_road, out);
            push_288(&mut self.big_road, 1);
            self.col_heights[4] = self.col_heights[3];
            self.col_heights[3] = self.col_heights[2];
            self.col_heights[2] = self.col_heights[1];
            self.col_heights[1] = self.col_heights[0];
            self.col_heights[0] = 1;
        }
        assert(self.roads().big_road =~= big_road_step(r, bead).big_road);
        assert(self.roads().heights =~= big_road_step(r, bead).heights);
    }

    /// Records `icon` on derived road `road_idx`.
    fn push_derived_road_icon(&mut self, road_idx: usize, icon: u8)
        requires
            road_idx < 3,
            icon <= 1,
            old(self).roads().derived[road_idx as int].len() < 96,
            forall|j: int|
                0 <= j < old(self).roads().derived[road_idx as int].len() ==> #[trigger] old(
                    self,
                ).roads().derived[road_idx as int][j] <= 250,
        ensures
            final(self).roads() == (Roads {
                derived: old(self).roads().derived.update(
                    road_idx as int,
                    push_icon(old(self).roads().derived[road_idx as int], icon),
                ),
                ..old(self).roads()
            }),
            final(self).plate() == old(self).plate(),
    {
        let ghost r = old(self).roads();
        let road = &mut self.derived_roads[road_idx];
        let cur = slice_96(road);
        let n = cur.len();
        if n == 0 {
            push_96(road, 2 | icon);
        } else {
            let last = cur[n - 1];
            let last_icon = last & 1;
            if icon == last_icon {
                set_96(road, n - 1, last + 2);
            } else {
                push_96(road, 2 | icon);
            }
        }
        assert(bytes_96(self.derived_roads[road_idx as int]) == push_icon(
            r.derived[road_idx as int],
            icon,
        ));
        assert(forall|k: int|
            0 <= k < 3 && k != road_idx ==> self.derived_roads[k] == old(self).derived_roads[k]);
        assert(self.roads().derived =~= r.derived.update(
            road_idx as int,
            push_icon(r.derived[road_idx as int], icon),
        ));
    }

    /// Records this round's icon on each derived road that has one.
    fn update_derived_roads(&mut self)
        requires
            forall|k: int| 0 <= k < 3 ==> (#[trigger] old(self).roads().derived[k]).len() < 96,
            forall|k: int, j: int|
                0 <= k < 3 && 0 <= j < old(self).roads().derived[k].len() ==> #[trigger] old(
                    self,
                ).roads().derived[k][j] <= 250,
            forall|k: int| 0 <= k < 5 ==> #[trigger] old(self).roads().heights[k] <= 96,
        ensures
            final(self).roads() == derived_step(old(self).roads()),
            final(self).plate() == old(self).plate(),
    {
        let ghost r = old(self).roads();
        let mut i: usize = 1;
        while i <= 3
            invariant
                1 <= i <= 4,
                self.plate() == old(self).plate(),
                self.roads().big_road == r.big_road,
                self.roads().heights == r.heights,
                self.roads().derived.len() == 3,
                forall|k: int|
                    0 <= k < i - 1 ==> #[trigger] self.roads().derived[k] == derived_after(
                    r.heights,
                    r.derived[k],
                    k,
                ),
                forall|k: int|
                    i - 1 <= k < 3 ==> #[trigger] self.roads().derived[k] == r.derived[k],
                forall|k: int| 0 <= k < 3 ==> (#[trigger] r.derived[k]).len() < 96,
                forall|k: int, j: int|
                    0 <= k < 3 && 0 <= j < r.derived[k].len() ==> #[trigger] r.derived[k][j] <= 250,
                forall|k: int| 0 <= k < 5 ==> #[trigger] r.heights[k] <= 96,
            decreases 4 - i,
        {
            let has_ref_col = self.col_heights[i + 1] > 0;
            let has_growing_col = self.col_heights[i] > 0 && self.col_heights[0] > 1;
            if has_ref_col || has_growing_col {
                let icon: u8 = if self.col_heights[0] == 1 {
                    if self.col_heights[i] == self.col_heights[i + 1] {
                        1
                    } else {
                        0
                    }
                } else {
                    if self.col_heights[0] != self.col_heights[i] + 1 {
                        1
                    } else {
                        0
                    }
                };
                assert(derived_icon(r.heights, i as int) == Some(icon));
                assert(self.roads().derived[i - 1] == r.derived[i - 1]);
                self.push_derived_road_icon(i - 1, icon);
            } else {
                assert(derived_icon(r.heights, i as int) is None);
            }
            i = i + 1;
        }
        assert(self.roads().derived =~= derived_step(r).derived);
    }

    /// Appends one bead word to every register.
    fn update_bead(&mut self, bead: u16)
        requires
            old(self).wf(),
            old(self).beads().len() < 96,
        ensures
            final(self).wf(),
            final(self).plate() == old(self).plate() + bead_bytes(bead),
    {
        let ghost beads = old(self).beads();
        proof {
            lemma_replay_ok(beads);
        }
        let is_tie = (bead & 0x3) == 0x3;
        self.update_bead_plate(bead);
        self.update_big_road(bead, is_tie);
        if !is_tie {
            let ghost r1 = self.roads();
            let ghost r0 = replay(beads);
            assert(forall|k: int| 0 <= k < 3 ==> #[trigger] r1.derived[k] == r0.derived[k]);
            assert(forall|k: int| 0 <= k < 3 ==> (#[trigger] r1.derived[k]).len() < 96) by {
                assert(forall|k: int|
                    0 <= k < 3 ==> (#[trigger] r0.derived[k]).len() <= beads.len());
            }
            assert forall|k: int, j: int|
                0 <= k < 3 && 0 <= j < r1.derived[k].len() implies #[trigger] r1.derived[k][j]
                    <= 250 by {
                assert(r0.derived[k][j] <= 2 * beads.len() + 1);
            }
            assert(forall|k: int| 0 <= k < 5 ==> #[trigger] r1.heights[k] <= 96) by {
                crate::roads::lemma_step_ok(r0, bead, beads.len() as int);
                assert(roads_ok(big_road_step(r0, bead), beads.len() + 1 as int));
            }
            self.update_derived_roads();
        }
        proof {
            lemma_words_push(old(self).plate(), bead);
            assert(beads.push(bead).drop_last() =~= beads);
        }
    }

    /// Converts a [`BaccOutcome`] into a two-byte bead word for the bead plate
    /// (layout in [`round_bead`]). Banker wins carry the banker's hand value;
    /// player wins and ties carry the player's.
    fn bead_word(outcome: &BaccOutcome) -> (w: u16)
        requires
            outcome.spec_marker() <= 3,
            outcome.spec_pairs() <= 3,
            outcome.spec_thirds() <= 3,
        ensures
            w == ((if outcome.spec_marker() == 2 {
                outcome.spec_banker_value()
            } else {
                outcome.spec_player_value()
            }) * 256 + outcome.spec_marker() + 4 * outcome.spec_pairs() + 16
                * outcome.spec_thirds()) as u16,
    {
        let hand_val = if outcome.marker() == 0x2 {
            outcome.banker_value()
        } else {
            outcome.player_value()
        };
        let m = outcome.marker();
        let p = outcome.pairs();
        let t = outcome.thirds();
        let low_byte = m | (p << 2) | (t << 4);
        assert(m <= 3 && p <= 3 && t <= 3 ==> ((hand_val as u16) << 8) | ((m | (p << 2) | (t << 4))
            as u16) == hand_val * 256 + m + 4 * p + 16 * t) by (bit_vector);
        (hand_val as u16) << 8 | (low_byte as u16)
    }

    /// Updates all five scoreboards immediately after a completed round.
    ///
    /// A shoe holds at most [`MAX_ROUNDS`] rounds.
    pub fn update(&mut self, round: &BaccRound)
        requires
            old(self).wf(),
            old(self).beads().len() < 96,
        ensures
            final(self).wf(),
            final(self).plate() == old(self).plate() + bead_bytes(
                round_bead(round.player_cards(), round.banker_cards()),
            ),
            final(self).beads() == old(self).beads().push(
                round_bead(round.player_cards(), round.banker_cards()),
            ),
    {
        let outcome = round.outcome();
        let w = Self::bead_word(&outcome);
        self.update_bead(w);
        proof {
            lemma_words_push(old(self).plate(), w);
        }
    }

    /// Plays the big-endian words of `bytes` in order (a trailing odd byte is
    /// ignored).
    fn apply_words(&mut self, bytes: &[u8])
        requires
            old(self).wf(),
            old(self).plate().len() + bytes@.len() <= 193,
        ensures
            final(self).wf(),
            final(self).plate() == old(self).plate() + even_prefix(bytes@),
    {
        let ghost p0 = old(self).plate();
        let count = bytes.len() / 2;
        let mut i: usize = 0;
        while i < count
            invariant
                count == bytes@.len() / 2,
                i <= count,
                self.wf(),
                p0.len() + bytes@.len() <= 193,
                p0.len() % 2 == 0,
                self.plate() == p0 + bytes@.take(2 * i),
            decreases count - i,
        {
            let hi = bytes[2 * i];
            let lo = bytes[2 * i + 1];
            let word: u16 = (hi as u16) * 256 + (lo as u16);
            assert(self.beads().len() == i + p0.len() / 2);
            self.update_bead(word);
            assert(bead_bytes(word) =~= seq![hi, lo]);
            assert(p0 + bytes@.take(2 * i) + bead_bytes(word) =~= p0 + bytes@.take(2 * (i + 1)));
            i = i + 1;
        }
        assert(bytes@.take(2 * i) =~= even_prefix(bytes@));
    }

    /// Resets all five scoreboards to zero.
    pub fn clear(&mut self)
        ensures
            final(self).wf(),
            final(self).plate() == Seq::<u8>::empty(),
    {
        clear_192(&mut self.bead_plate);
        clear_288(&mut self.big_road);
        self.col_heights = [0u8, 0u8, 0u8, 0u8, 0u8];
        clear_96(&mut self.derived_roads[0]);
        clear_96(&mut self.derived_roads[1]);
        clear_96(&mut self.derived_roads[2]);
        assert(self.roads().heights =~= seq![0u8, 0u8, 0u8, 0u8, 0u8]);
        assert(self.roads().derived =~= seq![
            Seq::<u8>::empty(),
            Seq::<u8>::empty(),
            Seq::<u8>::empty(),
        ]);
        assert(self.beads() =~= Seq::<u16>::empty());
    }

    /// Encodes the scoreboard as a lowercase hex string of bead words.
    ///
    /// Sufficient to fully reconstruct the scoreboard via [`decode`], including
    /// the big road, derived roads, and column heights.
    ///
    /// [`decode`]: BaccScoreboard::decode
    pub fn encode(&self) -> (s: ArrayString<384>)
        ensures
            chars_384(s) == hex_text(self.plate()),
    {
        bytes_to_hex(&self.bead_plate)
    }

    /// Decodes a [`BaccScoreboard`] from a hex string produced by [`encode`],
    /// replaying each bead word to rebuild all five scoreboards from scratch.
    ///
    /// [`encode`]: BaccScoreboard::encode
    pub fn decode(hex: &str) -> (sb: Self)
        requires
            decoded_len(hex.spec_bytes().len() as int) <= 192,
        ensures
            sb.wf(),
            sb.plate() == even_prefix(hex_decode(hex.spec_bytes())),
    {
        let bytes = hex_to_bytes(hex);
        let mut sb = Self::new();
        let src = slice_192(&bytes);
        sb.apply_words(src);
        assert(Seq::<u8>::empty() + even_prefix(src@) =~= even_prefix(src@));
        sb
    }

    /// Applies an incremental diff from a server-supplied bead plate hex string.
    ///
    /// If `hex` starts with the current [`encode`] output the new suffix is applied
    /// bead word by bead word. Otherwise the scoreboard is fully reconstructed via
    /// [`decode`] -- covering gap, new shoe, and server-reset cases.
    ///
    /// [`encode`]: BaccScoreboard::encode
    /// [`decode`]: BaccScoreboard::decode
    pub fn apply_hex_diff(&mut self, hex: &str)
        requires
            old(self).wf(),
            diff_fits(old(self).plate(), hex.spec_bytes()),
        ensures
            final(self).wf(),
            final(self).plate() == plate_after_diff(old(self).plate(), hex.spec_bytes()),
    {
        let ghost plate = old(self).plate();
        let client_hex = self.encode();
        let client = str_384(&client_hex);
        proof {
            lemma_hex_text_ascii(plate);
            vstd::utf8::is_ascii_chars_encode_utf8(hex_text(plate));
            assert(client.spec_bytes() == client_bytes(plate));
            assert(client_bytes(plate).len() == 2 * plate.len());
        }
        if starts_with(hex, client) {
            let nibs = hex.as_bytes();
            let bytes = nibbles_to_bytes(nibs, client.len());
            let src = slice_192(&bytes);
            self.apply_words(src);
        } else {
            *self = Self::decode(hex);
        }
    }

    /// Returns the outcome bits of the most recent non-empty big road column.
    ///
    /// `1` = player, `2` = banker. Returns `0` when the big road is empty; the
    /// only column being a shoe-start tie placeholder (row count 0) gives `3`.
    pub fn last_big_road_marker(&self) -> (m: u8)
        requires
            self.wf(),
        ensures
            m == (if self.roads().big_road.len() == 0 {
                0
            } else {
                self.roads().big_road[self.roads().big_road.len() - 2] & 3
            }),
    {
        let road = slice_288(&self.big_road);
        if road.len() == 0 {
            return 0;
        }
        proof {
            lemma_replay_ok(self.beads());
        }
        road[road.len() - 2] & 0x03
    }

    /// Returns the row counts of the five most recent big road columns.
    ///
    /// Index 0 is the current column. Indices 1-3 are the Big Eye Boy, Small Road,
    /// and Cockroach Pig reference columns. A height of `0` means the column does
    /// not exist.
    pub fn col_heights(&self) -> (h: &[u8])
        ensures
            h@ == self.roads().heights,
            h@.len() == 5,
    {
        self.col_heights.as_slice()
    }

    /// The big road bytes, oldest column first.
    pub fn big_road(&self) -> (b: &[u8])
        ensures
            b@ == self.roads().big_road,
    {
        slice_288(&self.big_road)
    }

    /// The run-length register of derived road `idx` (0 = Big Eye Boy,
    /// 1 = Small Road, 2 = Cockroach Pig).
    pub fn derived_road(&self, idx: usize) -> (d: &[u8])
        requires
            idx < 3,
        ensures
            d@ == self.roads().derived[idx as int],
    {
        slice_96(&self.derived_roads[idx])
    }

    /// Returns the bead plate as a `ROWS`-high grid of at most `cols` columns (capped at
    /// `MAX_ROUNDS / ROWS`), newest entries filling the rightmost columns.
    ///
    /// Each cell is `(bead_byte, aux_byte)` where `bead_byte` = outcome/pair/third card flags
    /// (bits 7-0 of the bead word) and `aux_byte` = winner's hand value (bits 15-8).
    /// `(0, 0)` means empty. Oldest entries at index 0.
    pub fn simulate_bead_plate(&self, cols: usize) -> (grid: ArrayVec<[(u8, u8); 6], 16>)
        ensures
            cells(columns_16(grid)) == column_major(plate_window(self.plate(), cols as int)),
    {
        let entries = decode_bead_plate(slice_192(&self.bead_plate), cols);
        bead_plate_grid(&entries)
    }

    /// Returns the big road as a `ROWS`-high grid of at most [`MAX_COL_COUNT`] columns.
    ///
    /// Each column is `[(bead, aux); ROWS]`. `(0, 0)` means empty. Oldest column at index 0.
    pub fn simulate_big_road(&self) -> (grid: ArrayVec<[(u8, u8); 6], 40>)
        requires
            self.wf(),
        ensures
            cells(columns_40(grid)) == big_road_grid(self.roads().big_road),
    {
        let road = slice_288(&self.big_road);
        proof {
            lemma_replay_ok(self.beads());
            assert(road@.take(road@.len() as int) =~= road@);
            lemma_laid_out_parses(road@, road@.len() as int, 40);
        }
        let columns = decode_big_road_cols(road);
        proof {
            lemma_holds_columns(columns@, big_road_columns(road@));
        }
        simulate(&columns, ColorKey::OutcomeBits)
    }

    /// Returns derived road `idx` as a `ROWS`-high grid of at most [`MAX_COL_COUNT`] columns.
    ///
    /// `idx`: 0 = Big Eye Boy, 1 = Small Road, 2 = Cockroach Pig.
    /// Each column is `[(icon, 0); ROWS]` where `icon` is `2` (red), `1` (blue), or `0` (empty).
    pub fn simulate_derived_road(&self, idx: usize) -> (grid: ArrayVec<[(u8, u8); 6], 40>)
        requires
            idx < 3,
        ensures
            cells(columns_40(grid)) == lay_out(
                derived_runs(self.roads().derived[idx as int]),
                ColorKey::WholeByte,
            ).0,
    {
        let columns = decode_derived_runs(slice_96(&self.derived_roads[idx]));
        proof {
            lemma_holds_columns(columns@, derived_runs(self.roads().derived[idx as int]));
        }
        simulate(&columns, ColorKey::WholeByte)
    }
}

impl Default for BaccScoreboard {
    fn default() -> (sb: Self)
        ensures
            sb.wf(),
            sb.plate() == Seq::<u8>::empty(),
    {
        Self::new()
    }
}

} // verus!
