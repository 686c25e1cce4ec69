//! Laws of the scoreboard: what holds across its operations.

use vstd::prelude::*;
use crate::hex::{hex_decode, hex_text, lemma_hex_roundtrip, lemma_hex_text_ascii};
use crate::roads::{
    bead_out, bead_val, big_road_step, laid_out, column_counts, count_at, decisive, derived_after, derived_icon,
    lemma_replay_ok, lemma_replay_streaks, lemma_streaks_len, lemma_tie_keeps_columns, push_icon,
    replay, roads_ok, step, streak_counts, streaks, tie_bead, words, Roads,
};
use crate::grid::{big_road_columns, big_road_grid, parse_columns, column_major, derived_runs, plate_window, empty_column, lay_out, pad_to, place, place_all, start_streak, ColorKey, Cursor};
use crate::round::{
    drew_third, flag_bits, hand_value, opens_with_pair, pip_sum, winner_marker, BaccOutcome,
};
use crate::Rank;
use crate::scoreboard::{
    round_bead, bead_bytes, client_bytes, even_prefix, extends_client, lemma_words_push, plate_after_diff,
    BaccScoreboard,
};

verus! {

/// Decoding what [`BaccScoreboard::encode`] wrote rebuilds the scoreboard:
/// any well-formed scoreboard whose bead plate is what
/// [`BaccScoreboard::decode`] makes of the encoded text has the same bead
/// plate and the same big road, column heights and derived roads.
pub proof fn lemma_decode_encode_roundtrip(sb: BaccScoreboard, rebuilt: BaccScoreboard)
    requires
        sb.wf(),
        rebuilt.wf(),
        rebuilt.plate() == even_prefix(hex_decode(client_bytes(sb.plate()))),
    ensures
        rebuilt.plate() == sb.plate(),
        rebuilt.roads() == sb.roads(),
{
    lemma_hex_roundtrip(sb.plate());
    assert(even_prefix(sb.plate()) =~= sb.plate());
}

/// On hex text of even length, [`BaccScoreboard::apply_hex_diff`] leaves the
/// same bead plate as [`BaccScoreboard::decode`] of that text, whatever the
/// scoreboard held before (and so, by well-formedness, the same registers).
pub proof fn lemma_diff_matches_decode(plate: Seq<u8>, h: Seq<u8>)
    requires
        plate.len() % 2 == 0,
        h.len() % 2 == 0,
    ensures
        plate_after_diff(plate, h) == even_prefix(hex_decode(h)),
{
    if extends_client(plate, h) {
        let c = client_bytes(plate);
        lemma_hex_text_ascii(plate);
        vstd::utf8::is_ascii_chars_encode_utf8(hex_text(plate));
        assert(c.len() == 2 * plate.len());
        let t = h.skip(c.len() as int);
        assert(h =~= c + t);
        lemma_hex_decode_concat(c, t);
        lemma_hex_roundtrip(plate);
        let x = hex_decode(t);
        assert(x.len() % 2 == 0 || x.len() % 2 == 1);
        assert(even_prefix(plate + x) =~= plate + even_prefix(x));
    }
}

/// Entry `k` of the column heights is the row count of the `k`-th newest big
/// road column, `0` when there is no such column.
pub proof fn lemma_col_heights_count_columns(sb: BaccScoreboard)
    requires
        sb.wf(),
    ensures
        forall|k: int|
            0 <= k < 5 ==> #[trigger] sb.roads().heights[k] == count_at(sb.roads().big_road, k),
{
    lemma_replay_ok(sb.beads());
}

/// The big road marker is the tie marker `3` exactly when the newest column
/// has no rows, which only a shoe that opened with ties shows.
pub proof fn lemma_tie_marker_iff_rowless(sb: BaccScoreboard)
    requires
        sb.wf(),
        sb.roads().big_road.len() > 0,
    ensures
        (sb.roads().big_road[sb.roads().big_road.len() - 2] & 3 == 3) <==> sb.roads().heights[0]
            == 0,
{
    lemma_replay_ok(sb.beads());
    assert(sb.roads().heights[0] == count_at(sb.roads().big_road, 0));
    let b = sb.roads().big_road;
    assert(column_counts(b)[0] == b.last());
}

/// A tie played on a scoreboard whose big road has started opens no column
/// and extends none: the big road keeps its length, and the column heights and
/// derived roads stay as they were.
pub proof fn lemma_tie_round_keeps_columns(before: BaccScoreboard, after: BaccScoreboard, bead: u16)
    requires
        before.wf(),
        after.wf(),
        after.plate() == before.plate() + bead_bytes(bead),
        tie_bead(bead),
        before.roads().big_road.len() > 0,
    ensures
        after.roads().big_road.len() == before.roads().big_road.len(),
        after.roads().heights == before.roads().heights,
        after.roads().derived == before.roads().derived,
{
    lemma_words_push(before.plate(), bead);
    assert(before.beads().push(bead).drop_last() =~= before.beads());
    lemma_replay_ok(before.beads());
    lemma_tie_keeps_columns(before.roads(), bead, before.beads().len() as int);
}

/// Each big road column is a streak: newest column first, the row counts are
/// the lengths of the maximal runs of equal outcomes among the decisive
/// rounds. Ties add no rows; while only ties have been played the big road
/// shows a single row-less column.
pub proof fn lemma_big_road_columns_are_streaks(sb: BaccScoreboard)
    requires
        sb.wf(),
    ensures
        column_counts(sb.roads().big_road).len() == streak_counts(sb.beads()).len(),
        forall|i: int|
            0 <= i < column_counts(sb.roads().big_road).len() ==> column_counts(
                sb.roads().big_road,
            )[i] as int == #[trigger] streak_counts(sb.beads())[i],
{
    lemma_replay_streaks(sb.beads());
}

/// Digits of even count decode pairwise, so two even runs decode separately.
proof fn lemma_hex_decode_concat(c: Seq<u8>, t: Seq<u8>)
    requires
        c.len() % 2 == 0,
        t.len() % 2 == 0,
    ensures
        hex_decode(c + t) == hex_decode(c) + hex_decode(t),
{
    let ct = c + t;
    assert forall|i: int| 0 <= i < hex_decode(ct).len() implies #[trigger] hex_decode(ct)[i] == (
    hex_decode(c) + hex_decode(t))[i] by {
        if i < c.len() / 2 {
            assert(ct[2 * i] == c[2 * i]);
            assert(ct[2 * i + 1] == c[2 * i + 1]);
        } else {
            let j = i - c.len() / 2;
            assert(ct[2 * i] == t[2 * j]);
            assert(ct[2 * i + 1] == t[2 * j + 1]);
        }
    }
    assert(hex_decode(ct) =~= hex_decode(c) + hex_decode(t));
}

/// A hand's pair flag is set exactly when its first two cards have the same
/// rank (ten-valued cards of different ranks are no pair), and its
/// third-card flag exactly when it holds three cards: bit 0 for the player,
/// bit 1 for the banker.
pub proof fn lemma_outcome_flags(o: BaccOutcome, player: Seq<Rank>, banker: Seq<Rank>)
    requires
        o.decided_by(player, banker),
    ensures
        (o.spec_pairs() & 1 == 1) <==> (player.len() >= 2 && player[0] == player[1]),
        (o.spec_pairs() & 2 == 2) <==> (banker.len() >= 2 && banker[0] == banker[1]),
        o.spec_pairs() <= 3,
        (o.spec_thirds() & 1 == 1) <==> player.len() == 3,
        (o.spec_thirds() & 2 == 2) <==> banker.len() == 3,
        o.spec_thirds() <= 3,
{
    let p = o.spec_pairs();
    let t = o.spec_thirds();
    assert(p == 0 || p == 1 || p == 2 || p == 3);
    assert(t == 0 || t == 1 || t == 2 || t == 3);
    assert(0u8 & 1 == 0 && 0u8 & 2 == 0 && 1u8 & 1 == 1 && 1u8 & 2 == 0 && 2u8 & 1 == 0 && 2u8 & 2
        == 2 && 3u8 & 1 == 1 && 3u8 & 2 == 2) by (bit_vector);
}

/// The flags byte (low byte of the bead word) of every decisive round, oldest
/// first.
pub open spec fn decisive_flags(beads: Seq<u16>) -> Seq<u8>
    decreases beads.len(),
{
    if beads.len() == 0 {
        Seq::empty()
    } else if beads.last() & 3 == 3 {
        decisive_flags(beads.drop_last())
    } else {
        decisive_flags(beads.drop_last()).push((beads.last() % 256) as u8)
    }
}

/// The flags bytes of the rows of a big road, oldest column first and within
/// a column oldest row first; a row-less column has none.
pub open spec fn row_flags(b: Seq<u8>) -> Seq<u8>
    decreases b.len(),
{
    if b.len() == 0 || b.last() == 0 || b.len() < 2 * b.last() + 1 {
        Seq::empty()
    } else {
        let s = b.len() - 2 * b.last() - 1;
        row_flags(b.take(s)) + Seq::new(b.last() as nat, |j: int| b[s + 2 * j + 1])
    }
}

proof fn lemma_replay_row_flags(beads: Seq<u16>)
    requires
        beads.len() < 120,
    ensures
        row_flags(replay(beads).big_road) == decisive_flags(beads),
    decreases beads.len(),
{
    reveal_with_fuel(row_flags, 2);
    if beads.len() > 0 {
        let prev = beads.drop_last();
        let bead = beads.last();
        lemma_replay_row_flags(prev);
        lemma_replay_ok(prev);
        let r = replay(prev);
        let b = r.big_road;
        let nn = b.len() as int;
        let b1 = replay(beads).big_road;
        assert(replay(beads) == step(r, bead));
        assert(b1 == big_road_step(r, bead).big_road);
        let out = (bead % 256) as u8;
        assert(bead_out(bead) == out);
        assert((bead & 3 == 3) <==> (out & 3 == 3)) by (bit_vector)
            requires
                out == (bead % 256) as u8,
        ;
        if tie_bead(bead) {
            assert(decisive_flags(beads) == decisive_flags(prev));
            if nn > 0 {
                let c = b.last();
                if c > 0 {
                    let s = nn - 2 * c - 1;
                    assert(b1.take(s) =~= b.take(s));
                    assert(Seq::new(c as nat, |j: int| b1[s + 2 * j + 1]) =~= Seq::new(
                        c as nat,
                        |j: int| b[s + 2 * j + 1],
                    ));
                }
            }
        } else {
            assert(decisive_flags(beads) == decisive_flags(prev).push(out));
            if nn == 0 {
                assert(b1.take(0) =~= Seq::<u8>::empty());
                assert(row_flags(b1) =~= seq![out]);
            } else if b[nn - 2] & 3 == 3 {
                assert(nn == 3);
                assert(b1.take(0) =~= Seq::<u8>::empty());
                assert(row_flags(b1) =~= seq![out]);
                assert(row_flags(b) =~= Seq::<u8>::empty());
            } else if b[nn - 2] & 3 == out & 3 {
                let c = b.last();
                let s = nn - 2 * c - 1;
                assert(c > 0);
                assert(b1.len() - 2 * b1.last() - 1 == s);
                assert(b1.take(s) =~= b.take(s));
                assert(Seq::new(b1.last() as nat, |j: int| b1[s + 2 * j + 1]) =~= Seq::new(
                    c as nat,
                    |j: int| b[s + 2 * j + 1],
                ).push(out));
            } else {
                assert(b1.take(nn) =~= b);
                assert(Seq::new(1, |j: int| b1[nn + 2 * j + 1]) =~= seq![out]);
            }
        }
    }
}

/// Every big road row keeps the whole flags byte (outcome, pair and
/// third-card bits) of the decisive round it records: read oldest column
/// first, the rows' flags bytes are the low bytes of the decisive bead words
/// in the order played.
pub proof fn lemma_big_road_rows_keep_flags(sb: BaccScoreboard)
    requires
        sb.wf(),
    ensures
        row_flags(sb.roads().big_road) == decisive_flags(sb.beads()),
{
    lemma_replay_row_flags(sb.beads());
}

/// Row count of the `j`-th newest big road column after `beads`, counted from
/// the streaks of decisive outcomes; `0` when there is no such column.
pub open spec fn run_count(beads: Seq<u16>, j: int) -> int {
    if 0 <= j < streak_counts(beads).len() {
        streak_counts(beads)[j]
    } else {
        0
    }
}

/// The icon derived road `k` (1 = Big Eye Boy, 2 = Small Road, 3 = Cockroach
/// Pig) records for the decisive round that ends `beads`, if any (`1` red,
/// `0` blue). A round that opens a column compares the previous column with
/// the one `k + 1` back: red when they are equally long. A round that extends
/// the current column to `h` rows looks at the column `k` back: blue only when
/// that column ends exactly one row above, that is has `h - 1` rows.
pub open spec fn icon_for_round(beads: Seq<u16>, k: int) -> Option<u8> {
    let h = run_count(beads, 0);
    if h == 1 {
        if run_count(beads, k + 1) > 0 {
            Some(if run_count(beads, k) == run_count(beads, k + 1) { 1u8 } else { 0u8 })
        } else {
            None
        }
    } else if run_count(beads, k) > 0 {
        Some(if h != run_count(beads, k) + 1 { 1u8 } else { 0u8 })
    } else {
        None
    }
}

/// The icons derived road `k` records over `beads`, oldest first.
pub open spec fn road_icons(beads: Seq<u16>, k: int) -> Seq<u8>
    decreases beads.len(),
{
    if beads.len() == 0 {
        Seq::empty()
    } else if beads.last() & 3 == 3 {
        road_icons(beads.drop_last(), k)
    } else {
        match icon_for_round(beads, k) {
            Some(icon) => road_icons(beads.drop_last(), k).push(icon),
            None => road_icons(beads.drop_last(), k),
        }
    }
}

/// The icons a run-length register stands for: each byte is `byte >> 1`
/// copies of icon `byte & 1`.
pub open spec fn expand_runs(road: Seq<u8>) -> Seq<u8>
    decreases road.len(),
{
    if road.len() == 0 {
        Seq::empty()
    } else {
        expand_runs(road.drop_last()) + Seq::new(
            (road.last() >> 1) as nat,
            |j: int| road.last() & 1,
        )
    }
}

/// Each byte of a run-length register is a non-empty run, and neighbouring
/// runs carry different icons.
pub open spec fn maximal_runs(road: Seq<u8>) -> bool {
    &&& forall|j: int| 0 <= j < road.len() ==> (#[trigger] road[j]) >> 1 >= 1
    &&& forall|j: int| 0 < j < road.len() ==> (#[trigger] road[j]) & 1 != road[j - 1] & 1
}

proof fn lemma_push_icon_runs(road: Seq<u8>, icon: u8)
    requires
        icon <= 1,
        maximal_runs(road),
        forall|j: int| 0 <= j < road.len() ==> #[trigger] road[j] <= 250,
    ensures
        expand_runs(push_icon(road, icon)) == expand_runs(road).push(icon),
        maximal_runs(push_icon(road, icon)),
{
    reveal_with_fuel(expand_runs, 2);
    let x = 2u8 | icon;
    assert(icon <= 1 ==> x >> 1 == 1 && x & 1 == icon) by (bit_vector)
        requires
            x == 2u8 | icon,
    ;
    let p = push_icon(road, icon);
    if road.len() == 0 {
        assert(p =~= seq![x]);
        assert(p.drop_last() =~= Seq::<u8>::empty());
        assert(expand_runs(p) =~= seq![icon]);
    } else if road.last() & 1 == icon {
        let n = road.len() as int;
        let l = road.last();
        let y = (l + 2) as u8;
        assert(l <= 250 ==> y >> 1 == (l >> 1) + 1 && y & 1 == l & 1) by (bit_vector)
            requires
                y == (l + 2) as u8,
        ;
        assert(p.drop_last() =~= road.drop_last());
        assert(p.last() == y);
        assert(Seq::new((y >> 1) as nat, |j: int| y & 1) =~= Seq::new(
            (l >> 1) as nat,
            |j: int| l & 1,
        ).push(icon));
        assert(expand_runs(p) =~= expand_runs(road).push(icon));
        assert forall|j: int| 0 <= j < p.len() implies (#[trigger] p[j]) >> 1 >= 1 by {
            if j < n - 1 {
                assert(p[j] == road[j]);
            }
        }
        assert forall|j: int| 0 < j < p.len() implies (#[trigger] p[j]) & 1 != p[j - 1] & 1 by {
            assert(road[j] & 1 != road[j - 1] & 1);
        }
    } else {
        assert(p.drop_last() =~= road);
        assert(Seq::new((x >> 1) as nat, |j: int| x & 1) =~= seq![icon]);
        assert(expand_runs(p) =~= expand_runs(road).push(icon));
        assert forall|j: int| 0 < j < p.len() implies (#[trigger] p[j]) & 1 != p[j - 1] & 1 by {
            if j < road.len() {
                assert(road[j] & 1 != road[j - 1] & 1);
            }
        }
    }
}

/// What the derived-road laws say of the registers after `beads`.
pub open spec fn derived_roads_encode_icons(beads: Seq<u16>) -> bool {
    forall|k: int|
        0 <= k < 3 ==> {
            &&& expand_runs(#[trigger] replay(beads).derived[k]) == road_icons(beads, k + 1)
            &&& maximal_runs(replay(beads).derived[k])
        }
}

proof fn lemma_replay_derived(beads: Seq<u16>)
    requires
        beads.len() < 120,
    ensures
        derived_roads_encode_icons(beads),
    decreases beads.len(),
{
    if beads.len() == 0 {
        assert forall|k: int| 0 <= k < 3 implies {
            &&& expand_runs(#[trigger] replay(beads).derived[k]) == road_icons(beads, k + 1)
            &&& maximal_runs(replay(beads).derived[k])
        } by {
            assert(replay(beads).derived[k].len() == 0);
        }
    } else {
        let prev = beads.drop_last();
        let bead = beads.last();
        lemma_replay_derived(prev);
        lemma_replay_ok(prev);
        lemma_replay_ok(beads);
        lemma_replay_streaks(beads);
        let r = replay(prev);
        let n = prev.len() as int;
        assert(replay(beads) == step(r, bead));
        assert forall|k: int| 0 <= k < 3 implies {
            &&& expand_runs(#[trigger] replay(beads).derived[k]) == road_icons(beads, k + 1)
            &&& maximal_runs(replay(beads).derived[k])
        } by {
            let road = r.derived[k];
            assert(expand_runs(road) == road_icons(prev, k + 1));
            if bead & 3 == 3 {
                assert(tie_bead(bead));
            } else {
                assert(!tie_bead(bead));
                let r1 = big_road_step(r, bead);
                let h = r1.heights;
                let big = r1.big_road;
                assert(h == replay(beads).heights);
                assert(big == replay(beads).big_road);
                assert(replay(beads).derived[k] == derived_after(h, road, k));
                assert(decisive(beads) == decisive(prev).push(bead_out(bead) & 3));
                let sc = streak_counts(beads);
                lemma_streaks_len(decisive(beads));
                assert(sc == streaks(decisive(beads)));
                assert forall|j: int| 0 <= j < 5 implies #[trigger] h[j] as int == run_count(beads, j) by {
                    assert(h[j] == count_at(big, j));
                    if j < column_counts(big).len() {
                        assert(column_counts(big)[j] as int == sc[j]);
                    }
                }
                assert(h[0] >= 1) by {
                    assert(sc.len() > 0);
                    assert(sc[0] >= 1);
                }
                if run_count(beads, k + 1) > 0 {
                    assert(k + 1 < sc.len());
                    assert(sc[k] >= 1);
                }
                assert(derived_icon(h, k + 1) == icon_for_round(beads, k + 1));
                assert(forall|j: int| 0 <= j < road.len() ==> #[trigger] road[j] <= 2 * n + 1);
                match icon_for_round(beads, k + 1) {
                    Some(icon) => {
                        lemma_push_icon_runs(road, icon);
                    },
                    None => {},
                }
            }
        }
    }
}

/// Each derived road register is the run-length encoding of the icons that
/// road records: expanded, its bytes give the icons in the order recorded
/// (see [`icon_for_round`], where column lengths come from the streaks of
/// decisive outcomes), and every byte is a maximal run, so no two
/// neighbouring runs show the same icon.
pub proof fn lemma_derived_roads_encode_icons(sb: BaccScoreboard, k: int)
    requires
        sb.wf(),
        0 <= k < 3,
    ensures
        expand_runs(sb.roads().derived[k]) == road_icons(sb.beads(), k + 1),
        maximal_runs(sb.roads().derived[k]),
{
    lemma_replay_derived(sb.beads());
}

/// Two cells show the same outcome bits and are both empty or both filled.
pub open spec fn same_outcome_cell(a: (u8, u8), b: (u8, u8)) -> bool {
    a.0 & 3 == b.0 & 3 && (a.0 == 0 <==> b.0 == 0)
}

/// Two lists of columns have the same shape and agree cell by cell on
/// outcome bits and emptiness.
pub open spec fn same_outcome_cols(x: Seq<Seq<(u8, u8)>>, y: Seq<Seq<(u8, u8)>>) -> bool {
    &&& x.len() == y.len()
    &&& forall|i: int| 0 <= i < x.len() ==> (#[trigger] x[i]).len() == y[i].len()
    &&& forall|i: int, j: int|
        0 <= i < x.len() && 0 <= j < x[i].len() ==> same_outcome_cell(#[trigger] x[i][j], y[i][j])
}

/// Every column of a grid has six cells.
pub open spec fn six_rows(g: Seq<Seq<(u8, u8)>>) -> bool {
    forall|i: int| 0 <= i < g.len() ==> (#[trigger] g[i]).len() == 6
}

spec fn related_cursors(a: Cursor, b: Cursor) -> bool {
    &&& same_outcome_cols(a.grid, b.grid)
    &&& six_rows(a.grid)
    &&& a.next_col == b.next_col
    &&& a.col == b.col
    &&& a.row == b.row
    &&& a.halted == b.halted
    &&& 0 <= a.row < 6
    &&& 0 <= a.col
    &&& 0 <= a.next_col
}

proof fn lemma_pad_related(x: Seq<Seq<(u8, u8)>>, y: Seq<Seq<(u8, u8)>>, c: int)
    requires
        same_outcome_cols(x, y),
        six_rows(x),
    ensures
        same_outcome_cols(pad_to(x, c), pad_to(y, c)),
        six_rows(pad_to(x, c)),
{
    let px = pad_to(x, c);
    let py = pad_to(y, c);
    assert forall|i: int| 0 <= i < px.len() implies (#[trigger] px[i]).len() == py[i].len() && px[
        i].len() == 6 by {
        if i >= x.len() {
            assert(px[i] == empty_column());
            assert(py[i] == empty_column());
        }
    }
    assert forall|i: int, j: int|
        0 <= i < px.len() && 0 <= j < px[i].len() implies same_outcome_cell(
        #[trigger] px[i][j],
        py[i][j],
    ) by {
        if i >= x.len() {
            assert(px[i] == empty_column());
            assert(py[i] == empty_column());
            assert(0u8 & 3 == 0u8 & 3) by (bit_vector);
        }
    }
}

proof fn lemma_place_related(a: Cursor, b: Cursor, ea: (u8, u8), eb: (u8, u8))
    requires
        related_cursors(a, b),
        same_outcome_cell(ea, eb),
    ensures
        related_cursors(place(a, ea, ColorKey::OutcomeBits), place(b, eb, ColorKey::OutcomeBits)),
{
    if !a.halted && a.col < 40 {
        let col = a.col;
        let row = a.row;
        lemma_pad_related(a.grid, b.grid, col);
        let ga = pad_to(a.grid, col);
        let gb = pad_to(b.grid, col);
        if row + 1 < 6 {
            assert(same_outcome_cell(ga[col][row + 1], gb[col][row + 1]));
            if col > 0 {
                assert(same_outcome_cell(ga[col - 1][row + 1], gb[col - 1][row + 1]));
            }
        }
        let na = ga.update(col, ga[col].update(row, ea));
        let nb = gb.update(col, gb[col].update(row, eb));
        assert forall|i: int| 0 <= i < na.len() implies (#[trigger] na[i]).len() == nb[i].len()
            && na[i].len() == 6 by {
            assert(ga[i].len() == 6);
        }
        assert forall|i: int, j: int|
            0 <= i < na.len() && 0 <= j < na[i].len() implies same_outcome_cell(
            #[trigger] na[i][j],
            nb[i][j],
        ) by {
            assert(ga[i].len() == 6);
            if !(i == col && j == row) {
                assert(same_outcome_cell(ga[i][j], gb[i][j]));
            }
        }
    }
}

proof fn lemma_place_all_related(
    a: Cursor,
    b: Cursor,
    ra: Seq<(u8, u8)>,
    rb: Seq<(u8, u8)>,
)
    requires
        related_cursors(a, b),
        ra.len() == rb.len(),
        forall|j: int| 0 <= j < ra.len() ==> same_outcome_cell(#[trigger] ra[j], rb[j]),
    ensures
        related_cursors(
            place_all(a, ra, ColorKey::OutcomeBits),
            place_all(b, rb, ColorKey::OutcomeBits),
        ),
    decreases ra.len(),
{
    if ra.len() > 0 {
        lemma_place_all_related(a, b, ra.drop_last(), rb.drop_last());
        assert(same_outcome_cell(ra[ra.len() - 1], rb[rb.len() - 1]));
        lemma_place_related(
            place_all(a, ra.drop_last(), ColorKey::OutcomeBits),
            place_all(b, rb.drop_last(), ColorKey::OutcomeBits),
            ra.last(),
            rb.last(),
        );
    }
}

proof fn lemma_lay_out_related(x: Seq<Seq<(u8, u8)>>, y: Seq<Seq<(u8, u8)>>)
    requires
        same_outcome_cols(x, y),
    ensures
        same_outcome_cols(lay_out(x, ColorKey::OutcomeBits).0, lay_out(y, ColorKey::OutcomeBits).0),
        six_rows(lay_out(x, ColorKey::OutcomeBits).0),
        lay_out(x, ColorKey::OutcomeBits).1 == lay_out(y, ColorKey::OutcomeBits).1,
        lay_out(x, ColorKey::OutcomeBits).1 >= 0,
    decreases x.len(),
{
    if x.len() > 0 {
        let xd = x.drop_last();
        let yd = y.drop_last();
        assert forall|i: int| 0 <= i < xd.len() implies (#[trigger] xd[i]).len() == yd[i].len() by {
            assert(x[i].len() == y[i].len());
        }
        assert forall|i: int, j: int|
            0 <= i < xd.len() && 0 <= j < xd[i].len() implies same_outcome_cell(
            #[trigger] xd[i][j],
            yd[i][j],
        ) by {
            assert(same_outcome_cell(x[i][j], y[i][j]));
        }
        lemma_lay_out_related(xd, yd);
        let pa = lay_out(xd, ColorKey::OutcomeBits);
        let pb = lay_out(yd, ColorKey::OutcomeBits);
        if pa.1 < 40 {
            lemma_pad_related(pa.0, pb.0, pa.1);
            let sa = start_streak(pa.0, pa.1);
            let sb = start_streak(pb.0, pb.1);
            let last = x.len() - 1;
            assert(x.last().len() == y.last().len());
            assert forall|j: int| 0 <= j < x.last().len() implies same_outcome_cell(
                #[trigger] x.last()[j],
                y.last()[j],
            ) by {
                assert(same_outcome_cell(x[last][j], y[last][j]));
            }
            lemma_place_all_related(sa, sb, x.last(), y.last());
        }
    }
}

/// The big road grid reads a row's flags byte only through its outcome bits:
/// two lists of columns that agree on each entry's outcome bits (and on which
/// entries are empty) are laid out on the same cells, with the same outcome
/// bits in each cell.
pub proof fn lemma_big_road_layout_by_outcome(x: Seq<Seq<(u8, u8)>>, y: Seq<Seq<(u8, u8)>>)
    requires
        same_outcome_cols(x, y),
    ensures
        same_outcome_cols(lay_out(x, ColorKey::OutcomeBits).0, lay_out(y, ColorKey::OutcomeBits).0),
{
    lemma_lay_out_related(x, y);
}

/// The big road grid of a scoreboard reads the rows' flags bytes only
/// through their outcome bits: two scoreboards whose big road columns agree
/// entry by entry on outcome bits show the same cells filled, with the same
/// outcome bits, whatever pair and third-card bits the rows carry.
pub proof fn lemma_big_road_grid_by_outcome(a: BaccScoreboard, b: BaccScoreboard)
    requires
        a.wf(),
        b.wf(),
        same_outcome_cols(
            big_road_columns(a.roads().big_road),
            big_road_columns(b.roads().big_road),
        ),
    ensures
        same_outcome_cols(big_road_grid(a.roads().big_road), big_road_grid(b.roads().big_road)),
        six_rows(big_road_grid(a.roads().big_road)),
{
    lemma_lay_out_related(big_road_columns(a.roads().big_road), big_road_columns(b.roads().big_road));
}

/// Two flags bytes show the same outcome bits and are both zero or both not.
pub open spec fn same_outcome_byte(x: u8, y: u8) -> bool {
    x & 3 == y & 3 && (x == 0 <==> y == 0)
}

/// Two big roads split into the same columns with the same row counts, and
/// each row's flags byte in one shows the same outcome as in the other; the
/// `aux` bytes (tie counts and hand values) may differ.
pub open spec fn alike_roads(x: Seq<u8>, y: Seq<u8>) -> bool
    decreases x.len(),
{
    if x.len() != y.len() {
        false
    } else if x.len() == 0 {
        true
    } else if x.last() != y.last() {
        false
    } else if x.last() == 0 {
        x.len() == 3 && same_outcome_byte(x[1], y[1])
    } else if x.len() < 2 * x.last() + 1 {
        false
    } else {
        let s = x.len() - 2 * x.last() - 1;
        &&& alike_roads(x.take(s), y.take(s))
        &&& forall|j: int|
            0 <= j < x.last() ==> same_outcome_byte(#[trigger] x[s + 2 * j + 1], y[s + 2 * j + 1])
    }
}

proof fn lemma_out_bits(bead: u16)
    ensures
        bead_out(bead) & 3 == (bead & 3) as u8,
        bead & 3 != 0 ==> bead_out(bead) != 0,
{
    assert(((bead % 256) as u8) & 3 == (bead & 3) as u8) by (bit_vector);
    assert(bead & 3 != 0 ==> ((bead % 256) as u8) != 0) by (bit_vector);
}

proof fn lemma_big_road_step_alike(r1: Roads, r2: Roads, x1: u16, x2: u16, m: int)
    requires
        roads_ok(r1, m),
        0 <= m < 120,
        alike_roads(r1.big_road, r2.big_road),
        x1 & 3 == x2 & 3,
        x1 & 3 != 0,
    ensures
        alike_roads(big_road_step(r1, x1).big_road, big_road_step(r2, x2).big_road),
{
    let b1 = r1.big_road;
    let b2 = r2.big_road;
    let n = b1.len() as int;
    let o1 = bead_out(x1);
    let o2 = bead_out(x2);
    lemma_out_bits(x1);
    lemma_out_bits(x2);
    assert(same_outcome_byte(o1, o2));
    assert(tie_bead(x1) == tie_bead(x2));
    let c1 = big_road_step(r1, x1).big_road;
    let c2 = big_road_step(r2, x2).big_road;
    reveal_with_fuel(alike_roads, 2);
    if n == 0 {
        assert(c1.take(0) =~= Seq::<u8>::empty());
        assert(c2.take(0) =~= Seq::<u8>::empty());
    } else {
        let c = b1.last();
        assert(b1[n - 2] & 3 == b2[n - 2] & 3) by {
            if c > 0 {
                let s = n - 2 * c - 1;
                assert(same_outcome_byte(b1[s + 2 * (c - 1) + 1], b2[s + 2 * (c - 1) + 1]));
            }
        }
        if tie_bead(x1) {
            if c > 0 {
                let s = n - 2 * c - 1;
                assert(c1.take(s) =~= b1.take(s));
                assert(c2.take(s) =~= b2.take(s));
                assert forall|j: int| 0 <= j < c implies same_outcome_byte(
                    #[trigger] c1[s + 2 * j + 1],
                    c2[s + 2 * j + 1],
                ) by {
                    assert(same_outcome_byte(b1[s + 2 * j + 1], b2[s + 2 * j + 1]));
                }
            }
        } else if b1[n - 2] & 3 == 3 {
            assert(c1.take(0) =~= Seq::<u8>::empty());
            assert(c2.take(0) =~= Seq::<u8>::empty());
            assert(c1[1] == o1 && c2[1] == o2);
        } else if b1[n - 2] & 3 == o1 & 3 {
            let s = n - 2 * c - 1;
            assert(c1.len() - 2 * c1.last() - 1 == s);
            assert(c1.take(s) =~= b1.take(s));
            assert(c2.take(s) =~= b2.take(s));
            assert forall|j: int| 0 <= j < c + 1 implies same_outcome_byte(
                #[trigger] c1[s + 2 * j + 1],
                c2[s + 2 * j + 1],
            ) by {
                if j < c {
                    assert(same_outcome_byte(b1[s + 2 * j + 1], b2[s + 2 * j + 1]));
                }
            }
        } else {
            assert(c1.take(n) =~= b1);
            assert(c2.take(n) =~= b2);
            assert(c1[n + 1] == o1 && c2[n + 1] == o2);
        }
    }
}

proof fn lemma_replay_alike(a: Seq<u16>, b: Seq<u16>)
    requires
        a.len() == b.len(),
        a.len() < 120,
        forall|i: int| 0 <= i < a.len() ==> #[trigger] a[i] & 3 == b[i] & 3,
        forall|i: int| 0 <= i < a.len() ==> #[trigger] a[i] & 3 != 0,
    ensures
        alike_roads(replay(a).big_road, replay(b).big_road),
    decreases a.len(),
{
    if a.len() > 0 {
        let n = a.len() - 1;
        lemma_replay_alike(a.drop_last(), b.drop_last());
        assert(a[n] & 3 == b[n] & 3);
        assert(a[n] & 3 != 0);
        lemma_replay_ok(a.drop_last());
        lemma_big_road_step_alike(
            replay(a.drop_last()),
            replay(b.drop_last()),
            a.last(),
            b.last(),
            n,
        );
        assert(replay(a).big_road == big_road_step(replay(a.drop_last()), a.last()).big_road);
        assert(replay(b).big_road == big_road_step(replay(b.drop_last()), b.last()).big_road);
    }
}

proof fn lemma_parse_alike(x: Seq<u8>, y: Seq<u8>, pos: int, k: int)
    requires
        0 <= pos <= x.len(),
        x.len() == y.len(),
        alike_roads(x.take(pos), y.take(pos)),
    ensures
        parse_columns(x, pos, k) is Some <==> parse_columns(y, pos, k) is Some,
        parse_columns(x, pos, k) is Some ==> same_outcome_cols(
            parse_columns(x, pos, k)->Some_0,
            parse_columns(y, pos, k)->Some_0,
        ),
    decreases pos,
{
    if pos > 0 && k > 0 {
        let tx = x.take(pos);
        let ty = y.take(pos);
        let rc = x[pos - 1];
        assert(tx.last() == rc && ty.last() == y[pos - 1]);
        if rc > 0 {
            let s = pos - 1 - 2 * rc;
            assert(tx.take(s) =~= x.take(s));
            assert(ty.take(s) =~= y.take(s));
            lemma_parse_alike(x, y, s, k - 1);
            let take = if rc < 45 { rc as int } else { 45 };
            let rx = Seq::new(take as nat, |j: int| (x[s + 2 * j + 1], x[s + 2 * j]));
            let ry = Seq::new(take as nat, |j: int| (y[s + 2 * j + 1], y[s + 2 * j]));
            assert forall|j: int| 0 <= j < take implies same_outcome_cell(#[trigger] rx[j], ry[j]) by {
                assert(same_outcome_byte(tx[s + 2 * j + 1], ty[s + 2 * j + 1]));
            }
            if parse_columns(x, s, k - 1) is Some {
                let px = parse_columns(x, s, k - 1)->Some_0;
                let py = parse_columns(y, s, k - 1)->Some_0;
                let ax = seq![rx] + px;
                let ay = seq![ry] + py;
                assert(parse_columns(x, pos, k) == Some(ax));
                assert(parse_columns(y, pos, k) == Some(ay));
                assert forall|i: int, j: int|
                    0 <= i < ax.len() && 0 <= j < ax[i].len() implies same_outcome_cell(
                    #[trigger] ax[i][j],
                    ay[i][j],
                ) by {
                    if i > 0 {
                        assert(ax[i] == px[i - 1] && ay[i] == py[i - 1]);
                    }
                }
                assert forall|i: int| 0 <= i < ax.len() implies (#[trigger] ax[i]).len()
                    == ay[i].len() by {
                    if i > 0 {
                        assert(ax[i] == px[i - 1] && ay[i] == py[i - 1]);
                    }
                }
            }
        }
    }
}

proof fn lemma_reverse_alike(x: Seq<Seq<(u8, u8)>>, y: Seq<Seq<(u8, u8)>>)
    requires
        same_outcome_cols(x, y),
    ensures
        same_outcome_cols(x.reverse(), y.reverse()),
{
    let n = x.len();
    assert forall|i: int| 0 <= i < n implies (#[trigger] x.reverse()[i]).len() == y.reverse()[i].len() by {
        assert(x.reverse()[i] == x[n - 1 - i]);
    }
    assert forall|i: int, j: int|
        0 <= i < n && 0 <= j < x.reverse()[i].len() implies same_outcome_cell(
        #[trigger] x.reverse()[i][j],
        y.reverse()[i][j],
    ) by {
        assert(x.reverse()[i] == x[n - 1 - i]);
        assert(y.reverse()[i] == y[n - 1 - i]);
    }
}

/// The big road grid depends on the rounds only through who won each one:
/// two scoreboards that have recorded the same number of rounds, with the
/// same outcome in each, show the same cells filled with the same outcome
/// bits, whatever pairs, third cards, hand values or tie counts the rounds
/// carried.
pub proof fn lemma_big_road_grid_by_winners(a: BaccScoreboard, b: BaccScoreboard)
    requires
        a.wf(),
        b.wf(),
        a.beads().len() == b.beads().len(),
        forall|i: int| 0 <= i < a.beads().len() ==> #[trigger] a.beads()[i] & 3 == b.beads()[i] & 3,
        forall|i: int| 0 <= i < a.beads().len() ==> #[trigger] a.beads()[i] & 3 != 0,
    ensures
        same_outcome_cols(big_road_grid(a.roads().big_road), big_road_grid(b.roads().big_road)),
{
    let x = a.roads().big_road;
    let y = b.roads().big_road;
    lemma_replay_alike(a.beads(), b.beads());
    assert(x.take(x.len() as int) =~= x);
    assert(y.take(y.len() as int) =~= y);
    reveal_with_fuel(alike_roads, 1);
    lemma_replay_ok(a.beads());
    lemma_replay_ok(b.beads());
    crate::grid::lemma_laid_out_parses(x, x.len() as int, 40);
    lemma_parse_alike(x, y, x.len() as int, 40);
    lemma_reverse_alike(parse_columns(x, x.len() as int, 40)->Some_0, parse_columns(y, y.len() as int, 40)->Some_0);
    lemma_lay_out_related(big_road_columns(x), big_road_columns(y));
}

/// Placing an entry on the big road: it lands at the cursor, and the next
/// entry goes one row down exactly when that row is on the board, the cell
/// there is empty and the cell diagonally below-left does not show the same
/// outcome bits; otherwise the tail turns right.
pub proof fn lemma_big_road_drop_rule(cur: Cursor, e: (u8, u8))
    requires
        !cur.halted,
        0 <= cur.col < 40,
        0 <= cur.row < 6,
        six_rows(cur.grid),
    ensures
        ({
            let col = cur.col;
            let row = cur.row;
            let g = pad_to(cur.grid, col);
            let nxt = place(cur, e, ColorKey::OutcomeBits);
            let drops = row + 1 < 6 && g[col][row + 1].0 == 0 && !(col > 0 && g[col - 1][row
                + 1].0 & 3 == e.0 & 3);
            &&& nxt.grid[col][row] == e
            &&& drops ==> nxt.col == col && nxt.row == row + 1
            &&& !drops ==> nxt.col == col + 1 && nxt.row == row
        }),
{
    let g = pad_to(cur.grid, cur.col);
    if cur.col >= cur.grid.len() {
        assert(g[cur.col] == empty_column());
    } else {
        assert(g[cur.col] == cur.grid[cur.col]);
    }
    assert(g[cur.col].len() == 6);
}

/// The point value of a hand of at most three cards: the sum of their pip
/// values (Ace 1, Deuce to Nine their number, tens and faces 10), modulo 10.
pub open spec fn points(cards: Seq<Rank>) -> int {
    let total = if cards.len() == 0 {
        0
    } else if cards.len() == 1 {
        face_value(cards[0])
    } else if cards.len() == 2 {
        face_value(cards[0]) + face_value(cards[1])
    } else {
        face_value(cards[0]) + face_value(cards[1]) + face_value(cards[2])
    };
    total % 10
}

/// Ace 1, Deuce to Nine their number, tens and faces 10.
pub open spec fn face_value(r: Rank) -> int {
    match r {
        Rank::Ace => 1,
        Rank::Deuce => 2,
        Rank::Trey => 3,
        Rank::Four => 4,
        Rank::Five => 5,
        Rank::Six => 6,
        Rank::Seven => 7,
        Rank::Eight => 8,
        Rank::Nine => 9,
        Rank::Ten => 10,
        Rank::Jack => 10,
        Rank::Queen => 10,
        Rank::King => 10,
    }
}

proof fn lemma_points_are_hand_value(cards: Seq<Rank>)
    requires
        cards.len() <= 3,
    ensures
        hand_value(cards) == points(cards),
        0 <= points(cards) < 10,
{
    reveal_with_fuel(pip_sum, 4);
    if cards.len() >= 1 {
        assert(cards.last() == cards[cards.len() - 1]);
    }
    if cards.len() == 3 {
        assert(cards.drop_last().last() == cards[1]);
        assert(cards.drop_last().drop_last() =~= seq![cards[0]]);
        assert(cards.drop_last().drop_last().drop_last() =~= Seq::<Rank>::empty());
    } else if cards.len() == 2 {
        assert(cards.drop_last() =~= seq![cards[0]]);
        assert(cards.drop_last().drop_last() =~= Seq::<Rank>::empty());
    } else if cards.len() == 1 {
        assert(cards.drop_last() =~= Seq::<Rank>::empty());
    }
}

/// What a round decides: each side's value is its points, the higher value
/// wins (`1` player, `2` banker) and equal values tie (`3`).
pub proof fn lemma_outcome_values(o: BaccOutcome, player: Seq<Rank>, banker: Seq<Rank>)
    requires
        o.decided_by(player, banker),
        player.len() <= 3,
        banker.len() <= 3,
    ensures
        o.spec_player_value() == points(player),
        o.spec_banker_value() == points(banker),
        o.spec_marker() == 1 <==> points(player) > points(banker),
        o.spec_marker() == 2 <==> points(banker) > points(player),
        o.spec_marker() == 3 <==> points(player) == points(banker),
{
    lemma_points_are_hand_value(player);
    lemma_points_are_hand_value(banker);
}

/// The bead word a round adds reads back as its outcome: bits 15-8 hold the
/// winner's value (the player's on a tie), bits 1-0 the winner, bits 3-2 the
/// pair flags, bits 5-4 the third-card flags (the lower bit of each for the
/// player, the upper for the banker), and bits 7-6 are clear.
pub proof fn lemma_round_bead_fields(player: Seq<Rank>, banker: Seq<Rank>)
    requires
        player.len() <= 3,
        banker.len() <= 3,
    ensures
        ({
            let w = round_bead(player, banker);
            let pv = points(player);
            let bv = points(banker);
            &&& (w >> 8) as int == (if bv > pv { bv } else { pv })
            &&& (w & 3) as int == (if pv > bv { 1int } else if bv > pv { 2 } else { 3 })
            &&& ((w >> 2) & 1 == 1) <==> (player.len() >= 2 && player[0] == player[1])
            &&& ((w >> 3) & 1 == 1) <==> (banker.len() >= 2 && banker[0] == banker[1])
            &&& ((w >> 4) & 1 == 1) <==> player.len() == 3
            &&& ((w >> 5) & 1 == 1) <==> banker.len() == 3
            &&& (w >> 6) & 3 == 0
        }),
{
    lemma_points_are_hand_value(player);
    lemma_points_are_hand_value(banker);
    let pv = hand_value(player);
    let bv = hand_value(banker);
    let m = winner_marker(pv, bv);
    let v = if m == 2 { bv } else { pv };
    let pp = flag_bits(opens_with_pair(player), opens_with_pair(banker));
    let tt = flag_bits(drew_third(player), drew_third(banker));
    let vv = v as u16;
    let mm = m as u16;
    let p2 = pp as u16;
    let t2 = tt as u16;
    assert(0 <= v < 10);
    assert(round_bead(player, banker) == (vv * 256 + mm + 4 * p2 + 16 * t2) as u16);
    assert(vv < 10 && 1 <= mm <= 3 && p2 <= 3 && t2 <= 3 ==> {
        let x = (vv * 256 + mm + 4 * p2 + 16 * t2) as u16;
        &&& x >> 8 == vv
        &&& x & 3 == mm
        &&& (x >> 2) & 1 == p2 & 1
        &&& (x >> 3) & 1 == (p2 >> 1) & 1
        &&& (x >> 4) & 1 == t2 & 1
        &&& (x >> 5) & 1 == (t2 >> 1) & 1
        &&& (x >> 6) & 3 == 0
    }) by (bit_vector);
    assert(0u16 & 1 == 0 && 1u16 & 1 == 1 && 2u16 & 1 == 0 && 3u16 & 1 == 1 && (0u16 >> 1) & 1
        == 0 && (1u16 >> 1) & 1 == 0 && (2u16 >> 1) & 1 == 1 && (3u16 >> 1) & 1 == 1)
        by (bit_vector);
}

/// The hand value (high byte of the bead word) of every decisive round,
/// oldest first.
pub open spec fn decisive_values(beads: Seq<u16>) -> Seq<int>
    decreases beads.len(),
{
    if beads.len() == 0 {
        Seq::empty()
    } else if beads.last() & 3 == 3 {
        decisive_values(beads.drop_last())
    } else {
        decisive_values(beads.drop_last()).push((beads.last() / 256) as int)
    }
}

/// For every decisive round, oldest first, the ties played after it before
/// the next decisive round; ties before the first decisive round count for
/// that round.
pub open spec fn ties_after(beads: Seq<u16>) -> Seq<int>
    decreases beads.len(),
{
    if beads.len() == 0 {
        Seq::empty()
    } else if beads.last() & 3 == 3 {
        let t = ties_after(beads.drop_last());
        if t.len() == 0 {
            t
        } else {
            t.update(t.len() - 1, t.last() + 1)
        }
    } else {
        let leading = if decisive_values(beads.drop_last()).len() == 0 {
            beads.len() - 1
        } else {
            0
        };
        ties_after(beads.drop_last()).push(leading)
    }
}

/// A tie count as the big road shows it: at most 15.
pub open spec fn shown_ties(t: int) -> int {
    if t < 15 {
        t
    } else {
        15
    }
}

/// The aux bytes of the rows of a big road, in the order of [`row_flags`].
pub open spec fn row_aux(b: Seq<u8>) -> Seq<u8>
    decreases b.len(),
{
    if b.len() == 0 || b.last() == 0 || b.len() < 2 * b.last() + 1 {
        Seq::empty()
    } else {
        let s = b.len() - 2 * b.last() - 1;
        row_aux(b.take(s)) + Seq::new(b.last() as nat, |j: int| b[s + 2 * j])
    }
}

/// The aux byte each row should hold: tie count in the high nibble, hand
/// value in the low nibble.
pub open spec fn expected_aux(beads: Seq<u16>) -> Seq<u8> {
    Seq::new(
        ties_after(beads).len(),
        |j: int| (16 * shown_ties(ties_after(beads)[j]) + decisive_values(beads)[j]) as u8,
    )
}

proof fn lemma_replay_aux(beads: Seq<u16>)
    requires
        beads.len() < 120,
        forall|i: int| 0 <= i < beads.len() ==> #[trigger] beads[i] < 0x1000,
    ensures
        ties_after(beads).len() == decisive_values(beads).len(),
        decisive_values(beads).len() == decisive_flags(beads).len(),
        forall|j: int| 0 <= j < ties_after(beads).len() ==> #[trigger] ties_after(beads)[j] >= 0,
        row_aux(replay(beads).big_road) == expected_aux(beads),
        (decisive_values(beads).len() == 0 && beads.len() > 0) ==> replay(beads).big_road.len() == 3
            && replay(beads).big_road[0] as int == 16 * shown_ties(beads.len() as int),
    decreases beads.len(),
{
    reveal_with_fuel(row_aux, 2);
    reveal_with_fuel(row_flags, 2);
    if beads.len() > 0 {
        let prev = beads.drop_last();
        let bead = beads.last();
        assert(forall|i: int| 0 <= i < prev.len() ==> #[trigger] prev[i] == beads[i]);
        lemma_replay_aux(prev);
        lemma_replay_ok(prev);
        lemma_replay_row_flags(prev);
        let r = replay(prev);
        let b = r.big_road;
        let nn = b.len() as int;
        let b1 = replay(beads).big_road;
        assert(replay(beads) == step(r, bead));
        assert(b1 == big_road_step(r, bead).big_road);
        let out = (bead % 256) as u8;
        let val = (bead / 256) as u8;
        assert(bead_out(bead) == out);
        assert(bead_val(bead) == val);
        assert(bead < 0x1000);
        assert(val < 16);
        assert((bead & 3 == 3) <==> (out & 3 == 3)) by (bit_vector)
            requires
                out == (bead % 256) as u8,
        ;
        let t0 = ties_after(prev);
        let v0 = decisive_values(prev);
        let e0 = expected_aux(prev);
        let t1 = ties_after(beads);
        let v1 = decisive_values(beads);
        let e1 = expected_aux(beads);
        if tie_bead(bead) {
            assert(v1 == v0);
            assert(decisive_flags(beads) == decisive_flags(prev));
            if nn == 0 {
                assert(t0.len() == 0);
                assert(b1[0] == 16);
            } else {
                let c = b.last();
                if c == 0 {
                    assert(nn == 3);
                    assert(row_flags(b).len() == 0);
                    assert(t0.len() == 0);
                    let k = prev.len() as int;
                    assert(b[0] as int == 16 * shown_ties(k));
                    if k < 15 {
                        assert(b1[0] as int == 16 * (k + 1));
                    } else {
                        assert(b1[0] == b[0]);
                    }
                } else {
                    let s = nn - 2 * c - 1;
                    assert(b1.take(s) =~= b.take(s));
                    assert(row_aux(b) == row_aux(b.take(s)) + Seq::new(c as nat, |j: int| b[s + 2 * j]));
                    assert(row_flags(b).len() > 0);
                    let m = t0.len() - 1;
                    assert(m >= 0);
                    assert(row_aux(b).len() == t0.len());
                    assert(row_aux(b)[m] == b[nn - 3]);
                    assert(b[nn - 3] == e0[m]);
                    let x = b[nn - 3];
                    let t = shown_ties(t0[m]);
                    let v = v0[m];
                    assert(0 <= v < 16) by {
                        lemma_values_small(prev, m);
                    }
                    assert(0 <= t <= 15);
                    assert(e0[m] == (16 * t + v) as u8);
                    assert(x as int == 16 * t + v);
                    let nx = b1[nn - 3];
                    assert(nx == (if x < 0xF0 { (x + 0x10) as u8 } else { x }));
                    assert(row_aux(b1) =~= row_aux(b).update(m, nx));
                    assert(t1 == t0.update(m, t0[m] + 1));
                    assert(e1 =~= e0.update(m, nx));
                }
            }
        } else {
            assert(v1 == v0.push((bead / 256) as int));
            assert(decisive_flags(beads) == decisive_flags(prev).push(out));
            if nn == 0 {
                assert(prev.len() == 0);
                assert(b1.take(0) =~= Seq::<u8>::empty());
                assert(row_aux(b1) =~= seq![val]);
                assert(e1 =~= seq![val]);
            } else if b[nn - 2] & 3 == 3 {
                assert(nn == 3);
                assert(row_flags(b).len() == 0);
                assert(v0.len() == 0);
                let k = prev.len() as int;
                let x = b[0];
                assert(x as int == 16 * shown_ties(k));
                let tk = shown_ties(k) as u8;
                assert(x == (16 * tk) as u8);
                assert(tk <= 15 && val < 16 ==> ((16 * tk) as u8) | val == 16 * tk + val) by (bit_vector);
                assert(b1.take(0) =~= Seq::<u8>::empty());
                assert(row_aux(b1) =~= seq![(x | val) as u8]);
                assert(t1 =~= seq![k]);
                assert(e1 =~= seq![(x | val) as u8]);
            } else if b[nn - 2] & 3 == out & 3 {
                let c = b.last();
                let s = nn - 2 * c - 1;
                assert(c > 0);
                assert(b1.len() - 2 * b1.last() - 1 == s);
                assert(b1.take(s) =~= b.take(s));
                assert(Seq::new(b1.last() as nat, |j: int| b1[s + 2 * j]) =~= Seq::new(
                    c as nat,
                    |j: int| b[s + 2 * j],
                ).push(val));
                assert(row_aux(b1) =~= row_aux(b).push(val));
                assert(v0.len() > 0) by {
                    assert(row_flags(b).len() > 0);
                }
                assert(t1 == t0.push(0));
                assert(e1 =~= e0.push(val));
            } else {
                assert(b1.take(nn) =~= b);
                assert(Seq::new(1, |j: int| b1[nn + 2 * j]) =~= seq![val]);
                assert(row_aux(b1) =~= row_aux(b).push(val));
                assert(v0.len() > 0) by {
                    assert(row_flags(b).len() > 0);
                }
                assert(t1 == t0.push(0));
                assert(e1 =~= e0.push(val));
            }
        }
    }
}

proof fn lemma_values_small(beads: Seq<u16>, j: int)
    requires
        forall|i: int| 0 <= i < beads.len() ==> #[trigger] beads[i] < 0x1000,
        0 <= j < decisive_values(beads).len(),
    ensures
        0 <= decisive_values(beads)[j] < 16,
    decreases beads.len(),
{
    if beads.len() > 0 {
        let prev = beads.drop_last();
        assert(forall|i: int| 0 <= i < prev.len() ==> #[trigger] prev[i] == beads[i]);
        assert(beads.last() == beads[beads.len() - 1]);
        if j < decisive_values(prev).len() {
            lemma_values_small(prev, j);
        }
    }
}

/// Every big road row carries its round's hand value in the low nibble of
/// its aux byte and, in the high nibble, the number of ties played after that
/// round before the next decisive one (ties before the first decisive round
/// count for it), capped at 15. Hand values from real rounds fit a nibble.
pub proof fn lemma_big_road_rows_keep_ties_and_values(sb: BaccScoreboard)
    requires
        sb.wf(),
        forall|i: int| 0 <= i < sb.beads().len() ==> #[trigger] sb.beads()[i] < 0x1000,
    ensures
        row_aux(sb.roads().big_road) == expected_aux(sb.beads()),
{
    lemma_replay_aux(sb.beads());
}

/// The bead plate grid for `cols` columns: the newest `min(cols, 16) * 6`
/// bead words (all of them when fewer), oldest first, laid out six to a
/// column; each cell shows a word as `(low byte, high byte)`, that is
/// (flags, hand value); cells after the last word are `(0, 0)`.
pub proof fn lemma_bead_plate_grid_cells(plate: Seq<u8>, cols: int)
    requires
        plate.len() % 2 == 0,
        cols >= 0,
    ensures
        ({
            let n = (plate.len() / 2) as int;
            let cap = 6 * (if cols < 16 { cols } else { 16 });
            let shown = if n < cap { n } else { cap };
            let g = column_major(plate_window(plate, cols));
            &&& g.len() == (shown + 5) / 6
            &&& forall|c: int, r: int|
                0 <= c < g.len() && 0 <= r < 6 ==> #[trigger] g[c][r] == (if 6 * c + r < shown {
                    (
                        (words(plate)[n - shown + 6 * c + r] % 256) as u8,
                        (words(plate)[n - shown + 6 * c + r] / 256) as u8,
                    )
                } else {
                    (0u8, 0u8)
                })
            &&& forall|c: int| 0 <= c < g.len() ==> (#[trigger] g[c]).len() == 6
        }),
{
    let n = (plate.len() / 2) as int;
    let cap = 6 * (if cols < 16 { cols } else { 16 });
    let shown = if n < cap { n } else { cap };
    let e = plate_window(plate, cols);
    let start = if plate.len() < 2 * cap { 0 } else { plate.len() - 2 * cap };
    assert(e.len() == shown);
    assert(start == 2 * (n - shown));
    assert forall|i: int| 0 <= i < shown implies #[trigger] e[i] == (
        (words(plate)[n - shown + i] % 256) as u8,
        (words(plate)[n - shown + i] / 256) as u8,
    ) by {
        let hi = plate[start + 2 * i];
        let lo = plate[start + 2 * i + 1];
        assert(2 * (n - shown + i) == start + 2 * i);
        assert(words(plate)[n - shown + i] == (hi * 256 + lo) as u16);
        assert((hi * 256 + lo) % 256 == lo as int);
        assert((hi * 256 + lo) / 256 == hi as int);
    }
}

/// A derived road register is shown run by run, at most its newest 40 runs:
/// each run is a column of `(2, 0)` cells for red or `(1, 0)` cells for
/// blue, as many as the run is long, up to 45.
pub proof fn lemma_derived_runs_cells(bytes: Seq<u8>)
    ensures
        ({
            let shown = if bytes.len() < 40 { bytes.len() as int } else { 40 };
            let skip = bytes.len() - shown;
            let cols = derived_runs(bytes);
            &&& cols.len() == shown
            &&& forall|i: int|
                0 <= i < shown ==> {
                    let byte = bytes[skip + i];
                    let run = (byte >> 1) as int;
                    &&& (#[trigger] cols[i]).len() == (if run < 45 { run } else { 45 })
                    &&& forall|j: int|
                        0 <= j < cols[i].len() ==> #[trigger] cols[i][j] == (
                            if byte & 1 == 1 { 2u8 } else { 1u8 },
                            0u8,
                        )
                }
        }),
{
    let shown = if bytes.len() < 40 { bytes.len() as int } else { 40 };
    let skip = bytes.len() - shown;
    let cols = derived_runs(bytes);
    assert forall|i: int| 0 <= i < shown implies {
        let byte = bytes[skip + i];
        forall|j: int|
            0 <= j < (#[trigger] cols[i]).len() ==> cols[i][j] == (
                if byte & 1 == 1 { 2u8 } else { 1u8 },
                0u8,
            )
    } by {
        let byte = bytes[skip + i];
        assert((byte & 1 == 1 ==> ((byte & 1) + 1) as u8 == 2u8) && (byte & 1 != 1 ==> ((byte
            & 1) + 1) as u8 == 1u8)) by (bit_vector);
    }
}

/// The rows of a big road as `(flags, aux)` cells, in the order of
/// [`row_flags`].
pub open spec fn row_cells(b: Seq<u8>) -> Seq<(u8, u8)>
    decreases b.len(),
{
    if b.len() == 0 || b.last() == 0 || b.len() < 2 * b.last() + 1 {
        Seq::empty()
    } else {
        let s = b.len() - 2 * b.last() - 1;
        row_cells(b.take(s)) + Seq::new(b.last() as nat, |j: int| (b[s + 2 * j + 1], b[s + 2 * j]))
    }
}

/// The entries of a list of columns, column after column.
pub open spec fn flatten(cols: Seq<Seq<(u8, u8)>>) -> Seq<(u8, u8)>
    decreases cols.len(),
{
    if cols.len() == 0 {
        Seq::empty()
    } else {
        flatten(cols.drop_last()) + cols.last()
    }
}

proof fn lemma_row_cells_parts(b: Seq<u8>)
    ensures
        row_cells(b).len() == row_flags(b).len(),
        row_cells(b).len() == row_aux(b).len(),
        forall|i: int|
            0 <= i < row_cells(b).len() ==> #[trigger] row_cells(b)[i] == (row_flags(b)[i], row_aux(
                b,
            )[i]),
    decreases b.len(),
{
    if !(b.len() == 0 || b.last() == 0 || b.len() < 2 * b.last() + 1) {
        let s = b.len() - 2 * b.last() - 1;
        lemma_row_cells_parts(b.take(s));
    }
}

proof fn lemma_parse_rows(b: Seq<u8>, pos: int, k: int)
    requires
        0 <= pos <= b.len(),
        laid_out(b.take(pos)),
        column_counts(b.take(pos)).len() <= k,
        forall|i: int|
            0 <= i < column_counts(b.take(pos)).len() ==> #[trigger] column_counts(b.take(pos))[i]
                <= 45,
    ensures
        parse_columns(b, pos, k) is Some,
        flatten(parse_columns(b, pos, k)->Some_0.reverse()) == row_cells(b.take(pos)),
        parse_columns(b, pos, k)->Some_0.len() == column_counts(b.take(pos)).len() - (if column_counts(
            b.take(pos),
        ).len() > 0 && column_counts(b.take(pos)).last() == 0 {
            1int
        } else {
            0int
        }),
        forall|i: int|
            0 <= i < parse_columns(b, pos, k)->Some_0.len() ==> (#[trigger] parse_columns(
                b,
                pos,
                k,
            )->Some_0[i]).len() == column_counts(b.take(pos))[i],
    decreases pos,
{
    let t = b.take(pos);
    if pos == 0 {
        assert(t.len() == 0);
        assert(parse_columns(b, pos, k)->Some_0.reverse() =~= Seq::<Seq<(u8, u8)>>::empty());
    } else {
        let rc = b[pos - 1];
        assert(t.last() == rc);
        if rc == 0 {
            assert(parse_columns(b, pos, k)->Some_0.reverse() =~= Seq::<Seq<(u8, u8)>>::empty());
        } else {
            let s = pos - 1 - 2 * rc;
            assert(column_counts(t)[0] == rc);
            assert(t.take(s) =~= b.take(s));
            assert(column_counts(t) == seq![rc] + column_counts(b.take(s)));
            assert forall|i: int|
                0 <= i < column_counts(b.take(s)).len() implies #[trigger] column_counts(
                b.take(s),
            )[i] <= 45 by {
                assert(column_counts(t)[i + 1] == column_counts(b.take(s))[i]);
            }
            lemma_parse_rows(b, s, k - 1);
            let rest = parse_columns(b, s, k - 1)->Some_0;
            let rows = Seq::new(rc as nat, |j: int| (b[s + 2 * j + 1], b[s + 2 * j]));
            assert(parse_columns(b, pos, k) == Some(seq![rows] + rest));
            let all = seq![rows] + rest;
            assert(all.reverse().drop_last() =~= rest.reverse());
            assert(all.reverse().last() == rows);
            assert(Seq::new(rc as nat, |j: int| (t[s + 2 * j + 1], t[s + 2 * j])) =~= rows);
            if s > 0 {
                assert(column_counts(t).last() == column_counts(b.take(s)).last());
            }
            assert forall|i: int| 0 <= i < all.len() implies (#[trigger] all[i]).len()
                == column_counts(t)[i] by {
                if i > 0 {
                    assert(all[i] == rest[i - 1]);
                }
            }
        }
    }
}

/// The big road grid is fed the big road's rows unchanged: when it has at
/// most 40 columns of at most 45 rows, the columns handed to the layout are
/// its columns, oldest first, each as long as its row count, and their
/// entries, column after column, are the rows' `(flags, aux)` bytes.
pub proof fn lemma_big_road_columns_are_rows(sb: BaccScoreboard)
    requires
        sb.wf(),
        column_counts(sb.roads().big_road).len() <= 40,
        forall|i: int|
            0 <= i < column_counts(sb.roads().big_road).len() ==> #[trigger] column_counts(
                sb.roads().big_road,
            )[i] <= 45,
    ensures
        ({
            let b = sb.roads().big_road;
            let cols = big_road_columns(b);
            let cells = row_cells(b);
            &&& flatten(cols) == cells
            &&& cells.len() == row_flags(b).len()
            &&& forall|i: int|
                0 <= i < cells.len() ==> #[trigger] cells[i] == (row_flags(b)[i], row_aux(b)[i])
            &&& forall|i: int|
                0 <= i < cols.len() ==> (#[trigger] cols[i]).len() == column_counts(b)[cols.len()
                    - 1 - i]
        }),
{
    let b = sb.roads().big_road;
    lemma_replay_ok(sb.beads());
    assert(b.take(b.len() as int) =~= b);
    lemma_parse_rows(b, b.len() as int, 40);
    lemma_row_cells_parts(b);
}

} // verus!
