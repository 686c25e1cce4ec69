use bacc_core::grid::{
    decode_bead_plate, decode_big_road_cols, decode_derived_runs, simulate, ColorKey,
};
use bacc_core::scoreboard::{MAX_COL_COUNT, ROWS};
use bacc_core::{BaccHand, BaccRound, BaccScoreboard, Rank};

const R: (u8, u8) = (2, 0);
const B: (u8, u8) = (1, 0);
const E: (u8, u8) = (0, 0);

fn hand(cards: &[Rank]) -> BaccHand {
    let mut h = BaccHand::default();
    for c in cards {
        h.take(c);
    }
    h
}

fn hex(bytes: &[u8]) -> String {
    bytes.iter().map(|b| format!("{b:02x}")).collect()
}

fn col(entries: &[(u8, u8)]) -> Vec<(u8, u8)> {
    entries.to_vec()
}

fn cols(data: &[&[(u8, u8)]]) -> Vec<Vec<(u8, u8)>> {
    data.iter().map(|&c| col(c)).collect()
}

fn rep(entry: (u8, u8), n: usize) -> Vec<(u8, u8)> {
    (0..n).map(|_| entry).collect()
}

fn one_col(entry: (u8, u8), n: usize) -> Vec<Vec<(u8, u8)>> {
    vec![rep(entry, n)]
}

fn player_win() -> BaccRound {
    BaccRound::new(
        hand(&[Rank::Eight, Rank::Ace]),
        hand(&[Rank::Deuce, Rank::Trey]),
        false,
        None,
    )
}

fn banker_win() -> BaccRound {
    BaccRound::new(
        hand(&[Rank::Deuce, Rank::Trey]),
        hand(&[Rank::Eight, Rank::Ace]),
        false,
        None,
    )
}

fn tie() -> BaccRound {
    BaccRound::new(
        hand(&[Rank::Four, Rank::Five]),
        hand(&[Rank::Four, Rank::Five]),
        false,
        None,
    )
}

fn twelve_rounds() -> Vec<BaccRound> {
    vec![
        BaccRound::new(hand(&[Rank::Nine, Rank::Queen]), hand(&[Rank::Nine, Rank::Ten]), false, None),
        BaccRound::new(
            hand(&[Rank::Trey, Rank::King, Rank::Eight]),
            hand(&[Rank::Six, Rank::Jack]),
            false,
            None,
        ),
        BaccRound::new(hand(&[Rank::Five, Rank::Seven]), hand(&[Rank::Nine, Rank::Ten]), false, None),
        BaccRound::new(hand(&[Rank::Queen, Rank::Nine]), hand(&[Rank::Four, Rank::Five]), false, None),
        BaccRound::new(hand(&[Rank::Ace, Rank::Six]), hand(&[Rank::Seven, Rank::King]), false, None),
        BaccRound::new(hand(&[Rank::Ace, Rank::Seven]), hand(&[Rank::Ace, Rank::Six]), false, None),
        BaccRound::new(
            hand(&[Rank::Six, Rank::Queen]),
            hand(&[Rank::Deuce, Rank::King, Rank::Ten]),
            false,
            None,
        ),
        BaccRound::new(hand(&[Rank::King, Rank::Nine]), hand(&[Rank::Eight, Rank::Seven]), false, None),
        BaccRound::new(hand(&[Rank::Nine, Rank::Deuce]), hand(&[Rank::Eight, Rank::Ten]), false, None),
        BaccRound::new(hand(&[Rank::Nine, Rank::Jack]), hand(&[Rank::Four, Rank::Six]), false, None),
        BaccRound::new(
            hand(&[Rank::Trey, Rank::Ten, Rank::Jack]),
            hand(&[Rank::Nine, Rank::Eight]),
            false,
            Some(3),
        ),
        BaccRound::new(
            hand(&[Rank::Four, Rank::Queen, Rank::Trey]),
            hand(&[Rank::Ten, Rank::Trey, Rank::Deuce]),
            false,
            None,
        ),
    ]
}

#[test]
fn decode_bead_plate_empty() {
    let result = decode_bead_plate(&[], 16);
    assert!(result.is_empty());
}

#[test]
fn decode_bead_plate_fewer_entries_than_window_returns_all() {
    let bytes = [0x09u8, 0x01, 0x06, 0x02, 0x07, 0x03];
    let result = decode_bead_plate(&bytes, 16);
    assert_eq!(result.as_slice(), &[(0x01, 0x09), (0x02, 0x06), (0x03, 0x07)]);
}

#[test]
fn decode_bead_plate_cols_param_limits_to_newest_entries() {
    let bytes = [
        0x01u8, 0x01, 0x02, 0x02, 0x03, 0x03, 0x04, 0x04, 0x05, 0x05, 0x06, 0x06, 0x07, 0x07,
    ];
    let result = decode_bead_plate(&bytes, 1);
    assert_eq!(
        result.as_slice(),
        &[(0x02, 0x02), (0x03, 0x03), (0x04, 0x04), (0x05, 0x05), (0x06, 0x06), (0x07, 0x07)]
    );
}

#[test]
fn simulate_bead_plate_packs_column_major() {
    let mut sb = BaccScoreboard::new();
    for _ in 0..7 {
        sb.update(&player_win());
    }
    let grid = sb.simulate_bead_plate(16);
    assert_eq!(grid.len(), 2);
    for row in 0..ROWS {
        assert_ne!(grid[0][row].0, 0);
    }
    assert_ne!(grid[1][0].0, 0);
    for row in 1..ROWS {
        assert_eq!(grid[1][row].0, 0);
    }
}

#[test]
fn simulate_bead_plate_cols_param_excludes_oldest_entries() {
    let mut sb = BaccScoreboard::new();
    for _ in 0..96 {
        sb.update(&player_win());
    }
    let grid = sb.simulate_bead_plate(10);
    assert_eq!(grid.len(), 10);
    for col in &grid {
        for row in 0..ROWS {
            assert_ne!(col[row].0, 0);
        }
    }
}

#[test]
fn simulate_column_selection_uses_successive_columns() {
    let grid = simulate(&cols(&[&[R], &[B], &[R]]), ColorKey::WholeByte);
    assert_eq!(grid.len(), 3);
    assert_eq!(grid[0][0], R);
    assert_eq!(grid[1][0], B);
    assert_eq!(grid[2][0], R);
}

#[test]
fn simulate_cursor_turns_right_at_bottom() {
    let grid = simulate(&one_col(R, 7), ColorKey::WholeByte);
    assert!(grid.len() >= 2);
    assert_eq!(grid[0], [R, R, R, R, R, R]);
    assert_eq!(grid[1], [E, E, E, E, E, R]);
}

#[test]
fn simulate_space_rule_resumes_going_down_when_space_below() {
    let columns = vec![rep(B, 7), rep(R, 8)];
    let grid = simulate(&columns, ColorKey::WholeByte);
    assert_eq!(grid[0], [B, B, B, B, B, B]);
    assert_eq!(grid[1], [R, R, R, R, R, B]);
    assert_eq!(grid[2][4], R);
    assert_eq!(grid[2][5], R);
    assert_eq!(grid[3][5], R);
}

#[test]
fn simulate_color_rule_suppresses_drop_at_same_color_diagonal() {
    let columns = vec![rep(R, 8), rep(B, 5), rep(R, 7)];
    let grid = simulate(&columns, ColorKey::WholeByte);
    assert_eq!(grid[0], [R, R, R, R, R, R]);
    assert_eq!(grid[1], [B, B, B, B, B, R]);
    assert_eq!(grid[2], [R, R, R, R, R, R]);
    assert_eq!(grid[3][4], R);
    assert_eq!(grid[4][4], R);
}

#[test]
fn simulate_double_dragon_two_tails_of_different_color_land_side_by_side() {
    let columns = vec![rep(R, 9), rep(B, 8)];
    let grid = simulate(&columns, ColorKey::WholeByte);
    assert_eq!(grid[0], [R, R, R, R, R, R]);
    assert_eq!(grid[1], [B, B, B, B, B, R]);
    assert_eq!(grid[2][4], B);
    assert_eq!(grid[2][5], R);
    assert_eq!(grid[3][4], B);
    assert_eq!(grid[3][5], R);
    assert_eq!(grid[4][4], B);
}

#[test]
fn simulate_quintuple_dragon_extremely_rare_one() {
    let columns = vec![
        rep(B, 12),
        rep(R, 8),
        rep(B, 7),
        rep(R, 6),
        rep(B, 3),
        rep(R, 1),
        rep(B, 3),
    ];
    let grid = simulate(&columns, ColorKey::WholeByte);
    assert_eq!(grid[0], [B, B, B, B, B, B]);
    assert_eq!(grid[1], [R, R, R, R, R, B]);
    assert_eq!(grid[2], [B, B, B, B, R, B]);
    assert_eq!(grid[3], [R, R, R, B, R, B]);
    assert_eq!(grid[4], [B, B, R, B, R, B]);
    assert_eq!(grid[5], [R, B, R, B, E, B]);
    assert_eq!(grid[6][0], B);
    assert_eq!(grid[6][2], R);
    assert_eq!(grid[7][0], B);
    assert_eq!(grid[7][1], B);
}

#[test]
fn simulate_sextuple_dragon_sixth_tail_immediately_turn_right() {
    let columns = vec![
        rep(R, 12),
        rep(B, 9),
        rep(R, 8),
        rep(B, 7),
        rep(R, 6),
        rep(B, 4),
        rep(R, 3),
    ];
    let grid = simulate(&columns, ColorKey::WholeByte);
    assert_eq!(grid[0], [R, R, R, R, R, R]);
    assert_eq!(grid[1], [B, B, B, B, B, R]);
    assert_eq!(grid[2], [R, R, R, R, B, R]);
    assert_eq!(grid[3], [B, B, B, R, B, R]);
    assert_eq!(grid[4], [R, R, B, R, B, R]);
    assert_eq!(grid[5], [B, R, B, R, B, R]);
    assert_eq!(grid[6], [B, R, B, R, E, R]);
    assert_eq!(grid[7], [B, R, B, E, E, E]);
    assert_eq!(grid[8][0], B);
    assert_eq!(grid[8][1], R);
    assert_eq!(grid[9][0], R);
    assert_eq!(grid[10][0], R);
    assert_eq!(grid[10][1], R);
}

#[test]
fn decode_big_road_cols_empty() {
    assert!(decode_big_road_cols(&[]).is_empty());
}

#[test]
fn decode_big_road_cols_single_column_one_row() {
    let result = decode_big_road_cols(&[0x11, 0x02, 0x01]);
    assert_eq!(result.len(), 1);
    assert_eq!(result[0].as_slice(), &[(0x02u8, 0x11u8)]);
}

#[test]
fn decode_big_road_cols_single_column_two_rows() {
    let result = decode_big_road_cols(&[0x11, 0x01, 0x12, 0x02, 0x02]);
    assert_eq!(result.len(), 1);
    assert_eq!(result[0].as_slice(), &[(0x01u8, 0x11u8), (0x02u8, 0x12u8)]);
}

#[test]
fn decode_big_road_cols_two_columns_one_row_each() {
    let result = decode_big_road_cols(&[0x11, 0x01, 0x01, 0x22, 0x02, 0x01]);
    assert_eq!(result.len(), 2);
    assert_eq!(result[0].as_slice(), &[(0x01u8, 0x11u8)]);
    assert_eq!(result[1].as_slice(), &[(0x02u8, 0x22u8)]);
}

#[test]
fn decode_derived_runs_empty() {
    assert!(decode_derived_runs(&[]).is_empty());
}

#[test]
fn decode_derived_runs_single_blue_run_of_one() {
    let result = decode_derived_runs(&[0x02]);
    assert_eq!(result.len(), 1);
    assert_eq!(result[0].as_slice(), &[(1u8, 0u8)]);
}

#[test]
fn decode_derived_runs_single_red_run_of_one() {
    let result = decode_derived_runs(&[0x03]);
    assert_eq!(result.len(), 1);
    assert_eq!(result[0].as_slice(), &[(2u8, 0u8)]);
}

#[test]
fn decode_derived_runs_single_run_length_three() {
    let result = decode_derived_runs(&[0x06]);
    assert_eq!(result.len(), 1);
    assert_eq!(result[0].as_slice(), &[(1u8, 0u8), (1u8, 0u8), (1u8, 0u8)]);
}

#[test]
fn decode_derived_runs_two_separate_runs() {
    let result = decode_derived_runs(&[0x02, 0x03]);
    assert_eq!(result.len(), 2);
    assert_eq!(result[0].as_slice(), &[(1u8, 0u8)]);
    assert_eq!(result[1].as_slice(), &[(2u8, 0u8)]);
}

#[test]
fn simulate_big_road_41_alternating_drops_oldest_column() {
    let mut sb = BaccScoreboard::new();
    for i in 0..41 {
        if i % 2 == 0 {
            sb.update(&player_win());
        } else {
            sb.update(&banker_win());
        }
    }
    let grid = sb.simulate_big_road();
    assert_eq!(grid.len(), MAX_COL_COUNT);
    for col in &grid {
        assert_ne!(col[0].0, 0);
        for row in 1..ROWS {
            assert_eq!(col[row].0, 0);
        }
    }
    assert_eq!(grid[39][0].0 & 0x03, 0x01);
    assert_eq!(grid[38][0].0 & 0x03, 0x02);
}

#[test]
fn simulate_big_road_46_player_wins_caps_streak_and_banker_visible_at_col1_row0() {
    let mut sb = BaccScoreboard::new();
    for _ in 0..46 {
        sb.update(&player_win());
    }
    sb.update(&banker_win());
    let grid = sb.simulate_big_road();
    assert_eq!(grid.len(), MAX_COL_COUNT);
    for row in 0..ROWS {
        assert_eq!(grid[0][row].0 & 0x03, 0x01);
    }
    assert_eq!(grid[1][0].0 & 0x03, 0x02);
    for col in 1..MAX_COL_COUNT {
        assert_eq!(grid[col][5].0 & 0x03, 0x01);
    }
    for col in 2..MAX_COL_COUNT {
        for row in 0..ROWS - 1 {
            assert_eq!(grid[col][row].0, 0);
        }
    }
}

#[test]
fn all_scoreboards_accumulate_correctly_over_12_rounds() {
    let rounds = twelve_rounds();
    let mut sb = BaccScoreboard::new();
    sb.update(&rounds[0]);
    sb.update(&rounds[1]);
    assert_eq!(sb.encode().as_str(), "09030612");
    assert_eq!(hex(sb.big_road()), "161201");
    for round in &rounds[2..] {
        sb.update(round);
    }
    assert_eq!(sb.encode().as_str(), "090306120902090307030801062109010802090107120731");
    assert_eq!(hex(sb.big_road()), "161229020208010621090103080201090101071201073101");
    assert_eq!(hex(sb.derived_road(0)), "030605");
    assert_eq!(hex(sb.derived_road(1)), "0403");
    assert_eq!(hex(sb.derived_road(2)), "04");
    sb.clear();
    assert_eq!(sb.encode().as_str(), "");
    assert!(sb.big_road().is_empty());
    assert!(sb.derived_road(0).is_empty());
    assert!(sb.derived_road(1).is_empty());
    assert!(sb.derived_road(2).is_empty());
}

#[test]
fn first_round_non_tie_starts_big_road_column() {
    let mut sb = BaccScoreboard::new();
    sb.update(&player_win());
    assert_eq!(sb.encode().as_str(), "0901");
    assert_eq!(hex(sb.big_road()), "090101");
}

#[test]
fn big_road_tie_count_saturates_at_15() {
    let mut sb = BaccScoreboard::new();
    sb.update(&player_win());
    for _ in 0..16 {
        sb.update(&tie());
    }
    assert_eq!(hex(sb.big_road()), "f90101");
}

#[test]
fn apply_hex_diff_empty_self_applies_all_words() {
    let mut reference = BaccScoreboard::new();
    for _ in 0..4 {
        reference.update(&player_win());
    }
    let hex = reference.encode();
    let mut sb = BaccScoreboard::new();
    sb.apply_hex_diff(hex.as_str());
    assert_eq!(sb.encode(), hex);
    assert_eq!(sb.big_road(), reference.big_road());
}

#[test]
fn apply_hex_diff_extends_existing() {
    let mut sb = BaccScoreboard::new();
    for _ in 0..2 {
        sb.update(&player_win());
    }
    let mut full = BaccScoreboard::new();
    for _ in 0..4 {
        full.update(&player_win());
    }
    let full_hex = full.encode();
    sb.apply_hex_diff(full_hex.as_str());
    assert_eq!(sb.encode(), full_hex);
    assert_eq!(sb.big_road(), full.big_road());
}

#[test]
fn apply_hex_diff_full_match_is_noop() {
    let mut sb = BaccScoreboard::new();
    for _ in 0..3 {
        sb.update(&player_win());
    }
    let hex_before = sb.encode();
    sb.apply_hex_diff(hex_before.as_str());
    assert_eq!(sb.encode(), hex_before);
}

#[test]
fn apply_hex_diff_gap_reconstructs() {
    let mut sb = BaccScoreboard::new();
    for _ in 0..3 {
        sb.update(&player_win());
    }
    let mut server = BaccScoreboard::new();
    for _ in 0..3 {
        server.update(&banker_win());
    }
    let server_hex = server.encode();
    sb.apply_hex_diff(server_hex.as_str());
    assert_eq!(sb.encode(), server_hex);
    assert_eq!(sb.big_road(), server.big_road());
}

#[test]
fn apply_hex_diff_server_shorter_reconstructs() {
    let mut sb = BaccScoreboard::new();
    for _ in 0..4 {
        sb.update(&player_win());
    }
    let mut short = BaccScoreboard::new();
    for _ in 0..2 {
        short.update(&player_win());
    }
    let short_hex = short.encode();
    sb.apply_hex_diff(short_hex.as_str());
    assert_eq!(sb.encode(), short_hex);
    assert_eq!(sb.big_road(), short.big_road());
}

#[test]
fn apply_hex_diff_empty_hex_resets_to_empty() {
    let mut sb = BaccScoreboard::new();
    for _ in 0..3 {
        sb.update(&player_win());
    }
    sb.apply_hex_diff("");
    assert_eq!(sb.encode().as_str(), "");
    assert!(sb.big_road().is_empty());
}

#[test]
fn last_big_road_marker_empty_returns_zero() {
    let sb = BaccScoreboard::new();
    assert_eq!(sb.last_big_road_marker(), 0);
}

#[test]
fn last_big_road_marker_player_column() {
    let mut sb = BaccScoreboard::new();
    sb.update(&player_win());
    assert_eq!(sb.last_big_road_marker(), 0x01);
}

#[test]
fn last_big_road_marker_banker_column() {
    let mut sb = BaccScoreboard::new();
    sb.update(&banker_win());
    assert_eq!(sb.last_big_road_marker(), 0x02);
}

#[test]
fn last_big_road_marker_tie_only_shoe_start_returns_tie_marker_and_height_is_zero() {
    let mut sb = BaccScoreboard::new();
    sb.update(&tie());
    assert_eq!(sb.last_big_road_marker(), 0x03);
    assert_eq!(sb.col_heights()[0], 0);
}

#[test]
fn last_big_road_marker_reflects_current_column_after_switch() {
    let mut sb = BaccScoreboard::new();
    sb.update(&player_win());
    sb.update(&player_win());
    sb.update(&banker_win());
    assert_eq!(sb.last_big_road_marker(), 0x02);
}

#[test]
fn col_heights_empty_all_zero() {
    let sb = BaccScoreboard::new();
    assert_eq!(sb.col_heights(), &[0u8; 5]);
}

#[test]
fn col_heights_after_one_player_win() {
    let mut sb = BaccScoreboard::new();
    sb.update(&player_win());
    assert_eq!(sb.col_heights()[0], 1);
    for &h in &sb.col_heights()[1..] {
        assert_eq!(h, 0);
    }
}

#[test]
fn col_heights_exposes_five_entries() {
    let sb = BaccScoreboard::new();
    assert_eq!(sb.col_heights().len(), 5);
}

#[test]
fn col_heights_tracks_column_transitions() {
    let mut sb = BaccScoreboard::new();
    sb.update(&player_win());
    sb.update(&player_win());
    sb.update(&banker_win());
    assert_eq!(sb.col_heights()[0], 1);
    assert_eq!(sb.col_heights()[1], 2);
}

#[test]
fn scoreboard_roundtrip_through_encode_decode() {
    let mut played = BaccScoreboard::new();
    for round in &twelve_rounds() {
        played.update(round);
    }
    let reconstructed = BaccScoreboard::decode(played.encode().as_str());
    assert_eq!(played.encode(), reconstructed.encode());
    assert_eq!(played.big_road(), reconstructed.big_road());
    for i in 0..3 {
        assert_eq!(played.derived_road(i), reconstructed.derived_road(i));
    }
    assert_eq!(played.col_heights(), reconstructed.col_heights());
}
