use bacc_core::{BaccHand, BaccRound, BaccScoreboard, Rank};

fn hand(cards: &[Rank]) -> BaccHand {
    let mut h = BaccHand::new();
    for c in cards {
        h.take(c);
    }
    h
}

fn round(player: &[Rank], banker: &[Rank]) -> BaccRound {
    BaccRound::new(hand(player), hand(banker), false, None)
}

fn player_win() -> BaccRound {
    round(&[Rank::Eight, Rank::Ace], &[Rank::Deuce, Rank::Trey])
}

fn banker_win() -> BaccRound {
    round(&[Rank::Deuce, Rank::Trey], &[Rank::Eight, Rank::Ace])
}

fn tie() -> BaccRound {
    round(&[Rank::Four, Rank::Five], &[Rank::Four, Rank::Five])
}

/// Row counts of the big road columns, newest first, read from its bytes.
fn column_counts(big_road: &[u8]) -> Vec<u8> {
    let mut counts = Vec::new();
    let mut pos = big_road.len();
    while pos > 0 {
        let c = big_road[pos - 1];
        counts.push(c);
        if c == 0 {
            break;
        }
        pos -= 1 + 2 * c as usize;
    }
    counts
}

fn pattern_board(pattern: &[u8]) -> BaccScoreboard {
    let mut sb = BaccScoreboard::new();
    for &p in pattern {
        match p {
            1 => sb.update(&player_win()),
            2 => sb.update(&banker_win()),
            _ => sb.update(&tie()),
        }
    }
    sb
}

#[test]
fn round_outcome_reports_hands() {
    let r = round(&[Rank::Eight, Rank::Eight], &[Rank::Ace, Rank::Deuce, Rank::Trey]);
    let o = r.outcome();
    assert_eq!(o.player_value(), 6);
    assert_eq!(o.banker_value(), 6);
    assert_eq!(o.marker(), 3);
    assert_eq!(o.pairs(), 0b01);
    assert_eq!(o.thirds(), 0b10);
    let r = BaccRound::new(hand(&[Rank::Nine]), hand(&[Rank::King, Rank::King]), true, Some(7));
    let o = r.outcome();
    assert_eq!((o.marker(), o.pairs(), o.thirds()), (1, 0b10, 0));
    assert!(r.forced_third());
    assert_eq!(r.cut_card(), Some(7));
}

#[test]
fn hand_value_is_pip_sum_mod_ten() {
    let h = hand(&[Rank::Seven, Rank::Eight, Rank::Nine]);
    assert_eq!(h.value(), 4);
    assert!(h.has_third());
    assert!(!h.is_pair());
    assert_eq!(h.cards(), &[Rank::Seven, Rank::Eight, Rank::Nine]);
    assert_eq!(BaccHand::default().value(), 0);
}

#[test]
fn bead_word_layout_of_tie_with_pair_and_third() {
    let mut sb = BaccScoreboard::default();
    sb.update(&round(&[Rank::Eight, Rank::Eight], &[Rank::Ace, Rank::Deuce, Rank::Trey]));
    // value 6, thirds 10, pairs 01, outcome 11
    assert_eq!(sb.encode().as_str(), "0627");
}

#[test]
fn bead_word_of_banker_win_carries_banker_value() {
    let mut sb = BaccScoreboard::new();
    sb.update(&round(&[Rank::Ace, Rank::Ace], &[Rank::Seven, Rank::Queen, Rank::Ace]));
    // player 2, banker 8: value 8, thirds 10, pairs 01, outcome 10
    assert_eq!(sb.encode().as_str(), "0826");
}

#[test]
fn decode_encode_rebuilds_every_register() {
    for pattern in [
        &[3u8, 3, 1, 1, 2, 3, 2, 2, 2, 1, 3, 1][..],
        &[1, 2, 1, 2, 1, 1, 1, 2, 2, 1, 2, 2, 2, 2, 1][..],
        &[2; 20][..],
    ] {
        let sb = pattern_board(pattern);
        let back = BaccScoreboard::decode(sb.encode().as_str());
        assert_eq!(back.encode(), sb.encode());
        assert_eq!(back.big_road(), sb.big_road());
        assert_eq!(back.col_heights(), sb.col_heights());
        for i in 0..3 {
            assert_eq!(back.derived_road(i), sb.derived_road(i));
        }
    }
}

#[test]
fn apply_hex_diff_matches_decode_on_even_length_hex() {
    let server = pattern_board(&[1, 1, 2, 3, 2, 1, 1, 1, 2]);
    let server_hex = server.encode();
    for client_pattern in [&[][..], &[1u8, 1][..], &[1, 1, 2, 3, 2][..], &[2, 2][..]] {
        let mut sb = pattern_board(client_pattern);
        sb.apply_hex_diff(server_hex.as_str());
        let decoded = BaccScoreboard::decode(server_hex.as_str());
        assert_eq!(sb.encode(), decoded.encode());
        assert_eq!(sb.big_road(), decoded.big_road());
        assert_eq!(sb.col_heights(), decoded.col_heights());
        for i in 0..3 {
            assert_eq!(sb.derived_road(i), decoded.derived_road(i));
        }
    }
}

#[test]
fn apply_hex_diff_odd_length_suffix_keeps_the_prefix() {
    let mut sb = pattern_board(&[1]);
    assert_eq!(sb.encode().as_str(), "0901");
    sb.apply_hex_diff("09010");
    // The lone trailing digit makes no whole bead word.
    assert_eq!(sb.encode().as_str(), "0901");
    // Decoding the same text pairs digits from the end instead.
    assert_eq!(BaccScoreboard::decode("09010").encode().as_str(), "0090");
}

#[test]
fn decode_drops_a_trailing_odd_byte() {
    let sb = BaccScoreboard::decode("0901090");
    assert_eq!(sb.encode().as_str(), "00901090");
    let sb = BaccScoreboard::decode("090101");
    assert_eq!(sb.encode().as_str(), "0901");
}

#[test]
fn col_heights_are_newest_column_counts() {
    for pattern in [
        &[1u8, 1, 2, 2, 2, 1, 3, 2, 1, 1, 1, 1][..],
        &[3, 3, 2, 1, 2, 1][..],
        &[3][..],
        &[][..],
    ] {
        let sb = pattern_board(pattern);
        let counts = column_counts(sb.big_road());
        for k in 0..5 {
            let expected = counts.get(k).copied().unwrap_or(0);
            assert_eq!(sb.col_heights()[k], expected);
        }
    }
}

#[test]
fn tie_marker_exactly_when_newest_column_is_rowless() {
    for pattern in [&[3u8][..], &[3, 3][..], &[3, 1][..], &[1, 3][..], &[2, 2, 3][..]] {
        let sb = pattern_board(pattern);
        assert_eq!(sb.last_big_road_marker() == 3, sb.col_heights()[0] == 0);
    }
}

#[test]
fn ties_after_shoe_start_tie_fill_the_placeholder() {
    let sb = pattern_board(&[3, 3, 1]);
    // 0x10 + one more tie = 0x20, hand value 9 or'ed in, count 1.
    assert_eq!(sb.big_road(), &[0x29, 0x01, 0x01]);
    assert_eq!(sb.col_heights(), &[1, 0, 0, 0, 0]);
}

#[test]
fn derived_roads_lengthen_runs_of_one_icon() {
    let sb = pattern_board(&[1, 2, 1, 2, 1, 2]);
    // Big Eye Boy starts at the third column: all columns of height 1.
    assert_eq!(sb.derived_road(0), &[0x09]);
    let grid = sb.simulate_derived_road(0);
    assert_eq!(grid.len(), 1);
    assert_eq!(grid[0], [(2, 0), (2, 0), (2, 0), (2, 0), (0, 0), (0, 0)]);
}

#[test]
fn clear_empties_every_register() {
    let mut sb = pattern_board(&[1, 1, 2, 2, 1, 2, 2, 2, 1]);
    sb.clear();
    assert_eq!(sb.encode().as_str(), "");
    assert!(sb.big_road().is_empty());
    assert_eq!(sb.col_heights(), &[0u8; 5]);
    for i in 0..3 {
        assert!(sb.derived_road(i).is_empty());
    }
    assert_eq!(sb.simulate_big_road().len(), 0);
    assert_eq!(sb.simulate_bead_plate(16).len(), 0);
}

#[test]
fn big_road_columns_are_outcome_streaks() {
    // Decisive outcomes: P P B B B P, with ties in between.
    let sb = pattern_board(&[3, 1, 1, 3, 2, 2, 3, 2, 1]);
    assert_eq!(column_counts(sb.big_road()), vec![1, 3, 2]);
    let sb = pattern_board(&[3, 3, 3]);
    assert_eq!(column_counts(sb.big_road()), vec![0]);
}

#[test]
fn tie_round_keeps_columns_and_derived_roads() {
    let mut sb = pattern_board(&[1, 1, 2, 1, 2, 2, 1]);
    let heights = sb.col_heights().to_vec();
    let len = sb.big_road().len();
    let derived: Vec<Vec<u8>> = (0..3).map(|i| sb.derived_road(i).to_vec()).collect();
    sb.update(&tie());
    assert_eq!(sb.col_heights(), heights.as_slice());
    assert_eq!(sb.big_road().len(), len);
    for i in 0..3 {
        assert_eq!(sb.derived_road(i), derived[i].as_slice());
    }
}
