//! The road registers as a function of the bead words played so far.
//!
//! Every register of the scoreboard other than the bead plate is determined
//! by the sequence of bead words: [`replay`] folds [`step`] over it. This
//! module states that fold and proves the shape facts that keep the registers
//! within their fixed capacities.

use vstd::prelude::*;

verus! {

/// The big road, the five most recent column heights and the three derived
/// roads (Big Eye Boy, Small Road, Cockroach Pig), as plain sequences.
pub struct Roads {
    pub big_road: Seq<u8>,
    pub heights: Seq<u8>,
    pub derived: Seq<Seq<u8>>,
}

/// Registers before the first round.
pub open spec fn empty_roads() -> Roads {
    Roads {
        big_road: Seq::empty(),
        heights: seq![0u8, 0u8, 0u8, 0u8, 0u8],
        derived: seq![Seq::<u8>::empty(), Seq::<u8>::empty(), Seq::<u8>::empty()],
    }
}

/// Big-endian 16-bit words of `bytes`; a trailing odd byte is ignored.
pub open spec fn words(bytes: Seq<u8>) -> Seq<u16> {
    Seq::new(bytes.len() / 2, |i: int| (bytes[2 * i] * 256 + bytes[2 * i + 1]) as u16)
}

/// A bead word records a tie when its two outcome bits are both set.
pub open spec fn tie_bead(bead: u16) -> bool {
    bead & 3 == 3
}

/// High byte of a bead word: the winner's hand value.
pub open spec fn bead_val(bead: u16) -> u8 {
    (bead / 256) as u8
}

/// Low byte of a bead word: outcome, pair and third-card flags.
pub open spec fn bead_out(bead: u16) -> u8 {
    (bead % 256) as u8
}

/// How one bead word changes the big road and the column heights.
///
/// Each big road column is a run of `(aux, flags)` byte pairs, one per row,
/// followed by its row count; `aux` holds the tie count in its high nibble and
/// the hand value in its low nibble. A tie bumps the tie count of the newest
/// row (saturating at 15), or opens a row-less placeholder column when the
/// road is empty. A win either fills the placeholder, extends the newest
/// column when it has the same outcome, or opens a new column.
pub open spec fn big_road_step(r: Roads, bead: u16) -> Roads {
    let val = bead_val(bead);
    let out = bead_out(bead);
    let b = r.big_road;
    let n = b.len() as int;
    let h = r.heights;
    if n == 0 {
        if tie_bead(bead) {
            Roads { big_road: seq![0x10u8, out, 0u8], heights: h, derived: r.derived }
        } else {
            Roads {
                big_road: seq![val, out, 1u8],
                heights: seq![1u8, 0u8, 0u8, 0u8, 0u8],
                derived: r.derived,
            }
        }
    } else if tie_bead(bead) {
        let t = b[n - 3];
        Roads {
            big_road: b.update(n - 3, if t < 0xF0 { (t + 0x10) as u8 } else { t }),
            heights: h,
            derived: r.derived,
        }
    } else if b[n - 2] & 3 == 3 {
        Roads {
            big_road: b.update(n - 3, b[n - 3] | val).update(n - 2, out).update(n - 1, 1u8),
            heights: h.update(0, 1u8),
            derived: r.derived,
        }
    } else if b[n - 2] & 3 == out & 3 {
        Roads {
            big_road: b.drop_last() + seq![val, out, (b[n - 1] + 1) as u8],
            heights: h.update(0, (h[0] + 1) as u8),
            derived: r.derived,
        }
    } else {
        Roads {
            big_road: b + seq![val, out, 1u8],
            heights: seq![1u8, h[0], h[1], h[2], h[3]],
            derived: r.derived,
        }
    }
}

/// The icon that derived road `i` (1 = Big Eye Boy, 2 = Small Road,
/// 3 = Cockroach Pig) records for the current column heights, if any:
/// `1` red, `0` blue.
pub open spec fn derived_icon(h: Seq<u8>, i: int) -> Option<u8> {
    let has_ref_col = h[i + 1] > 0;
    let has_growing_col = h[i] > 0 && h[0] > 1;
    if !(has_ref_col || has_growing_col) {
        None
    } else if h[0] == 1 {
        Some(if h[i] == h[i + 1] { 1u8 } else { 0u8 })
    } else {
        Some(if h[0] != h[i] + 1 { 1u8 } else { 0u8 })
    }
}

/// Appends `icon` to a run-length register: bits 7-1 of each byte are a run
/// length, bit 0 the icon. A repeated icon lengthens the newest run.
pub open spec fn push_icon(road: Seq<u8>, icon: u8) -> Seq<u8> {
    if road.len() == 0 {
        seq![2u8 | icon]
    } else if road.last() & 1 == icon {
        road.update(road.len() - 1, (road.last() + 2) as u8)
    } else {
        road.push(2u8 | icon)
    }
}

/// Derived road register `k` after a decisive round.
pub open spec fn derived_after(h: Seq<u8>, road: Seq<u8>, k: int) -> Seq<u8> {
    match derived_icon(h, k + 1) {
        Some(icon) => push_icon(road, icon),
        None => road,
    }
}

/// How a decisive round changes the three derived roads.
pub open spec fn derived_step(r: Roads) -> Roads {
    Roads {
        big_road: r.big_road,
        heights: r.heights,
        derived: seq![
            derived_after(r.heights, r.derived[0], 0),
            derived_after(r.heights, r.derived[1], 1),
            derived_after(r.heights, r.derived[2], 2),
        ],
    }
}

/// How one bead word changes all registers: ties leave the derived roads alone.
pub open spec fn step(r: Roads, bead: u16) -> Roads {
    let r1 = big_road_step(r, bead);
    if tie_bead(bead) {
        r1
    } else {
        derived_step(r1)
    }
}

/// The registers after playing `beads` in order from an empty scoreboard.
pub open spec fn replay(beads: Seq<u16>) -> Roads
    decreases beads.len(),
{
    if beads.len() == 0 {
        empty_roads()
    } else {
        step(replay(beads.drop_last()), beads.last())
    }
}

/// The big road splits, from its newest end, into whole columns: a column of
/// `c > 0` rows takes `2c + 1` bytes; a row-less placeholder column (count 0)
/// only ever stands alone.
pub open spec fn laid_out(b: Seq<u8>) -> bool
    decreases b.len(),
{
    if b.len() == 0 {
        true
    } else if b.last() == 0 {
        b.len() == 3
    } else if b.len() < 2 * b.last() + 1 {
        false
    } else {
        laid_out(b.take(b.len() - 2 * b.last() - 1))
    }
}

/// Row counts of the big road columns, newest first.
pub open spec fn column_counts(b: Seq<u8>) -> Seq<u8>
    decreases b.len(),
{
    if b.len() == 0 {
        Seq::empty()
    } else if b.last() == 0 || b.len() < 2 * b.last() + 1 {
        seq![b.last()]
    } else {
        seq![b.last()] + column_counts(b.take(b.len() - 2 * b.last() - 1))
    }
}

/// Row count of the `k`-th newest column, `0` when there is none.
pub open spec fn count_at(b: Seq<u8>, k: int) -> u8 {
    if k < column_counts(b).len() {
        column_counts(b)[k]
    } else {
        0
    }
}

/// Shape facts about the registers after `n` rounds.
pub open spec fn roads_ok(r: Roads, n: int) -> bool {
    &&& r.heights.len() == 5
    &&& r.derived.len() == 3
    &&& r.big_road.len() <= 3 * n
    &&& laid_out(r.big_road)
    &&& r.big_road.len() > 0 ==> {
        &&& r.big_road.len() >= 3
        &&& r.big_road.last() <= n
        &&& (r.big_road[r.big_road.len() - 2] & 3 == 3 <==> r.big_road.last() == 0)
    }
    &&& forall|k: int| 0 <= k < 5 ==> #[trigger] r.heights[k] == count_at(r.big_road, k)
    &&& forall|k: int| 0 <= k < 5 ==> #[trigger] r.heights[k] <= n
    &&& forall|k: int| 0 <= k < 3 ==> (#[trigger] r.derived[k]).len() <= n
    &&& forall|k: int, j: int|
        0 <= k < 3 && 0 <= j < r.derived[k].len() ==> #[trigger] r.derived[k][j] <= 2 * n + 1
}


proof fn lemma_bead_bits(bead: u16)
    ensures
        tie_bead(bead) <==> bead_out(bead) & 3 == 3,
{
    assert((bead & 3 == 3) <==> (((bead % 256) as u8) & 3 == 3)) by (bit_vector);
}

proof fn lemma_icon_byte(icon: u8)
    requires
        icon <= 1,
    ensures
        2u8 | icon <= 3,
        (2u8 | icon) & 1 == icon,
{
    assert(icon <= 1 ==> (2u8 | icon) <= 3 && (2u8 | icon) & 1 == icon) by (bit_vector);
}

/// A big road whose newest column keeps its count byte and whose older
/// columns are untouched has the same layout and column counts.
proof fn lemma_same_columns(b: Seq<u8>, b1: Seq<u8>)
    requires
        b.len() == b1.len(),
        b.len() > 0,
        b.last() == b1.last(),
        b.last() > 0,
        b.len() >= 2 * b.last() + 1,
        b1.take(b.len() - 2 * b.last() - 1) == b.take(b.len() - 2 * b.last() - 1),
    ensures
        laid_out(b1) == laid_out(b),
        column_counts(b1) == column_counts(b),
{
}

proof fn lemma_big_road_step_ok(r: Roads, bead: u16, n: int)
    requires
        roads_ok(r, n),
        0 <= n < 120,
    ensures
        roads_ok(big_road_step(r, bead), n + 1),
        big_road_step(r, bead).derived == r.derived,
{
    let r1 = big_road_step(r, bead);
    let b = r.big_road;
    let b1 = r1.big_road;
    let h = r.heights;
    let h1 = r1.heights;
    let nn = b.len() as int;
    let val = bead_val(bead);
    let out = bead_out(bead);
    lemma_bead_bits(bead);
    reveal_with_fuel(column_counts, 2);
    reveal_with_fuel(laid_out, 2);
    if nn == 0 {
        assert(column_counts(b) =~= Seq::<u8>::empty());
        if tie_bead(bead) {
            assert(column_counts(b1) =~= seq![0u8]);
        } else {
            assert(b1.take(0) =~= Seq::<u8>::empty());
            assert(column_counts(b1) =~= seq![1u8]);
        }
        assert forall|k: int| 0 <= k < 5 implies #[trigger] h1[k] == count_at(b1, k) by {
            assert(count_at(b, k) == 0);
        }
    } else if tie_bead(bead) {
        let c = b.last();
        if c > 0 {
            assert(b1.take(nn - 2 * c - 1) =~= b.take(nn - 2 * c - 1));
            lemma_same_columns(b, b1);
        }
        assert forall|k: int| 0 <= k < 5 implies #[trigger] h1[k] == count_at(b1, k) by {
            assert(h[k] == count_at(b, k));
        }
    } else if b[nn - 2] & 3 == 3 {
        assert(nn == 3);
        assert(b1.take(0) =~= Seq::<u8>::empty());
        assert(column_counts(b) =~= seq![0u8]);
        assert(column_counts(b1) =~= seq![1u8]);
        assert forall|k: int| 0 <= k < 5 implies #[trigger] h1[k] == count_at(b1, k) by {
            assert(h[k] == count_at(b, k));
        }
    } else if b[nn - 2] & 3 == out & 3 {
        let c = b.last();
        assert(c > 0);
        assert(b1.take(nn - 2 * c - 1) =~= b.take(nn - 2 * c - 1));
        assert(b1.last() == c + 1);
        assert(b1.len() == nn + 2);
        assert(b1.take(b1.len() - 2 * b1.last() - 1) =~= b.take(nn - 2 * c - 1));
        assert(column_counts(b1) =~= column_counts(b).update(0, (c + 1) as u8));
        assert(b1[b1.len() - 2] == out);
        assert forall|k: int| 0 <= k < 5 implies #[trigger] h1[k] == count_at(b1, k) by {
            assert(h[k] == count_at(b, k));
        }
    } else {
        assert(b1.take(b1.len() - 2 * b1.last() - 1) =~= b);
        assert(column_counts(b1) =~= seq![1u8] + column_counts(b));
        assert(b1[b1.len() - 2] == out);
        assert forall|k: int| 0 <= k < 5 implies #[trigger] h1[k] == count_at(b1, k) by {
            if k > 0 {
                assert(h[k - 1] == count_at(b, k - 1));
            }
        }
    }
    assert forall|k: int| 0 <= k < 5 implies #[trigger] h1[k] <= n + 1 by {
        if k > 0 {
            assert(h[k - 1] <= n);
        }
        assert(h[k] <= n);
    }
    assert forall|k: int, j: int|
        0 <= k < 3 && 0 <= j < r1.derived[k].len() implies #[trigger] r1.derived[k][j] <= 2 * (n
        + 1) + 1 by {
        assert(r.derived[k][j] <= 2 * n + 1);
    }
}

proof fn lemma_push_icon_ok(road: Seq<u8>, icon: u8, n: int)
    requires
        icon <= 1,
        road.len() <= n,
        forall|j: int| 0 <= j < road.len() ==> #[trigger] road[j] <= 2 * n + 1,
        0 <= n < 120,
    ensures
        push_icon(road, icon).len() <= n + 1,
        forall|j: int|
            0 <= j < push_icon(road, icon).len() ==> #[trigger] push_icon(road, icon)[j] <= 2 * (n
                + 1) + 1,
{
    lemma_icon_byte(icon);
    let p = push_icon(road, icon);
    assert forall|j: int| 0 <= j < p.len() implies #[trigger] p[j] <= 2 * (n + 1) + 1 by {
        if j < road.len() {
            assert(road[j] <= 2 * n + 1);
        }
    }
}

proof fn lemma_derived_step_ok(r: Roads, n: int)
    requires
        roads_ok(r, n + 1),
        forall|k: int| 0 <= k < 3 ==> (#[trigger] r.derived[k]).len() <= n,
        forall|k: int, j: int|
            0 <= k < 3 && 0 <= j < r.derived[k].len() ==> #[trigger] r.derived[k][j] <= 2 * n + 1,
        0 <= n < 120,
    ensures
        roads_ok(derived_step(r), n + 1),
{
    let r1 = derived_step(r);
    assert forall|k: int| 0 <= k < 3 implies {
        &&& (#[trigger] r1.derived[k]).len() <= n + 1
        &&& forall|j: int| 0 <= j < r1.derived[k].len() ==> #[trigger] r1.derived[k][j] <= 2 * (n
            + 1) + 1
    } by {
        assert(r.derived[k].len() <= n);
        assert forall|j: int| 0 <= j < r.derived[k].len() implies #[trigger] r.derived[k][j] <= 2
            * n + 1 by {}
        match derived_icon(r.heights, k + 1) {
            Some(icon) => {
                lemma_push_icon_ok(r.derived[k], icon, n);
            },
            None => {},
        }
    }
}

/// One bead word keeps the registers in shape, with one more round counted.
pub proof fn lemma_step_ok(r: Roads, bead: u16, n: int)
    requires
        roads_ok(r, n),
        0 <= n < 120,
    ensures
        roads_ok(step(r, bead), n + 1),
{
    lemma_big_road_step_ok(r, bead, n);
    if !tie_bead(bead) {
        let r1 = big_road_step(r, bead);
        assert forall|k: int| 0 <= k < 3 implies (#[trigger] r1.derived[k]).len() <= n by {
            assert(r.derived[k].len() <= n);
        }
        assert forall|k: int, j: int|
            0 <= k < 3 && 0 <= j < r1.derived[k].len() implies #[trigger] r1.derived[k][j] <= 2 * n
            + 1 by {
            assert(r.derived[k][j] <= 2 * n + 1);
        }
        lemma_derived_step_ok(r1, n);
    }
}

/// A tie keeps the length of a started big road, the column heights and the
/// derived roads.
pub proof fn lemma_tie_keeps_columns(r: Roads, bead: u16, n: int)
    requires
        roads_ok(r, n),
        tie_bead(bead),
        r.big_road.len() > 0,
    ensures
        step(r, bead).big_road.len() == r.big_road.len(),
        step(r, bead).heights == r.heights,
        step(r, bead).derived == r.derived,
{
}

/// The registers after any run of at most 96 rounds are in shape.
pub proof fn lemma_replay_ok(beads: Seq<u16>)
    requires
        beads.len() < 120,
    ensures
        roads_ok(replay(beads), beads.len() as int),
    decreases beads.len(),
{
    if beads.len() == 0 {
        let r = empty_roads();
        assert forall|k: int| 0 <= k < 5 implies #[trigger] r.heights[k] == count_at(
            r.big_road,
            k,
        ) by {}
    } else {
        lemma_replay_ok(beads.drop_last());
        lemma_step_ok(replay(beads.drop_last()), beads.last(), beads.len() - 1);
    }
}

/// The outcome bits of the decisive (non-tie) bead words, oldest first.
pub open spec fn decisive(beads: Seq<u16>) -> Seq<u8>
    decreases beads.len(),
{
    if beads.len() == 0 {
        Seq::empty()
    } else if tie_bead(beads.last()) {
        decisive(beads.drop_last())
    } else {
        decisive(beads.drop_last()).push(bead_out(beads.last()) & 3)
    }
}

/// Lengths of the maximal runs of equal values in `s`, newest run first.
pub open spec fn streaks(s: Seq<u8>) -> Seq<int>
    decreases s.len(),
{
    if s.len() == 0 {
        Seq::empty()
    } else {
        let prev = streaks(s.drop_last());
        if s.len() > 1 && s[s.len() - 2] == s.last() {
            prev.update(0, prev[0] + 1)
        } else {
            seq![1int] + prev
        }
    }
}

/// The row counts that the big road should show after `beads`: one column
/// per streak of equal outcomes among the decisive rounds, newest first; a
/// row-less column while only ties have been played; nothing before the
/// first round.
pub open spec fn streak_counts(beads: Seq<u16>) -> Seq<int> {
    if decisive(beads).len() > 0 {
        streaks(decisive(beads))
    } else if beads.len() > 0 {
        seq![0int]
    } else {
        Seq::empty()
    }
}

/// The big road after `beads` has one column per streak, and its newest row
/// carries the newest decisive outcome.
pub open spec fn columns_follow_streaks(beads: Seq<u16>) -> bool {
    let b = replay(beads).big_road;
    let counts = column_counts(b);
    &&& (b.len() == 0 <==> beads.len() == 0)
    &&& counts.len() == streak_counts(beads).len()
    &&& forall|i: int|
        0 <= i < counts.len() ==> counts[i] as int == #[trigger] streak_counts(beads)[i]
    &&& decisive(beads).len() > 0 ==> b[b.len() - 2] & 3 == decisive(beads).last()
}

pub proof fn lemma_streaks_len(s: Seq<u8>)
    ensures
        s.len() > 0 ==> streaks(s).len() > 0,
        forall|i: int| 0 <= i < streaks(s).len() ==> #[trigger] streaks(s)[i] >= 1,
    decreases s.len(),
{
    if s.len() > 0 {
        let prev = streaks(s.drop_last());
        lemma_streaks_len(s.drop_last());
        assert forall|i: int| 0 <= i < streaks(s).len() implies #[trigger] streaks(s)[i] >= 1 by {
            if s.len() > 1 && s[s.len() - 2] == s.last() {
                assert(prev[i] >= 1);
            } else if i > 0 {
                assert(prev[i - 1] >= 1);
            }
        }
    }
}

/// Big road columns are the streaks of equal outcomes among the decisive
/// rounds; ties add no rows.
pub proof fn lemma_replay_streaks(beads: Seq<u16>)
    requires
        beads.len() < 120,
    ensures
        columns_follow_streaks(beads),
    decreases beads.len(),
{
    reveal_with_fuel(column_counts, 2);
    reveal_with_fuel(streaks, 2);
    if beads.len() > 0 {
        let prev = beads.drop_last();
        let bead = beads.last();
        lemma_replay_streaks(prev);
        lemma_replay_ok(prev);
        lemma_bead_bits(bead);
        let r = replay(prev);
        let b = r.big_road;
        let nn = b.len() as int;
        let b1 = replay(beads).big_road;
        assert(beads.drop_last() == prev);
        assert(replay(beads) == step(r, bead));
        assert(b1 == big_road_step(r, bead).big_road);
        let d = decisive(prev);
        lemma_streaks_len(d);
        if tie_bead(bead) {
            assert(decisive(beads) == d);
            if nn == 0 {
                assert(column_counts(b1) =~= seq![0u8]);
                assert(d.len() == 0);
            } else {
                let c = b.last();
                if c > 0 {
                    assert(b1.take(nn - 2 * c - 1) =~= b.take(nn - 2 * c - 1));
                    lemma_same_columns(b, b1);
                } else {
                    assert(nn == 3);
                    assert(column_counts(b1) =~= seq![0u8]);
                    assert(column_counts(b) =~= seq![0u8]);
                }
                assert(b1[nn - 2] == b[nn - 2]);
            }
        } else {
            let o = bead_out(bead) & 3;
            assert(decisive(beads) == d.push(o));
            let d1 = d.push(o);
            assert(d1.drop_last() =~= d);
            if nn == 0 {
                assert(b1.take(0) =~= Seq::<u8>::empty());
                assert(column_counts(b1) =~= seq![1u8]);
                assert(d.len() == 0);
                assert(streaks(d1) =~= seq![1int]);
            } else if b[nn - 2] & 3 == 3 {
                assert(nn == 3);
                assert(b1.take(0) =~= Seq::<u8>::empty());
                assert(column_counts(b1) =~= seq![1u8]);
                assert(column_counts(b) =~= seq![0u8]);
                assert(streak_counts(prev)[0] == 0);
                assert(d.len() == 0);
                assert(streaks(d1) =~= seq![1int]);
            } else if b[nn - 2] & 3 == bead_out(bead) & 3 {
                let c = b.last();
                assert(c > 0);
                assert(column_counts(b)[0] == c);
                assert(streak_counts(prev)[0] == c);
                assert(d.len() > 0);
                assert(d.last() == o);
                assert(d1[d1.len() - 2] == d.last());
                assert(b1.take(b1.len() - 2 * b1.last() - 1) =~= b.take(nn - 2 * c - 1));
                assert(column_counts(b1) =~= column_counts(b).update(0, (c + 1) as u8));
                assert(streaks(d1) == streaks(d).update(0, streaks(d)[0] + 1));
                assert(b1[b1.len() - 2] == bead_out(bead));
            } else {
                assert(b1.take(b1.len() - 2 * b1.last() - 1) =~= b);
                assert(column_counts(b1) =~= seq![1u8] + column_counts(b));
                assert(column_counts(b)[0] == b.last());
                assert(streak_counts(prev)[0] == b.last());
                assert(d.len() > 0);
                assert(d1[d1.len() - 2] == d.last());
                assert(streaks(d1) == seq![1int] + streaks(d));
                assert(b1[b1.len() - 2] == bead_out(bead));
            }
        }
    }
}

} // verus!
