//! Road grids: laying bead words, big road columns and derived runs out on a
//! six-row board, as a renderer shows them.

use vstd::prelude::*;
use arrayvec::ArrayVec;
use crate::bounded::{
    columns_16, columns_40, new_grid_16, new_grid_40, new_pairs_96, pairs_96, push_grid_16,
    push_grid_40, push_pairs_96, slice_pairs_96,
};
use crate::roads::laid_out;

verus! {

/// Conventional road height in rows (industry standard for all five baccarat roads).
pub const ROWS: usize = 6;

/// Maximum number of columns shown in a rendered road grid.
pub const MAX_COL_COUNT: usize = 40;

/// Maximum number of columns shown in a rendered bead plate grid (96 rounds
/// over six rows).
pub const MAX_BEAD_PLATE_COL_COUNT: usize = 16;

/// Maximum entries a single logical column can contribute to a
/// [`MAX_COL_COUNT`]-wide grid: [`ROWS`] cells going down, then its dragon
/// tail runs right across the remaining `MAX_COL_COUNT - 1` columns.
pub const MAX_COL_ENTRIES: usize = MAX_COL_COUNT + ROWS - 1;

/// An empty cell.
pub open spec fn blank() -> (u8, u8) {
    (0u8, 0u8)
}

/// A column of six empty cells.
pub open spec fn empty_column() -> Seq<(u8, u8)> {
    Seq::new(6, |r: int| blank())
}

/// The cells of each column of a grid.
pub open spec fn cells(g: Seq<[(u8, u8); 6]>) -> Seq<Seq<(u8, u8)>> {
    g.map_values(|c: [(u8, u8); 6]| c@)
}

/// The newest `min(cols, 16) * 6` bead words of a bead plate, oldest first,
/// each as `(flags byte, hand value byte)`.
pub open spec fn plate_window(bytes: Seq<u8>, cols: int) -> Seq<(u8, u8)> {
    let capacity = (if cols < 16 { cols } else { 16 }) * 6;
    let start = if bytes.len() < 2 * capacity { 0 } else { bytes.len() - 2 * capacity };
    Seq::new(
        ((bytes.len() - start) / 2) as nat,
        |i: int| (bytes[start + 2 * i + 1], bytes[start + 2 * i]),
    )
}

/// Entries laid out column by column, six to a column, empty cells after the
/// last entry.
pub open spec fn column_major(entries: Seq<(u8, u8)>) -> Seq<Seq<(u8, u8)>> {
    Seq::new(
        ((entries.len() + 5) / 6) as nat,
        |c: int|
            Seq::new(
                6,
                |r: int| if 6 * c + r < entries.len() { entries[6 * c + r] } else { blank() },
            ),
    )
}

fn empty_cells() -> (c: [(u8, u8); 6])
    ensures
        c@ == empty_column(),
{
    let c = [(0u8, 0u8), (0u8, 0u8), (0u8, 0u8), (0u8, 0u8), (0u8, 0u8), (0u8, 0u8)];
    assert(c@ =~= empty_column());
    c
}

proof fn lemma_column_major_push(s: Seq<(u8, u8)>, e: (u8, u8))
    ensures
        ({
            let g = column_major(s);
            let col = (s.len() / 6) as int;
            let row = (s.len() % 6) as int;
            let padded = if s.len() % 6 == 0 { g.push(empty_column()) } else { g };
            column_major(s.push(e)) == padded.update(col, padded[col].update(row, e))
        }),
{
    let g = column_major(s);
    let n = s.len() as int;
    let col = n / 6;
    let row = n % 6;
    let padded = if n % 6 == 0 { g.push(empty_column()) } else { g };
    let lhs = column_major(s.push(e));
    let rhs = padded.update(col, padded[col].update(row, e));
    assert(lhs.len() == rhs.len());
    assert forall|c: int| 0 <= c < lhs.len() implies #[trigger] lhs[c] =~= rhs[c] by {
        assert forall|r: int| 0 <= r < 6 implies #[trigger] lhs[c][r] == rhs[c][r] by {
            if c == col && r == row {
            } else if 6 * c + r < n {
                assert(c < g.len());
            } else {
                assert(6 * c + r > n);
            }
        }
    }
    assert(lhs =~= rhs);
}

/// Windows bead plate bytes to the last `cols * ROWS` entries (capped at 16
/// columns), returning them as `(bead_byte, aux_byte)` pairs in chronological
/// order (oldest first).
///
/// `bead_byte` = outcome/pair/third card flags (bits 7-0 of the bead word).
/// `aux_byte` = winner's hand value (bits 15-8 of the bead word).
pub fn decode_bead_plate(bytes: &[u8], cols: usize) -> (entries: ArrayVec<(u8, u8), 96>)
    ensures
        pairs_96(entries) == plate_window(bytes@, cols as int),
        pairs_96(entries).len() <= 96,
{
    let shown_cols = if cols < MAX_BEAD_PLATE_COL_COUNT { cols } else { MAX_BEAD_PLATE_COL_COUNT };
    let capacity: usize = shown_cols * ROWS;
    let start = bytes.len().saturating_sub(capacity * 2);
    let n = bytes.len();
    let count = (n - start) / 2;
    let mut entries = new_pairs_96();
    let mut i: usize = 0;
    while i < count
        invariant
            n == bytes@.len(),
            start <= bytes@.len(),
            count == (bytes@.len() - start) / 2,
            start == (if bytes@.len() < 2 * capacity { 0 } else { bytes@.len() - 2 * capacity }),
            capacity == (if cols < 16 { cols as int } else { 16 }) * 6,
            i <= count,
            pairs_96(entries) == plate_window(bytes@, cols as int).take(i as int),
        decreases count - i,
    {
        assert(start + 2 * i + 2 <= n);
        push_pairs_96(&mut entries, (bytes[start + 2 * i + 1], bytes[start + 2 * i]));
        i = i + 1;
        assert(pairs_96(entries) =~= plate_window(bytes@, cols as int).take(i as int));
    }
    assert(pairs_96(entries) =~= plate_window(bytes@, cols as int));
    entries
}

/// Lays bead entries out column by column, six rows to a column.
pub fn bead_plate_grid(entries: &ArrayVec<(u8, u8), 96>) -> (grid: ArrayVec<[(u8, u8); 6], 16>)
    requires
        pairs_96(*entries).len() <= 96,
    ensures
        cells(columns_16(grid)) == column_major(pairs_96(*entries)),
        columns_16(grid).len() <= 16,
{
    let entries = slice_pairs_96(entries);
    let mut cols: Vec<[(u8, u8); 6]> = Vec::new();
    let mut i: usize = 0;
    while i < entries.len()
        invariant
            i <= entries@.len() <= 96,
            cols@.len() == (i + 5) / 6,
            cells(cols@) == column_major(entries@.take(i as int)),
        decreases entries@.len() - i,
    {
        let col = i / ROWS;
        let row = i % ROWS;
        if cols.len() <= col {
            cols.push(empty_cells());
        }
        let mut c = cols[col];
        c[row] = entries[i];
        cols.set(col, c);
        i = i + 1;
        proof {
            lemma_column_major_push(entries@.take(i - 1), entries@[i - 1]);
            assert(entries@.take(i - 1).push(entries@[i - 1]) =~= entries@.take(i as int));
            assert(cells(cols@) =~= column_major(entries@.take(i as int)));
        }
    }
    assert(entries@.take(i as int) =~= entries@);
    let mut grid = new_grid_16();
    let mut j: usize = 0;
    while j < cols.len()
        invariant
            j <= cols@.len() <= 16,
            columns_16(grid) == cols@.take(j as int),
        decreases cols@.len() - j,
    {
        push_grid_16(&mut grid, cols[j]);
        j = j + 1;
        assert(columns_16(grid) =~= cols@.take(j as int));
    }
    assert(cols@.take(j as int) =~= cols@);
    grid
}

/// The number of rows a column of `n` entries shows: at most 45, the most a
/// column can fill in a 40-column grid (six down, then 39 along the bottom).
pub open spec fn shown_rows(n: int) -> int {
    if n < 45 {
        n
    } else {
        45
    }
}

/// The runs of a derived road register, newest 40 only, each expanded to
/// `(icon, 0)` cells: icon `2` red, `1` blue.
pub open spec fn derived_runs(bytes: Seq<u8>) -> Seq<Seq<(u8, u8)>> {
    let skip = if bytes.len() < 40 { 0 } else { bytes.len() - 40 };
    Seq::new(
        (bytes.len() - skip) as nat,
        |i: int|
            Seq::new(
                shown_rows((bytes[skip + i] >> 1) as int) as nat,
                |j: int| (((bytes[skip + i] & 1) + 1) as u8, 0u8),
            ),
    )
}

/// The columns of a big road, newest first, read back from byte `pos` for at
/// most `budget` columns; `None` when a row count claims more bytes than lie
/// before it. Rows beyond the 45 that can show are dropped from the newest end.
pub open spec fn parse_columns(b: Seq<u8>, pos: int, budget: int) -> Option<Seq<Seq<(u8, u8)>>>
    decreases pos,
{
    if pos <= 0 || budget <= 0 || pos > b.len() {
        Some(Seq::empty())
    } else {
        let rc = b[pos - 1] as int;
        if rc == 0 {
            Some(Seq::empty())
        } else {
            let take = shown_rows(rc);
            let p2 = if pos - 1 - 2 * (rc - take) < 0 { 0 } else { pos - 1 - 2 * (rc - take) };
            if p2 < 2 * take {
                None
            } else {
                let s = p2 - 2 * take;
                let rows = Seq::new(take as nat, |j: int| (b[s + 2 * j + 1], b[s + 2 * j]));
                match parse_columns(b, s, budget - 1) {
                    Some(rest) => Some(seq![rows] + rest),
                    None => None,
                }
            }
        }
    }
}

/// The big road columns that a grid shows, oldest first.
pub open spec fn big_road_columns(b: Seq<u8>) -> Seq<Seq<(u8, u8)>> {
    parse_columns(b, b.len() as int, 40).unwrap().reverse()
}

/// The big road grid over the rows `b`: its newest columns laid out six rows
/// high, the tail rules comparing outcome bits.
pub open spec fn big_road_grid(b: Seq<u8>) -> Seq<Seq<(u8, u8)>> {
    lay_out(big_road_columns(b), ColorKey::OutcomeBits).0
}

/// A column-major `Vec` of columns holds `cols`.
pub open spec fn holds_columns(v: Seq<Vec<(u8, u8)>>, cols: Seq<Seq<(u8, u8)>>) -> bool {
    &&& v.len() == cols.len()
    &&& forall|i: int| 0 <= i < v.len() ==> #[trigger] v[i]@ == cols[i]
}

/// Expands derived road RLE bytes into at most 40 runs.
///
/// Each source byte encodes one run: bits 7-1 = run length, bit 0 = icon (1 = red, 0 = blue).
/// Runs are expanded to `(icon, 0)` pairs where `icon` is `2` (red) or `1` (blue).
pub fn decode_derived_runs(bytes: &[u8]) -> (columns: Vec<Vec<(u8, u8)>>)
    ensures
        holds_columns(columns@, derived_runs(bytes@)),
        columns@.len() <= 40,
{
    let skip = bytes.len().saturating_sub(MAX_COL_COUNT);
    let mut columns: Vec<Vec<(u8, u8)>> = Vec::new();
    let mut i: usize = skip;
    while i < bytes.len()
        invariant
            skip == (if bytes@.len() < 40 { 0 } else { bytes@.len() - 40 }),
            skip <= i <= bytes@.len(),
            holds_columns(columns@, derived_runs(bytes@).take(i - skip)),
        decreases bytes@.len() - i,
    {
        let byte = bytes[i];
        assert(byte & 1 <= 1) by (bit_vector);
        let icon: u8 = (byte & 1) + 1;
        let run_len = (byte >> 1) as usize;
        let take = if run_len < MAX_COL_ENTRIES { run_len } else { MAX_COL_ENTRIES };
        let mut run: Vec<(u8, u8)> = Vec::new();
        let mut k: usize = 0;
        while k < take
            invariant
                k <= take,
                take == shown_rows((byte >> 1) as int),
                run@ == Seq::new(k as nat, |j: int| (icon, 0u8)),
            decreases take - k,
        {
            run.push((icon, 0u8));
            k = k + 1;
            assert(run@ =~= Seq::new(k as nat, |j: int| (icon, 0u8)));
        }
        assert(run@ =~= derived_runs(bytes@)[i - skip]);
        columns.push(run);
        i = i + 1;
        assert(holds_columns(columns@, derived_runs(bytes@).take(i - skip)));
    }
    assert(derived_runs(bytes@).take(i - skip) =~= derived_runs(bytes@));
    columns
}

/// Parses big road bytes (oldest column first) into at most 40 columns.
///
/// Reads the byte buffer right-to-left. Columns beyond 45 rows are truncated
/// to their oldest 45 rows, as the excess tail falls outside the display
/// window.
pub fn decode_big_road_cols(bytes: &[u8]) -> (columns: Vec<Vec<(u8, u8)>>)
    requires
        parse_columns(bytes@, bytes@.len() as int, 40) is Some,
    ensures
        holds_columns(columns@, big_road_columns(bytes@)),
        columns@.len() <= 40,
{
    let ghost all = parse_columns(bytes@, bytes@.len() as int, 40).unwrap();
    let n = bytes.len();
    let mut newest_first: Vec<Vec<(u8, u8)>> = Vec::new();
    let mut pos = n;
    let mut done = false;
    while !done && pos > 0 && newest_first.len() < MAX_COL_COUNT
        invariant
            n == bytes@.len(),
            pos <= n,
            newest_first@.len() <= 40,
            parse_columns(bytes@, pos as int, 40 - newest_first@.len()) is Some,
            all == parse_columns(bytes@, bytes@.len() as int, 40)->Some_0,
            done ==> parse_columns(bytes@, pos as int, 40 - newest_first@.len())->Some_0.len() == 0,
            ({
                let rest = parse_columns(bytes@, pos as int, 40 - newest_first@.len())->Some_0;
                &&& newest_first@.len() + rest.len() == all.len()
                &&& forall|i: int|
                    0 <= i < newest_first@.len() ==> #[trigger] newest_first@[i]@ == all[i]
                &&& forall|i: int|
                    0 <= i < rest.len() ==> #[trigger] rest[i] == all[newest_first@.len() + i]
            }),
        decreases pos, if done { 0int } else { 1int },
    {
        let ghost budget = 40 - newest_first@.len();
        let ghost before = parse_columns(bytes@, pos as int, budget)->Some_0;
        let row_count = bytes[pos - 1] as usize;
        if row_count == 0 {
            done = true;
        } else {
            let skip_count = row_count.saturating_sub(MAX_COL_ENTRIES);
            let p2 = (pos - 1).saturating_sub(skip_count * 2);
            let take = if row_count < MAX_COL_ENTRIES { row_count } else { MAX_COL_ENTRIES };
            assert(p2 >= 2 * take);
            let start = p2 - 2 * take;
            let mut rows: Vec<(u8, u8)> = Vec::new();
            let mut k: usize = 0;
            while k < take
                invariant
                    n == bytes@.len(),
                    k <= take,
                    start + 2 * take <= n,
                    rows@ == Seq::new(
                        k as nat,
                        |j: int| (bytes@[start + 2 * j + 1], bytes@[start + 2 * j]),
                    ),
                decreases take - k,
            {
                rows.push((bytes[start + 2 * k + 1], bytes[start + 2 * k]));
                k = k + 1;
                assert(rows@ =~= Seq::new(
                    k as nat,
                    |j: int| (bytes@[start + 2 * j + 1], bytes@[start + 2 * j]),
                ));
            }
            let ghost prev_len = newest_first@.len();
            newest_first.push(rows);
            proof {
                let rest = parse_columns(bytes@, start as int, budget - 1)->Some_0;
                assert(before =~= seq![rows@] + rest);
                assert(before.len() > 0);
                assert(before[0] == rows@);
                assert(all[prev_len + 0int] == before[0]);
                assert(newest_first@[prev_len as int]@ == all[prev_len as int]);
                assert(forall|i: int| 0 <= i < rest.len() ==> #[trigger] rest[i] == before[i + 1]);
            }
            pos = start;
        }
    }
    let mut columns: Vec<Vec<(u8, u8)>> = Vec::new();
    let ghost m = newest_first@.len();
    while newest_first.len() > 0
        invariant
            newest_first@.len() <= m,
            m == all.len(),
            forall|i: int| 0 <= i < newest_first@.len() ==> #[trigger] newest_first@[i]@ == all[i],
            holds_columns(columns@, all.reverse().take(m - newest_first@.len())),
        decreases newest_first@.len(),
    {
        let col = newest_first.pop().unwrap();
        columns.push(col);
        assert(holds_columns(columns@, all.reverse().take(m - newest_first@.len())));
    }
    assert(all.reverse().take(m as int) =~= all.reverse());
    columns
}

/// Which part of a cell's first byte decides its colour when tails are laid
/// beside each other.
#[derive(Clone, Copy, Debug, PartialEq, Eq, Structural)]
pub enum ColorKey {
    /// The outcome bits (`b & 0x03`), for the big road.
    OutcomeBits,
    /// The whole byte, for the derived roads.
    WholeByte,
}

/// The colour a byte shows under `key`.
pub open spec fn colour(key: ColorKey, b: u8) -> u8 {
    match key {
        ColorKey::OutcomeBits => b & 3,
        ColorKey::WholeByte => b,
    }
}

/// The colour of a cell's first byte.
pub fn marker_of(key: ColorKey, b: u8) -> (c: u8)
    ensures
        c == colour(key, b),
{
    match key {
        ColorKey::OutcomeBits => b & 0x03,
        ColorKey::WholeByte => b,
    }
}

/// The grid being filled, the first column a new streak may start in, and
/// the cursor of the streak being placed.
pub struct Cursor {
    pub grid: Seq<Seq<(u8, u8)>>,
    pub next_col: int,
    pub col: int,
    pub row: int,
    pub halted: bool,
}

/// `g` with empty columns appended until column `c` exists.
pub open spec fn pad_to(g: Seq<Seq<(u8, u8)>>, c: int) -> Seq<Seq<(u8, u8)>> {
    if c < g.len() {
        g
    } else {
        g + Seq::new((c + 1 - g.len()) as nat, |i: int| empty_column())
    }
}

/// Places one entry of a streak. The cursor goes down while the cell below
/// is free and the cell diagonally below-left does not show the same colour;
/// otherwise it turns right (the dragon tail). An entry that would land past
/// the 40th column stops the streak.
pub open spec fn place(cur: Cursor, e: (u8, u8), key: ColorKey) -> Cursor {
    if cur.halted {
        cur
    } else if cur.col >= 40 {
        Cursor { halted: true, ..cur }
    } else {
        let col = cur.col;
        let row = cur.row;
        let g = pad_to(cur.grid, col);
        let has_row_below = row + 1 < 6;
        let color_conflict = has_row_below && col > 0 && colour(key, g[col - 1][row + 1].0)
            == colour(key, e.0);
        let space_below = has_row_below && g[col][row + 1].0 == 0 && !color_conflict;
        let grid = g.update(col, g[col].update(row, e));
        let next_col = if row == 0 && cur.next_col < col + 1 { col + 1 } else { cur.next_col };
        if space_below {
            Cursor { grid, next_col, col, row: row + 1, halted: false }
        } else {
            Cursor { grid, next_col, col: col + 1, row, halted: false }
        }
    }
}

/// Places the entries of a streak in order.
pub open spec fn place_all(cur: Cursor, rows: Seq<(u8, u8)>, key: ColorKey) -> Cursor
    decreases rows.len(),
{
    if rows.len() == 0 {
        cur
    } else {
        place(place_all(cur, rows.drop_last(), key), rows.last(), key)
    }
}

/// A streak starts at the top of column `next_col`.
pub open spec fn start_streak(g: Seq<Seq<(u8, u8)>>, next_col: int) -> Cursor {
    Cursor {
        grid: pad_to(g, next_col),
        next_col: next_col + 1,
        col: next_col,
        row: 0,
        halted: false,
    }
}

/// The grid after laying out `columns` streak by streak, and the column the
/// next streak would start in. Streaks that would start past the 40th column
/// are not shown.
pub open spec fn lay_out(columns: Seq<Seq<(u8, u8)>>, key: ColorKey) -> (Seq<Seq<(u8, u8)>>, int)
    decreases columns.len(),
{
    if columns.len() == 0 {
        (Seq::empty(), 0)
    } else {
        let prev = lay_out(columns.drop_last(), key);
        if prev.1 >= 40 {
            prev
        } else {
            let c = place_all(start_streak(prev.0, prev.1), columns.last(), key);
            (c.grid, c.next_col)
        }
    }
}

proof fn lemma_place_all_halted(cur: Cursor, rows: Seq<(u8, u8)>, key: ColorKey)
    requires
        cur.halted,
    ensures
        place_all(cur, rows, key) == cur,
    decreases rows.len(),
{
    if rows.len() > 0 {
        lemma_place_all_halted(cur, rows.drop_last(), key);
    }
}

proof fn lemma_place_all_split(cur: Cursor, rows: Seq<(u8, u8)>, k: int, key: ColorKey)
    requires
        0 <= k <= rows.len(),
    ensures
        place_all(cur, rows, key) == place_all(
            place_all(cur, rows.take(k), key),
            rows.skip(k),
            key,
        ),
    decreases rows.len() - k,
{
    if k < rows.len() {
        let rest = rows.skip(k);
        lemma_place_all_split(cur, rows, k + 1, key);
        assert(rows.take(k + 1).drop_last() =~= rows.take(k));
        assert(rows.take(k + 1).last() == rows[k]);
        lemma_place_all_front(place_all(cur, rows.take(k), key), rest, key);
        assert(rest.skip(1) =~= rows.skip(k + 1));
    } else {
        assert(rows.take(k) =~= rows);
        assert(rows.skip(k).len() == 0);
    }
}

proof fn lemma_place_all_front(cur: Cursor, rows: Seq<(u8, u8)>, key: ColorKey)
    requires
        rows.len() > 0,
    ensures
        place_all(cur, rows, key) == place_all(place(cur, rows[0], key), rows.skip(1), key),
    decreases rows.len(),
{
    if rows.len() == 1 {
        assert(rows.drop_last().len() == 0);
        assert(rows.skip(1).len() == 0);
        assert(rows.last() == rows[0]);
        assert(place_all(cur, rows.drop_last(), key) == cur);
        assert(place_all(place(cur, rows[0], key), rows.skip(1), key) == place(cur, rows[0], key));
    } else {
        lemma_place_all_front(cur, rows.drop_last(), key);
        assert(rows.drop_last().skip(1) =~= rows.skip(1).drop_last());
        assert(rows.drop_last()[0] == rows[0]);
        assert(rows.skip(1).last() == rows.last());
        assert(rows.skip(1).len() > 0);
    }
}

proof fn lemma_lay_out_stopped(columns: Seq<Seq<(u8, u8)>>, j: int, m: int, key: ColorKey)
    requires
        0 <= j <= m <= columns.len(),
        lay_out(columns.take(j), key).1 >= 40,
    ensures
        lay_out(columns.take(m), key) == lay_out(columns.take(j), key),
    decreases m - j,
{
    if m > j {
        lemma_lay_out_stopped(columns, j, m - 1, key);
        assert(columns.take(m).drop_last() =~= columns.take(m - 1));
    }
}

/// The cells of each of a list of columns.
pub open spec fn column_cells(v: Seq<Vec<(u8, u8)>>) -> Seq<Seq<(u8, u8)>> {
    v.map_values(|c: Vec<(u8, u8)>| c@)
}

/// Appends empty columns until column `c` exists.
fn pad_grid(grid: &mut Vec<[(u8, u8); 6]>, c: usize)
    requires
        c < 40,
        old(grid)@.len() <= 40,
    ensures
        cells(final(grid)@) == pad_to(cells(old(grid)@), c as int),
        final(grid)@.len() <= 40,
        final(grid)@.len() > c,
{
    let ghost g0 = cells(old(grid)@);
    while grid.len() <= c
        invariant
            c < 40,
            g0.len() <= grid@.len() <= 40,
            grid@.len() <= c + 1 || grid@.len() == g0.len(),
            cells(grid@) == g0 + Seq::new((grid@.len() - g0.len()) as nat, |i: int| empty_column()),
        decreases c + 1 - grid@.len(),
    {
        let ghost before = grid@;
        grid.push(empty_cells());
        assert(cells(grid@) =~= cells(before).push(empty_column()));
        assert(cells(grid@) =~= g0 + Seq::new(
            (grid@.len() - g0.len()) as nat,
            |i: int| empty_column(),
        ));
    }
    assert(cells(grid@) =~= pad_to(g0, c as int));
}

/// Writes `e` into row `row` of column `col`.
fn write_cell(grid: &mut Vec<[(u8, u8); 6]>, col: usize, row: usize, e: (u8, u8))
    requires
        col < old(grid)@.len(),
        row < 6,
    ensures
        cells(final(grid)@) == cells(old(grid)@).update(
            col as int,
            cells(old(grid)@)[col as int].update(row as int, e),
        ),
        final(grid)@.len() == old(grid)@.len(),
{
    let mut c = grid[col];
    c[row] = e;
    grid.set(col, c);
    assert(cells(grid@) =~= cells(old(grid)@).update(
        col as int,
        cells(old(grid)@)[col as int].update(row as int, e),
    ));
}

/// Simulates the shared grid-fill algorithm used by the big road and all three
/// derived roads (see [`lay_out`] and [`place`]).
///
/// Implements the standard baccarat dragon-tail convention: the cursor goes down until
/// blocked (bottom of grid or occupied cell), then turns right. Two supplementary rules
/// apply during right-turns:
///
/// - **Space rule**: while moving right, if the cell directly below the cursor is empty,
///   resume going down.
/// - **Color rule**: suppress the Space-rule drop when the cell diagonally below-left
///   is the same color as the current entry, preventing same-color overlap.
///
/// `key` picks the color of a bead byte: the outcome bits for the big road,
/// the whole byte for derived roads.
///
/// Returns at most 40 visual columns. Entries that would land beyond
/// column 39 are silently dropped.
pub fn simulate(columns: &Vec<Vec<(u8, u8)>>, key: ColorKey) -> (grid: ArrayVec<[(u8, u8); 6], 40>)
    ensures
        cells(columns_40(grid)) == lay_out(column_cells(columns@), key).0,
        columns_40(grid).len() <= 40,
{
    let ghost cols = column_cells(columns@);
    let mut grid: Vec<[(u8, u8); 6]> = Vec::new();
    let mut next_col: usize = 0;
    let mut j: usize = 0;
    let mut stopped = false;
    while !stopped && j < columns.len()
        invariant
            j <= columns@.len(),
            cols == column_cells(columns@),
            lay_out(cols.take(j as int), key) == (cells(grid@), next_col as int),
            grid@.len() <= 40,
            next_col <= 40,
            stopped ==> next_col >= 40,
        decreases columns@.len() - j, if stopped { 0int } else { 1int },
    {
        let ghost g_before = cells(grid@);
        let ghost nc_before = next_col as int;
        let start = next_col;
        if start >= MAX_COL_COUNT {
            stopped = true;
        } else {
            pad_grid(&mut grid, start);
            next_col = start + 1;
            let column_rows = &columns[j];
            let ghost rows = column_rows@;
            assert(rows == cols[j as int]);
            let mut col = start;
            let mut row: usize = 0;
            let mut going_down = true;
            let mut halted = false;
            let mut k: usize = 0;
            while !halted && k < column_rows.len()
                invariant
                    k <= rows.len(),
                    rows == column_rows@,
                    place_all(
                        start_streak(g_before, nc_before),
                        rows.take(k as int),
                        key,
                    ) == (Cursor {
                        grid: cells(grid@),
                        next_col: next_col as int,
                        col: col as int,
                        row: row as int,
                        halted,
                    }),
                    grid@.len() <= 40,
                    next_col <= 40,
                    col <= 40,
                    row < 6,
                decreases rows.len() - k, if halted { 0int } else { 1int },
            {
                let ghost cur = Cursor {
                    grid: cells(grid@),
                    next_col: next_col as int,
                    col: col as int,
                    row: row as int,
                    halted,
                };
                let (bead_byte, aux_byte) = column_rows[k];
                if col >= MAX_COL_COUNT {
                    halted = true;
                } else {
                    pad_grid(&mut grid, col);
                    let has_row_below = row + 1 < ROWS;
                    let has_col_to_left = col > 0;
                    let color_conflict = has_row_below && has_col_to_left && marker_of(
                        key,
                        grid[col - 1][row + 1].0,
                    ) == marker_of(key, bead_byte);
                    let is_cell_below_vacant = has_row_below && grid[col][row + 1].0 == 0;
                    let space_below = is_cell_below_vacant && !color_conflict;
                    if !going_down && space_below {
                        going_down = true;
                    }
                    write_cell(&mut grid, col, row, (bead_byte, aux_byte));
                    if row == 0 && next_col < col + 1 {
                        next_col = col + 1;
                    }
                    if going_down && space_below {
                        row = row + 1;
                    } else {
                        going_down = false;
                        col = col + 1;
                    }
                }
                proof {
                    assert(rows.take(k + 1).drop_last() =~= rows.take(k as int));
                    assert(rows.take(k + 1).last() == rows[k as int]);
                }
                k = k + 1;
            }
            proof {
                let st = start_streak(g_before, nc_before);
                if halted {
                    lemma_place_all_split(st, rows, k as int, key);
                    let cut = place_all(st, rows.take(k as int), key);
                    lemma_place_all_halted(cut, rows.skip(k as int), key);
                } else {
                    assert(rows.take(k as int) =~= rows);
                }
                assert(cols.take(j + 1).drop_last() =~= cols.take(j as int));
                assert(cols.take(j + 1).last() == rows);
            }
            j = j + 1;
        }
    }
    proof {
        if stopped {
            lemma_lay_out_stopped(cols, j as int, cols.len() as int, key);
        }
        assert(cols.take(cols.len() as int) =~= cols);
    }
    let mut out = new_grid_40();
    let mut i: usize = 0;
    while i < grid.len()
        invariant
            i <= grid@.len() <= 40,
            columns_40(out) == grid@.take(i as int),
        decreases grid@.len() - i,
    {
        push_grid_40(&mut out, grid[i]);
        i = i + 1;
        assert(columns_40(out) =~= grid@.take(i as int));
    }
    assert(grid@.take(i as int) =~= grid@);
    out
}

/// A big road laid out in whole columns reads back without running short.
pub proof fn lemma_laid_out_parses(b: Seq<u8>, pos: int, budget: int)
    requires
        0 <= pos <= b.len(),
        laid_out(b.take(pos)),
    ensures
        parse_columns(b, pos, budget) is Some,
    decreases pos,
{
    if pos > 0 && budget > 0 {
        let t = b.take(pos);
        let rc = b[pos - 1];
        assert(t.last() == rc);
        if rc != 0 {
            let s = pos - 1 - 2 * rc;
            assert(t.take(t.len() - 2 * rc - 1) =~= b.take(s));
            lemma_laid_out_parses(b, s, budget - 1);
        }
    }
}

/// Columns held in `Vec`s show the same cells as the sequence they hold.
pub proof fn lemma_holds_columns(v: Seq<Vec<(u8, u8)>>, cols: Seq<Seq<(u8, u8)>>)
    requires
        holds_columns(v, cols),
    ensures
        column_cells(v) == cols,
{
    assert(column_cells(v) =~= cols);
}

} // verus!
