# bacc_core

Baccarat rounds and the five standard scoreboard roads (bead plate, big road,
Big Eye Boy, Small Road, Cockroach Pig), verified with Verus.

Layout of `src/`:

- `lib.rs` – card ranks and their pip values.
- `round.rs` – hands, rounds and the outcome a round decides.
- `hex.rs` – lowercase hex text of byte buffers and its tolerant inverse.
- `roads.rs` – the road registers as a fold over the bead words played, with
  the shape facts that keep them inside their fixed capacities.
- `scoreboard.rs` – `BaccScoreboard`: update, clear, encode/decode, hex diffs,
  column heights and the road grids; the library's laws (encode/decode round
  trip, diffs agreeing with decode, heights as column counts).
- `grid.rs` – laying entries out on a six-row board with the dragon-tail
  rules.
- `bounded.rs` – the `arrayvec` buffers the scoreboard keeps its registers in,
  and the trusted contracts of the `arrayvec` methods it calls.

`app/` turns `kev` card integers into ranks.
