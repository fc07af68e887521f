# strongsnake

A Battlesnake-style agent whose game rules, search and file formats are written in Verus
and proved against their contracts.

## Layout

- `src/` — the verified library.
  - `types`, `direction`, `rng`, `engine`, `food`: the board, the deterministic turn
    simulation (moves, eating, starvation, collisions) and the standard food spawning.
  - `bitboard`, `grid`, `model`, `floodfill`, `voronoi`, `heuristics`, `zobrist`, `tt`,
    `search`, `brain`: the search engine — cell grid, flood fill, territory split, evaluation,
    position hashing, transposition table, negamax with alpha-beta, and the root driver.
  - `api`, `json`: reading move requests and writing them for move servers (standard and
    legacy layouts).
  - `sfen`, `playground`, `scenario`, `snapshot`: the compact position text, saved
    playground documents, regression scenarios and arena snapshots.
  - `matches`, `arena`, `regression`, `trainer`, `config`, `text`: match bookkeeping and the turn step of a match, arena
    totals, regression reports, training opponents, and text helpers.
- `app/` — the command-line program around the library: the HTTP move server, the
  regression runner, the arena, the trainer, serde forms of the library's types, and the
  floating-point parts (the food-urgency curve, rates and averages, the genetic tuner).
- `tests/` — tests of the library on concrete values.

## Laws

Among the properties proved in `src/`: writing a position and reading it back gives it back
(`sfen::lemma_fen_roundtrip`; food included, for food listed in board order:
`sfen::lemma_fen_roundtrip_in_order`; and the field-level round trips beside it); a move request
written for a state reads back as that state (`api::lemma_standard_request_reads_back`,
`api::lemma_legacy_request_reads_back`); a playground position saved in the compact layout or
as a scenario loads back (`playground::lemma_compact_state_reads_back`,
`playground::lemma_saved_scenario_reads_back`); unmaking a move restores the grid
(`search::lemma_unmake_restores`); the negamax search leaves the position as it found it and returns the search value
(`search::negamax`'s contract, over `search::search_valid`), and the move and score that
`brain::search_grid` reports are those of that search from the root (`brain::root_value`); a transposition-table read returns what was written
(`tt::lemma_set_then_get`); toggling a hash key twice restores the hash
(`zobrist::lemma_xor_twice`); the evaluation stays within bounds that keep the search free of
overflow (`heuristics::lemma_eval_bounded`); splitting the board from the other head swaps the
territories (`voronoi::lemma_voronoi_swap`); recording a run of games counts each once and keeps
the first shortest and longest (`arena::lemma_recorded_run`); draining a cell set yields its
members once each in increasing order (`bitboard::lemma_drain`); run-length encoding never
lengthens its input (`sfen::lemma_rle_no_longer`) and a body with a jump reads back as a bad
step (`sfen::lemma_body_bad_step`); a board of at least 6 by 6 cells starts with three food
items (`matches::lemma_start_leaves_room`), and a new game is determined by its size and seed
(`matches::lemma_fresh_game_determined`). Food spawning is stated exactly in terms of the
library's generator (`food::spawn_spec`), so a game is determined by its size and seed
(`matches::build_playground_state`, `engine::simulate_turn`).
