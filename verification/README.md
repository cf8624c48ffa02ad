# filler player

A player for the Filler board game, written in Verus. Each turn the referee
prints the board (`Anfield`) and the piece to place (`Piece`); the player
answers with the column and row of the piece's top-left corner.

## Layout

- `src/grid.rs` — boards and pieces as rows of characters; the two
  characters of each side; counting cells under a piece.
- `src/reach.rs` — multi-source breadth-first reachability on a board
  (`within`, `reached`, `level`) and the lemmas about it.
- `src/board.rs` — legality of a placement (`is_valid_placement`) and the
  flood-fill count of empty cells reachable from given starts.
- `src/strategy.rs` — breadth-first distances for each side, the territory
  score (cells each side reaches first), the greedy tie-breakers, and the
  choice of a move (`best_placement_within`, and `find_best_placement`,
  which stops after five seconds), and `answer_turn`, which also answers a
  turn whose piece rows do not match the piece's header.
- `src/text.rs`, `src/parser.rs` — reading the referee's lines: words,
  trimming, numbers, size lines, board and piece rows.
- `src/protocol.rs` — which line is which; when a turn is complete.
- `app/main.rs` — reads stdin, feeds the protocol reader, prints moves.
- `tests/` — tests run against the compiled library.
