# boardgames

Verified rules for a family of board games, written in Verus.

- `src/` is the verified library. Each game keeps its positions, move
  generation and move application here, with contracts stated over
  mathematical models (`Seq`, `Set`, integers) and proved by Verus:
  Akron, Atari Go (on the shared `go_engine`), Breakthrough's heuristic,
  Congo, Connect Four (rules, heuristic, reference-diagnostic labelling and
  the record codecs), Druid and Focus. `bits`, `bigbitboard`, `grid` and
  `symmetry` hold the shared bitboards and board symmetry groups.
- Laws that relate several operations stand as public proof functions
  (`lemma_*`) next to the functions they speak of; for example
  `connect4::codec::lemma_decode_encode` (decoding what was encoded gives
  the records back) and `go_engine::alive::lemma_placement_keeps_liberties`
  (no group without a liberty survives a move).
- `tests/` runs the library on concrete games and positions.
- `app/` is ordinary Rust around the library: floating-point scoring and
  metrics, the float-carrying copies of record types, the JSON wire forms
  of moves, and move notation.
