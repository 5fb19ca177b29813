# scrabble

A Scrabble engine whose behaviour is stated in contracts and proved with Verus.

## Layout

- `src/` — the verified library.
  - `common.rs`: tiles, moves, the bonus squares and letter points.
  - `board.rs`, `board_iterator.rs`: the 15 x 15 board and walks along its lines.
  - `text.rs`, `utils.rs`: characters, lines of text, letter bitmasks, counting and sorting.
  - `dictionary.rs`: the word list, sorted for lookup and indexed by length.
  - `tile_bag.rs`: the hundred tiles, dealing, drawing and exchanging.
  - `rules.rs`: what a move is, where it may go and what it scores, as spec functions.
  - `movegen.rs`, `ranking.rs`: finding every move of a rack, and the order they are offered in.
  - `game.rs`: turns, passes, exchanges, the end of the game, and restoring a saved game.
  - `session.rs`: a table of human and computer players and the requests they make.
  - `standalone.rs`: a board with its own word list, that finds words by regular expression.
- `tests/` — tests run against the compiled library.
- `app/` — the command-line runner, the word-list loader, JSON save files and the
  `wasm-bindgen` class for web pages.

The words come from a word list supplied by the caller: one word of capital
letters per line.
