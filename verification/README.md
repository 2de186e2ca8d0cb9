# y_game

The game of Y on a 93-point board, as a verified library.

- `board` — the board: the adjacency table of its points and the masks of
  its three sides.
- `game` — a game: stones as bit masks, moves, and the winner check (a
  player wins when a group of its stones touches all three sides).
- `group` — groups of stones as walks on the board, and the facts about
  them that the winner check and the chain search rest on.
- `search` — the distance search that spreads from a side or a corner,
  crossing stones of the chain's colour for free.
- `bot` — the engine: distances of every point to the sides, the chains on
  the board and their costs, the static evaluation and the alpha-beta search.
- `table` — the transposition table of the search.
- `positions` — reading saved positions from text.
- `laws` — properties of the library that span several functions.

`app/` holds the window that lets a person play blue against the engine.
