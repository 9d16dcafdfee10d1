# gomoku

Gomoku on a 19×19 board with pair captures (ten captured stones win), the
double-three rule, a five that the opponent may still break by a capture, undo,
save files, and an alpha-beta AI with a transposition table and a time limit.

The rules, the AI, the save format and the text the terminal shows are proved
against their contracts; the window, the menus, file and terminal I/O and the search thread
are plain Rust around them.

- `src/` — the verified library
  - `board`, `capture`, `double_three`: the board and the rules of a move
  - `zobrist`, `hashing`: position hashes
  - `game_state`: a game, its moves, undo and the move list
  - `evaluation`, `search`, `ordering`, `tt`, `report`, `minimax`: the AI
  - `text`, `save_format`, `save_roundtrip`: numbers, lines and the save file
  - `interface`, `terminal`, `session`: what the player types, what the
    terminal prints, and the decisions of the game loop
  - `classic`: the plain two-player terminal game
  - `laws`: properties that span several operations
- `app/` — the program: terminal and macroquad front ends, menus, files, threads
- `tests/` — tests of the library on concrete games
