# kramer

A UCI chess engine whose core is verified with Verus.

`src/` is the library. Each module states what its functions compute as specifications
over a mathematical model of the position (`board::Position`: a 64-square mailbox, side to
move, castling rights, en-passant square, move counters, hash and history), and Verus proves
the code against them:

- `bits`, `board`, `zobrist`, `makemove`: bitboards, piece placement, incremental Zobrist
  hashing, making and unmaking moves (unmaking restores the position; the incremental hash
  equals the hash computed from scratch).
- `attacks`, `sliders`, `magics`, `magic_tables`, `movegen`, `pawns`, `legality`, `position`:
  attack sets, pseudo-legal and legal move generation. The legal move list holds exactly the
  legal moves, each once. Move generation computes slider attacks ray by ray; the magic
  attack tables build exactly when their magic numbers keep apart occupancies with
  different attacks, and then agree with the ray-by-ray attacks.
- `perft`: leaf counts of the legal move tree, equal to the recursive count over the legal
  moves.
- `fen`, `fen_round_trip`: reading and writing FEN; reading back the text of a position gives
  the position.
- `eval`, `passed_pawns`, `move_ordering`, `tt`, `search`, `time`: tapered PeSTO evaluation
  with bishop-pair and rank-scaled passed-pawn bonuses, MVV-LVA and killer ordering (a quiet
  move that cuts a node off becomes a killer of its depth), the
  transposition table, fail-soft alpha-beta search (its result and table are those of the
  recursive search specification `node_value`) with a quiescence search (whose result is
  the quiescence value clamped to the window), and time allocation.
- `engine`, `cli`: the decisions the engine takes on each UCI command, as actions for its
  surroundings to carry out.

`app/` is the program around the library: command-line parsing, logging, reading UCI
commands from standard input, the threads that run searches, and writing replies.

`tests/` holds the test suite: perft counts, FEN round trips, move generation by piece,
magic tables, search and engine behaviour.
