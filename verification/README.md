# wordle_solver

A Wordle solver driven by a precomputed strategy bundle (the guess words,
the answers among them, and the feedback of every guess against every
answer), written in Verus and verified.

Layout:

- `src/types.rs`: packed words, base-3 feedback codes, scoring.
- `src/asset.rs`: the bundle's byte format, writing and reading it.
- `src/corpus.rs`: the loaded bundle and its lookups.
- `src/solver.rs`: the solving session (possible answers as a bitset,
  minimax guess choice, feedback filtering) and simulated games.
- `src/board.rs`: the interactive board as a state machine driven by keys,
  and the choice of suggestions that are themselves possible answers.
- `src/opener.rs`: judging opening guesses.
- `src/perf.rs`: timing.
- `app/`: the terminal front end (drawing, key reading), the opener
  report (threads, floating-point measures) and the benchmarks. It reads
  the bundle from `--bundle PATH`, by default
  `data/official/assets/official.bundle`.
