# wordle_strats

Scores static Wordle strategies: a fixed set of guesses is played against every
possible secret word, and the strategy is ranked by how many possible words stay
consistent with the clues it earned.

- `src/` is the verified library: word lists (`words`), clues and the check of a
  word against them (`utils`), the walk over all fixed-size combinations of
  guesses (`comb`), and the per-secret count of remaining words (`strategy`).
- `app/` reads the word lists, runs the walk in parallel, aggregates the counts
  in floating point and prints the ranking.
