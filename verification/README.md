# mz_rs

A library for agents that learn games by searching with a learned model, and for the chess
engine and the evaluation around them. It is written in Verus: the functions of `src/` have
contracts that are proved, and beside them stand laws that hold between functions, such as that
equal searches agree.

- `src/` is the library. Searches: `tree`, `batch`, `search`, `gumbel`, `extract`,
  `considered` (trees over hidden states), `mcts`, `wave`, `kept` (trees over chess positions).
  What they come to, step by step: `course`, `wave_course`.
  Playing: `opponent`, `eval`, `session`, `othello`, `position`, `chess_eval`, `chess_bot`,
  `uci`. Learning: `replay_buffer`, `game_buffer`, `train`, `networks`, `utils`, `metrics`,
  `config`. Underneath: `single`, `rng`, `text`.
- `tests/` runs the library on concrete values.
- `app/` is ordinary Rust around it: arithmetic on real numbers, networks, threads, files, and
  a `main` that speaks the UCI protocol, for a search in waves or, with the argument `leaves`,
  leaf by leaf.

Numbers with a fraction appear in the library by their bits (`single::Single`): they are
compared, negated and passed on there, and computed with outside. A search asks for its
scores, sums and predictions through a trait (`SearchModel`, `WaveModel`, `Player`, `Returns`).
Each question has a name in the trait, which stands for the answer and for the model after it,
so that contracts can say which answers a result comes from. Nothing else is assumed of the
answers: their lengths, and the legality of moves, are tested when they arrive. A `SearchModel`
or a `WaveModel` may say that it always answers in full. Then a search is owed a result, and an
evaluation too, as long as there is always a move and legal actions have scores above negative
infinity.

What comes from other crates stands behind a few small functions whose contracts are
believed: the `chess` crate reads positions and generates moves (`position`), and `fastrand`
draws numbers (`rng`). Each says in its comment which function it calls and what it claims of
it.
