# hyperopt_rs

An Optuna-shaped, define-by-run hyperparameter optimization framework whose
decisions are verified with Verus.

- `src/` is the verified library: trials and their reports, study snapshots,
  the median and successive-halving pruners, the grid sampler, the numeric
  search space of CMA-ES, trial storage, the best-so-far history, the
  coordinator's gate and bookkeeping, and the worker's requests and replies.
  Objective values are carried as IEEE-754 bit patterns and compared with
  exactly the semantics of `f64` comparison. `src/laws.rs` states and proves
  what holds across calls (what a load gives back of a save, how the
  coordinator gates requests, that the grid covers every point once, ...).
- `app/` is ordinary Rust around it: the sampler, pruner and storage traits,
  the floating-point samplers (random, TPE, CMA-ES) and analyses (parameter
  importance, fANOVA, the SVG history plot), SQLite storage, the study
  runner, and the TCP/TLS coordinator and worker.
- `tests/` drives the library on concrete values.
