//! An Optuna-shaped, define-by-run hyperparameter optimization framework:
//! trials and their reports, study snapshots, pruners, the grid sampler and
//! the numeric search space of CMA-ES, trial storage, the optimization
//! history, and the coordinator/worker protocol of distributed runs.
//! `laws` states what holds of these across calls.
pub mod float;
pub mod value;
pub mod trial;
pub mod study_state;
pub mod pruners;
pub mod error;
pub mod protocol;
pub mod study;
pub mod grid;
pub mod storage;
pub mod distributed;
pub mod context;
pub mod worker;
pub mod sampling;
pub mod schema;
pub mod tuning;
pub mod history;
pub mod search_space;
pub mod laws;
