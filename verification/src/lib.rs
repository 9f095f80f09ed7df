//! Checking recorded histories of a concurrent object for linearizability
//! against a sequential model.
//!
//! A `History` records the invocations and responses of a run; an
//! `ImmutableChecker` searches for an order of the recorded operations, one
//! that respects their real-time order, in which the model gives every
//! recorded response.

mod action;
mod history;
mod live;
mod checker;
mod linearizability;

pub use action::{
    Action, Model, Runner, model_is_function, model_step, lemma_model_step, default_is_function,
    default_response,
};
pub use history::{
    Entry, EntryData, History, complete, invoked, request_of, response_of, res_pos,
    lemma_response_of_invocation,
};
pub use live::live_positions;
pub use checker::{
    ImmutableChecker, Expansion, Tally, next_event, expected_at, answers, remove_pair, search_from, search_safe,
    explained, explained_via, finishes, branches, lemma_next_event_found, lemma_next_event_none,
    lemma_next_event_complete, lemma_complete_is_safe, lemma_remove_pair_complete, lemma_branches_shape,
    lemma_expansion, lemma_explained_iff_via,
};
pub use linearizability::{
    inv_pos, is_linearization, replays, linearizable, lemma_op_positions, lemma_remove_op,
    lemma_check_decides_linearizability, swap_adjacent, swap_pos, rename, renames_apart,
    lemma_relax_real_time, lemma_swap_same_kind, lemma_rename_ids,
};
