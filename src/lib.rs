//! Undo and redo over a user's state, as a linear record or a branching history,
//! with checkpoints that roll changes back and queues that defer them.

mod checkpoint;
mod command;
mod history;
mod laws;
mod queue;
mod record;
mod storage;

pub use checkpoint::Checkpoint;
pub use command::{At, Command, Merged, NoSlot, Signal, Slot, Timeline};
pub use history::{
    other_saved_after_jump, reparent, saved_after_jump, saved_upto, Branch, BranchView, History,
    HistoryBuilder, HistoryView,
};
pub use laws::{
    lemma_apply_then_undo, lemma_apply_undo_redo, lemma_parents_live, lemma_record_bounds,
    lemma_saved_kept, lemma_saved_once, one_step, pushed_within_limit, redone, undone,
};
pub use queue::{has_node, performs, performs_on_history, Action, Queue};
pub use record::{changes, chains, notices, Record, RecordBuilder, RecordView};
