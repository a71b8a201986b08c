use vstd::prelude::*;

use crate::command::{Command, Slot};
use crate::history::HistoryView;
use crate::record::{Record, RecordView};

verus! {

/// On every record the cursor lies between zero and the number of commands, which
/// the limit bounds.
pub proof fn lemma_record_bounds<C: Command, F: Slot>(r: &Record<C, F>)
    requires
        r.wf(),
    ensures
        r@.current <= r@.len() <= r@.limit,
{
}

/// On every history the saved marker lies on the active branch or on another one,
/// never on both.
pub proof fn lemma_saved_once<T>(h: HistoryView<T>)
    requires
        h.wf(),
    ensures
        !(h.record.saved is Some && h.saved is Some),
{
}

/// On every history each stored branch grows from the active branch or from another
/// stored branch.
pub proof fn lemma_parents_live<T>(h: HistoryView<T>, i: int)
    requires
        h.wf(),
        0 <= i < h.branches.len(),
    ensures
        h.branches[i].parent.branch == h.root
            || exists|j: int| 0 <= j < h.branches.len() && h.branches[j].id == h.branches[i].parent.branch,
{
    assert(h.branches[i].parent.branch == h.root || h.live(h.branches[i].parent.branch));
    if h.branches[i].parent.branch != h.root {
        let j = choose|j: int| #[trigger] h.stores(h.branches[i].parent.branch, j);
        assert(0 <= j < h.branches.len() && h.branches[j].id == h.branches[i].parent.branch);
    }
}

/// A command pushed at the cursor without reaching the limit.
pub open spec fn pushed_within_limit<T>(before: RecordView<T>, after: RecordView<T>) -> bool {
    &&& before.current < before.limit
    &&& after.pushed(before, after.target())
}

/// One successful undo.
pub open spec fn undone<T>(before: RecordView<T>, after: RecordView<T>) -> bool {
    &&& before.current > 0
    &&& after == (RecordView { current: (before.current - 1) as nat, ..before })
}

/// One successful redo.
pub open spec fn redone<T>(before: RecordView<T>, after: RecordView<T>) -> bool {
    &&& before.current < before.len()
    &&& after == (RecordView { current: before.current + 1, ..before })
}

/// After `k` pushes within the limit, the cursor has moved `k` forward and the states
/// from the first cursor on are the targets after each push.
proof fn lemma_pushes<T>(views: Seq<RecordView<T>>, k: int)
    requires
        0 <= k < views.len(),
        forall|i: int| 0 <= i < views.len() ==> (#[trigger] views[i]).wf(),
        forall|i: int| 0 <= i < k ==> #[trigger] pushed_within_limit(views[i], views[i + 1]),
    ensures
        views[k].current == views[0].current + k,
        forall|j: int| 0 <= j <= k ==> #[trigger] views[k].states[views[0].current as int + j] == views[j].target(),
    decreases k,
{
    if k > 0 {
        lemma_pushes(views, k - 1);
        let i = k - 1;
        assert(pushed_within_limit(views[i], views[i + 1]));
        assert(views[i].wf());
        let c = views[0].current + k - 1;
        assert(views[k].states == views[k - 1].states.subrange(0, c + 1).push(views[k].target()));
        assert forall|j: int| 0 <= j <= k implies #[trigger] views[k].states[views[0].current as int + j] == views[j].target() by {
            if j < k {
                assert(views[k - 1].states[views[0].current as int + j] == views[j].target());
            }
        }
    }
}

/// After undoing from step `n` to step `k`, the cursor has moved `k - n` back and
/// nothing else changed.
proof fn lemma_undos<T>(views: Seq<RecordView<T>>, n: int, k: int)
    requires
        0 <= n <= k < views.len(),
        forall|i: int| n <= i < k ==> #[trigger] undone(views[i], views[i + 1]),
    ensures
        views[n].current >= k - n,
        views[k] == (RecordView { current: (views[n].current - (k - n)) as nat, ..views[n] }),
    decreases k - n,
{
    if k > n {
        lemma_undos(views, n, k - 1);
        let i = k - 1;
        assert(undone(views[i], views[i + 1]));
        assert(views[i].current == views[n].current - (i - n));
        assert(views[k].current == views[n].current - (k - n));
        assert(views[k].states == views[n].states);
        assert(views[k].saved == views[n].saved);
        assert(views[k].limit == views[n].limit);
    }
}

/// Applying `n` commands, none of them folded and none reaching the limit, and then
/// undoing `n` times brings the target back to where it started.
pub proof fn lemma_apply_then_undo<T>(views: Seq<RecordView<T>>, n: int)
    requires
        n >= 0,
        views.len() == 2 * n + 1,
        forall|i: int| 0 <= i < views.len() ==> (#[trigger] views[i]).wf(),
        forall|i: int| 0 <= i < n ==> #[trigger] pushed_within_limit(views[i], views[i + 1]),
        forall|i: int| n <= i < 2 * n ==> #[trigger] undone(views[i], views[i + 1]),
    ensures
        views[2 * n].target() == views[0].target(),
{
    lemma_pushes(views, n);
    lemma_undos(views, n, 2 * n);
    assert(views[n].states[views[0].current as int + 0] == views[0].target());
}

/// Applying a command, undoing it and redoing it leaves the record as applying it did.
pub proof fn lemma_apply_undo_redo<T>(applied: RecordView<T>, after_undo: RecordView<T>, after_redo: RecordView<T>)
    requires
        undone(applied, after_undo),
        redone(after_undo, after_redo),
    ensures
        after_redo == applied,
        after_redo.target() == applied.target(),
{
}

/// What one operation of a record may do to its view: push or fold a command, or move
/// the cursor.
pub open spec fn one_step<C: Command>(before: RecordView<C::Target>, after: RecordView<C::Target>) -> bool {
    ||| after.pushed(before, after.target())
    ||| Record::<C>::merged_view(after, before)
    ||| after == (RecordView { current: after.current, ..before })
}

/// A record that keeps its saved marker through any operations holds the same saved
/// target; reverting to it then restores the target it had when it was saved.
pub proof fn lemma_saved_kept<C: Command>(views: Seq<RecordView<C::Target>>)
    requires
        views.len() >= 1,
        forall|i: int| 0 <= i < views.len() ==> (#[trigger] views[i]).wf(),
        views[0].is_saved(),
        forall|i: int| 0 <= i < views.len() - 1 ==> #[trigger] one_step::<C>(views[i], views[i + 1]),
        forall|i: int| 0 <= i < views.len() ==> (#[trigger] views[i]).saved is Some,
    ensures
        views.last().saved_state() == Some(views[0].target()),
    decreases views.len(),
{
    if views.len() > 1 {
        let prefix = views.drop_last();
        assert forall|i: int| 0 <= i < prefix.len() - 1 implies #[trigger] one_step::<C>(prefix[i], prefix[i + 1]) by {
            assert(one_step::<C>(views[i], views[i + 1]));
        }
        assert forall|i: int| 0 <= i < prefix.len() implies (#[trigger] prefix[i]).saved is Some by {
            assert(views[i].saved is Some);
        }
        assert forall|i: int| 0 <= i < prefix.len() implies (#[trigger] prefix[i]).wf() by {
            assert(views[i].wf());
        }
        lemma_saved_kept::<C>(prefix);
        let k = views.len() - 2;
        assert(one_step::<C>(views[k], views[k + 1]));
        assert(views[k + 1].saved is Some);
        assert(views[k].wf());
        assert(prefix.last() == views[k]);
        lemma_step_keeps_saved::<C>(views[k], views[k + 1]);
    }
}

/// One operation that leaves a saved marker keeps the target it marks.
proof fn lemma_step_keeps_saved<C: Command>(before: RecordView<C::Target>, after: RecordView<C::Target>)
    requires
        before.wf(),
        one_step::<C>(before, after),
        after.saved is Some,
    ensures
        after.saved_state() == before.saved_state(),
{
    let c = before.current as int;
    let k = after.saved.unwrap() as int;
    if after.pushed(before, after.target()) {
        if c < before.limit {
            assert(after.states[k] == before.states[k]);
        } else {
            assert(after.states[k] == before.states[k + 1]);
        }
    } else if Record::<C>::merged_view(after, before) {
        assert(after.states[k] == before.states[k]);
    }
}

} // verus!
