use vstd::prelude::*;

use crate::command::{Command, Slot, Timeline};
use crate::history::{History, HistoryView};
use crate::record::{Record, RecordView};
use crate::storage::{capacity_of, shrink};

verus! {

/// An operation waiting in a queue.
pub enum Action<C> {
    /// Apply the command.
    Apply(C),
    /// Undo one command.
    Undo,
    /// Redo one command.
    Redo,
    /// Go to the position `(branch, current)`; a record ignores the branch.
    GoTo(usize, usize),
}

/// A staging area over a timeline: operations are recorded and only carried out,
/// in order, by `commit`.
pub struct Queue<'a, T: Timeline> {
    pub(crate) inner: &'a mut T,
    pub(crate) actions: Vec<Action<T::Command>>,
}

/// What carrying out `action` on a record with view `before` may leave, on success.
pub open spec fn performs<C: Command>(
    before: RecordView<C::Target>,
    action: Action<C>,
    after: RecordView<C::Target>,
) -> bool {
    match action {
        Action::Apply(c) => {
            &&& after.pushed(before, after.target()) || Record::<C>::merged_view(after, before)
            &&& !c.mergeable() ==> after.pushed(before, after.target())
            &&& forall|t: C::Target| #[trigger] c.steps(before.target(), t) ==> after.target() == t
        },
        Action::Undo => if before.current > 0 {
            after == (RecordView { current: (before.current - 1) as nat, ..before })
        } else {
            after == before
        },
        Action::Redo => if before.current < before.len() {
            after == (RecordView { current: before.current + 1, ..before })
        } else {
            after == before
        },
        Action::GoTo(_, p) => if p <= before.len() {
            after == (RecordView { current: p as nat, ..before })
        } else {
            after == before
        },
    }
}

/// What carrying out `action` on a record with view `before` may leave, where a
/// command fails: nothing changes, but for a walk that may stop part of the way.
pub open spec fn fails_on<T, C>(before: RecordView<T>, action: Action<C>, after: RecordView<T>) -> bool {
    match action {
        Action::GoTo(_, _) => after == (RecordView { current: after.current, ..before }),
        _ => after == before,
    }
}

/// What carrying out `action` on a history with view `before` may leave, where a
/// command fails: nothing changes, but for a walk, which stops where it failed.
pub open spec fn fails_on_history<T, C>(before: HistoryView<T>, action: Action<C>, after: HistoryView<T>) -> bool {
    match action {
        Action::GoTo(_, _) => true,
        _ => after == before,
    }
}

/// The node `current` of `branch` exists in a history with view `h`.
pub open spec fn has_node<T>(h: HistoryView<T>, branch: usize, current: usize) -> bool {
    ||| branch == h.root && current <= h.record.len()
    ||| exists|j: int| #[trigger] h.stores(branch, j) && current <= h.branches[j].end()
}

/// What carrying out `action` on a history with view `before` may leave, on success.
pub open spec fn performs_on_history<C: Command, F: Slot>(
    before: HistoryView<C::Target>,
    action: Action<C>,
    after: HistoryView<C::Target>,
) -> bool {
    match action {
        Action::Apply(c) => History::<C, F>::applied(after, before, c),
        Action::Undo => if before.record.current > 0 {
            after == (HistoryView {
                record: RecordView { current: (before.record.current - 1) as nat, ..before.record },
                ..before
            })
        } else {
            after == before
        },
        Action::Redo => if before.record.current < before.record.len() {
            after == (HistoryView {
                record: RecordView { current: before.record.current + 1, ..before.record },
                ..before
            })
        } else {
            after == before
        },
        Action::GoTo(branch, current) => if has_node(before, branch, current) {
            after.root == branch && after.record.current == current
        } else {
            after == before
        },
    }
}

impl<'a, T: Timeline> Queue<'a, T> {
    /// The operations waiting, oldest first.
    pub closed spec fn pending(&self) -> Seq<Action<T::Command>> {
        self.actions@
    }

    /// The timeline under the queue, as it stands.
    pub closed spec fn base(&self) -> T {
        *self.inner
    }

    /// The reference through which the queue reaches the timeline.
    pub closed spec fn handle(&self) -> &'a mut T {
        self.inner
    }

    /// Returns an empty queue over `inner`.
    pub fn new(inner: &'a mut T) -> (r: Queue<'a, T>)
        ensures
            r.pending().len() == 0,
            r.base() == *old(inner),
            *final(r.handle()) == *final(inner),
    {
        Queue { inner, actions: Vec::new() }
    }

    /// Reserves room for at least `additional` more operations.
    pub fn reserve(&mut self, additional: usize)
        ensures
            final(self).pending() == old(self).pending(),
            final(self).base() == old(self).base(),
            *final(final(self).handle()) == *final(old(self).handle()),
    {
        self.actions.reserve(additional);
    }

    /// Returns how many operations the queue can hold without reallocating.
    pub fn capacity(&self) -> (r: usize)
        ensures
            r >= self.pending().len(),
    {
        capacity_of(&self.actions)
    }

    /// Shrinks the storage of the queue as much as possible.
    pub fn shrink_to_fit(&mut self)
        ensures
            final(self).pending() == old(self).pending(),
            final(self).base() == old(self).base(),
            *final(final(self).handle()) == *final(old(self).handle()),
    {
        shrink(&mut self.actions);
    }

    /// Returns the number of operations waiting.
    pub fn len(&self) -> (r: usize)
        ensures
            r == self.pending().len(),
    {
        self.actions.len()
    }

    /// Returns `true` if no operation is waiting.
    pub fn is_empty(&self) -> (r: bool)
        ensures
            r == (self.pending().len() == 0),
    {
        self.actions.len() == 0
    }

    /// Queues the application of `command`; the timeline is not touched.
    pub fn apply(&mut self, command: T::Command)
        ensures
            final(self).pending() == old(self).pending().push(Action::Apply(command)),
            final(self).base() == old(self).base(),
            *final(final(self).handle()) == *final(old(self).handle()),
    {
        self.actions.push(Action::Apply(command));
    }

    /// Queues an undo; the timeline is not touched.
    pub fn undo(&mut self)
        ensures
            final(self).pending() == old(self).pending().push(Action::Undo),
            final(self).base() == old(self).base(),
            *final(final(self).handle()) == *final(old(self).handle()),
    {
        self.actions.push(Action::Undo);
    }

    /// Queues a redo; the timeline is not touched.
    pub fn redo(&mut self)
        ensures
            final(self).pending() == old(self).pending().push(Action::Redo),
            final(self).base() == old(self).base(),
            *final(final(self).handle()) == *final(old(self).handle()),
    {
        self.actions.push(Action::Redo);
    }

    /// Queues the application of each command of `commands`, in order.
    pub fn extend(&mut self, commands: Vec<T::Command>)
        ensures
            final(self).pending().len() == old(self).pending().len() + commands@.len(),
            final(self).pending().subrange(0, old(self).pending().len() as int) == old(self).pending(),
            forall|i: int| 0 <= i < commands@.len() ==>
                #[trigger] final(self).pending()[old(self).pending().len() + i] == Action::Apply(commands@[i]),
            final(self).base() == old(self).base(),
            *final(final(self).handle()) == *final(old(self).handle()),
    {
        let mut rest = commands;
        let ghost all = rest@;
        let ghost start = self.actions@;
        while rest.len() > 0
            invariant
                self.inner == old(self).inner,
                self.actions@.len() + rest@.len() == start.len() + all.len(),
                start.len() <= self.actions@.len(),
                self.actions@.subrange(0, start.len() as int) == start,
                rest@ == all.subrange(all.len() - rest@.len(), all.len() as int),
                forall|i: int| 0 <= i < self.actions@.len() - start.len() ==>
                    #[trigger] self.actions@[start.len() + i] == Action::Apply(all[i]),
                start == old(self).actions@,
            decreases rest@.len(),
        {
            let command = rest.remove(0);
            self.actions.push(Action::Apply(command));
        }
    }

    /// The timeline itself, for a wrapper made over it while this queue waits.
    pub(crate) fn reborrow(&mut self) -> (r: &mut T)
        ensures
            *r == old(self).base(),
            *final(r) == final(self).base(),
            final(self).pending() == old(self).pending(),
            *final(final(self).handle()) == *final(old(self).handle()),
    {
        &mut *self.inner
    }

    /// Drops the queued operations; the timeline is not touched.
    pub fn cancel(self)
        ensures
            *final(self.handle()) == self.base(),
    {
    }
}

impl<'a, C: Command, F: Slot> Queue<'a, Record<C, F>> {
    /// Queues a move of the cursor to `current`.
    pub fn go_to(&mut self, current: usize)
        ensures
            final(self).pending() == old(self).pending().push(Action::GoTo(0, current)),
            final(self).base() == old(self).base(),
            *final(final(self).handle()) == *final(old(self).handle()),
    {
        self.actions.push(Action::GoTo(0, current));
    }

    /// Carries out the queued operations in order on the record, and stops at the
    /// first error, which it returns.
    ///
    /// On success the record went through one view per operation, each reached from
    /// the one before as that operation leaves it.
    pub fn commit(self) -> (r: Result<(), C::Error>)
        requires
            self.base().wf(),
        ensures
            (*final(self.handle())).wf(),
            self.pending().len() == 0 ==> r is Ok && *final(self.handle()) == self.base(),
            r is Err ==> exists|trace: Seq<RecordView<C::Target>>| {
                &&& 1 <= trace.len() <= self.pending().len()
                &&& trace[0] == self.base()@
                &&& forall|i: int| 0 <= i < trace.len() - 1 ==>
                    #[trigger] performs(trace[i], self.pending()[i], trace[i + 1])
                &&& fails_on(trace.last(), self.pending()[trace.len() - 1], (*final(self.handle()))@)
            },
            r is Ok ==> exists|trace: Seq<RecordView<C::Target>>| {
                &&& trace.len() == self.pending().len() + 1
                &&& trace[0] == self.base()@
                &&& trace.last() == (*final(self.handle()))@
                &&& forall|i: int| 0 <= i < self.pending().len() ==>
                    #[trigger] performs(trace[i], self.pending()[i], trace[i + 1])
            },
    {
        let Queue { inner, actions } = self;
        let mut rest = actions;
        let ghost all = rest@;
        let ghost mut trace = seq![inner@];
        while rest.len() > 0
            invariant
                inner.wf(),
                *final(inner) == *final(self.handle()),
                rest@.len() <= all.len(),
                rest@ == all.subrange(all.len() - rest@.len(), all.len() as int),
                trace.len() == all.len() - rest@.len() + 1,
                trace[0] == self.base()@,
                trace.last() == inner@,
                forall|i: int| 0 <= i < all.len() - rest@.len() ==>
                    #[trigger] performs(trace[i], all[i], trace[i + 1]),
                all == self.pending(),
                rest@.len() == all.len() ==> *inner == self.base(),
            decreases rest@.len(),
        {
            let ghost before = inner@;
            let ghost k = all.len() - rest@.len();
            let action = rest.remove(0);
            let failed: Option<C::Error> = match action {
                Action::Apply(command) => match inner.apply(command) {
                    Err(e) => Some(e),
                    Ok(_) => None,
                },
                Action::Undo => match inner.undo() {
                    Some(Err(e)) => Some(e),
                    _ => None,
                },
                Action::Redo => match inner.redo() {
                    Some(Err(e)) => Some(e),
                    _ => None,
                },
                Action::GoTo(_, current) => match inner.go_to(current) {
                    Some(Err(e)) => Some(e),
                    _ => None,
                },
            };
            if let Some(e) = failed {
                proof {
                    assert(fails_on(before, all[k], inner@));
                    assert(trace.last() == before);
                }
                return Err(e);
            }
            proof {
                assert(performs(before, all[k], inner@));
                trace = trace.push(inner@);
                assert forall|i: int| 0 <= i < all.len() - rest@.len() implies
                    #[trigger] performs(trace[i], all[i], trace[i + 1]) by {
                    if i < k {
                        assert(trace[i] == trace.drop_last()[i]);
                    }
                }
            }
        }
        Ok(())
    }

    /// Returns a queue over the same record, independent of this one.
    pub fn queue(&mut self) -> (r: Queue<'_, Record<C, F>>)
        requires
            old(self).base().wf(),
        ensures
            r.pending().len() == 0,
            r.base() == old(self).base(),
            *final(r.handle()) == final(self).base(),
            final(self).pending() == old(self).pending(),
            *final(final(self).handle()) == *final(old(self).handle()),
    {
        Queue::new(&mut *self.inner)
    }

    /// Returns a reference to the target.
    pub fn target(&self) -> (r: &C::Target)
        requires
            self.base().wf(),
        ensures
            *r == self.base()@.target(),
    {
        self.inner.target()
    }

    /// Returns a mutable reference to the target; see `Record::target_mut`.
    pub fn target_mut(&mut self) -> (r: &mut C::Target)
        requires
            old(self).base().wf(),
        ensures
            *r == old(self).base()@.target(),
    {
        self.inner.target_mut()
    }
}

impl<'a, C: Command, F: Slot> Queue<'a, History<C, F>> {
    /// Queues a move to the node `current` of `branch`.
    pub fn go_to(&mut self, branch: usize, current: usize)
        ensures
            final(self).pending() == old(self).pending().push(Action::GoTo(branch, current)),
            final(self).base() == old(self).base(),
            *final(final(self).handle()) == *final(old(self).handle()),
    {
        self.actions.push(Action::GoTo(branch, current));
    }

    /// Carries out the queued operations in order on the history, and stops at the
    /// first error, which it returns.
    ///
    /// On success the history went through one view per operation, each reached from
    /// the one before as that operation leaves it.
    pub fn commit(self) -> (r: Result<(), C::Error>)
        requires
            self.base().wf(),
        ensures
            (*final(self.handle())).wf(),
            self.pending().len() == 0 ==> r is Ok && *final(self.handle()) == self.base(),
            r is Err ==> exists|trace: Seq<HistoryView<C::Target>>| {
                &&& 1 <= trace.len() <= self.pending().len()
                &&& trace[0] == self.base()@
                &&& forall|i: int| 0 <= i < trace.len() - 1 ==>
                    #[trigger] performs_on_history::<C, F>(trace[i], self.pending()[i], trace[i + 1])
                &&& fails_on_history(trace.last(), self.pending()[trace.len() - 1], (*final(self.handle()))@)
            },
            r is Ok ==> exists|trace: Seq<HistoryView<C::Target>>| {
                &&& trace.len() == self.pending().len() + 1
                &&& trace[0] == self.base()@
                &&& trace.last() == (*final(self.handle()))@
                &&& forall|i: int| 0 <= i < self.pending().len() ==>
                    #[trigger] performs_on_history::<C, F>(trace[i], self.pending()[i], trace[i + 1])
            },
    {
        let Queue { inner, actions } = self;
        let mut rest = actions;
        let ghost all = rest@;
        let ghost mut trace = seq![inner@];
        while rest.len() > 0
            invariant
                inner.wf(),
                *final(inner) == *final(self.handle()),
                rest@.len() <= all.len(),
                rest@ == all.subrange(all.len() - rest@.len(), all.len() as int),
                trace.len() == all.len() - rest@.len() + 1,
                trace[0] == self.base()@,
                trace.last() == inner@,
                forall|i: int| 0 <= i < all.len() - rest@.len() ==>
                    #[trigger] performs_on_history::<C, F>(trace[i], all[i], trace[i + 1]),
                all == self.pending(),
                rest@.len() == all.len() ==> *inner == self.base(),
            decreases rest@.len(),
        {
            let ghost before = inner@;
            let ghost k = all.len() - rest@.len();
            let action = rest.remove(0);
            let failed: Option<C::Error> = match action {
                Action::Apply(command) => match inner.apply(command) {
                    Err(e) => Some(e),
                    Ok(_) => None,
                },
                Action::Undo => match inner.undo() {
                    Some(Err(e)) => Some(e),
                    _ => None,
                },
                Action::Redo => match inner.redo() {
                    Some(Err(e)) => Some(e),
                    _ => None,
                },
                Action::GoTo(branch, current) => {
                    let r = inner.go_to(branch, current);
                    proof {
                        if has_node(before, branch, current) {
                            if branch != before.root {
                                let j = choose|j: int| #[trigger] before.stores(branch, j) && current <= before.branches[j].end();
                                assert(before.stores(branch, j));
                            } else if current > before.record.len() {
                                let j = choose|j: int| #[trigger] before.stores(branch, j) && current <= before.branches[j].end();
                                assert(before.branch_ok(j));
                            }
                            assert(r is Some);
                        } else {
                            assert(r is None);
                        }
                    }
                    match r {
                        Some(Err(e)) => Some(e),
                        _ => None,
                    }
                },
            };
            if let Some(e) = failed {
                proof {
                    assert(fails_on_history(before, all[k], inner@));
                    assert(trace.last() == before);
                }
                return Err(e);
            }
            proof {
                assert(performs_on_history::<C, F>(before, all[k], inner@));
                trace = trace.push(inner@);
                assert forall|i: int| 0 <= i < all.len() - rest@.len() implies
                    #[trigger] performs_on_history::<C, F>(trace[i], all[i], trace[i + 1]) by {
                    if i < k {
                        assert(trace[i] == trace.drop_last()[i]);
                    }
                }
            }
        }
        Ok(())
    }

    /// Returns a queue over the same history, independent of this one.
    pub fn queue(&mut self) -> (r: Queue<'_, History<C, F>>)
        ensures
            r.pending().len() == 0,
            r.base() == old(self).base(),
            *final(r.handle()) == final(self).base(),
            final(self).pending() == old(self).pending(),
            *final(final(self).handle()) == *final(old(self).handle()),
    {
        Queue::new(&mut *self.inner)
    }

    /// Returns a reference to the target.
    pub fn target(&self) -> (r: &C::Target)
        requires
            self.base().wf(),
        ensures
            *r == self.base()@.record.target(),
    {
        self.inner.target()
    }

    /// Returns a mutable reference to the target; see `Record::target_mut`.
    pub fn target_mut(&mut self) -> (r: &mut C::Target)
        requires
            old(self).base().wf(),
        ensures
            *r == old(self).base()@.record.target(),
    {
        self.inner.target_mut()
    }
}

impl<C: Command, F: Slot> History<C, F> {
    /// Returns a queue over the history.
    pub fn queue(&mut self) -> (r: Queue<'_, History<C, F>>)
        ensures
            r.pending().len() == 0,
            r.base() == *old(self),
            *final(r.handle()) == *final(self),
    {
        Queue::new(self)
    }
}

impl<C: Command, F: Slot> Record<C, F> {
    /// Returns a queue over the record.
    pub fn queue(&mut self) -> (r: Queue<'_, Record<C, F>>)
        ensures
            r.pending().len() == 0,
            r.base() == *old(self),
            *final(r.handle()) == *final(self),
    {
        Queue::new(self)
    }
}

impl<'a, T: Timeline> Timeline for Queue<'a, T> {
    type Command = T::Command;

    open spec fn ready(&self) -> bool {
        true
    }

    fn apply(&mut self, command: T::Command) -> (r: Result<(), <T::Command as Command>::Error>) {
        self.actions.push(Action::Apply(command));
        Ok(())
    }

    fn undo(&mut self) -> (r: Option<Result<(), <T::Command as Command>::Error>>) {
        self.actions.push(Action::Undo);
        Some(Ok(()))
    }

    fn redo(&mut self) -> (r: Option<Result<(), <T::Command as Command>::Error>>) {
        self.actions.push(Action::Redo);
        Some(Ok(()))
    }
}

} // verus!
