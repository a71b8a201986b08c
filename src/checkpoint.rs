use vstd::prelude::*;

use crate::command::{Command, Slot, Timeline};
use crate::history::{History, HistoryView};
use crate::queue::{has_node, Queue};
use crate::record::{chains, Record, RecordView};
use crate::storage::{capacity_of, shrink};

verus! {

/// A logged change, with what is needed to take it back.
enum Step<C> {
    /// A command was applied; the saved position and the redo tail from before.
    Apply(Option<usize>, Vec<C>),
    /// A command was applied and the oldest entry left for the limit; the saved
    /// position from before and that entry.
    Evict(Option<usize>, C),
    /// One command was undone.
    Undo,
    /// One command was redone.
    Redo,
    /// The cursor moved away from `(branch, current)`.
    GoTo(usize, usize),
}

/// A scope over a timeline that logs every change made through it, so that `cancel`
/// can take all of them back.
pub struct Checkpoint<'a, T: Timeline> {
    inner: &'a mut T,
    stack: Vec<Step<T::Command>>,
    log: Ghost<Seq<T>>,
    mark: usize,
}

/// The record went from `before` to `after` by `step`, and taking `step` back from
/// `after` gives `before` again.
spec fn reverts<C: Command>(step: Step<C>, before: RecordView<C::Target>, after: RecordView<C::Target>) -> bool {
    &&& before.wf()
    &&& match step {
        Step::Undo => before == (RecordView { current: after.current + 1, ..after }),
        Step::Redo => after.current > 0 && before == (RecordView {
            current: (after.current - 1) as nat,
            ..after
        }),
        Step::GoTo(_, p) => before == (RecordView { current: p as nat, ..after }),
        Step::Evict(saved, first) => {
            let c = before.current as int;
            &&& c == before.limit && c == before.len() && c >= 1
            &&& after.current == c
            &&& after.limit == before.limit
            &&& after.states.subrange(0, c) == before.states.subrange(1, c + 1)
            &&& before.saved == (match saved {
                Some(k) => Some(k as nat),
                None => None,
            })
            &&& first.steps(before.states[0], before.states[1])
        },
        Step::Apply(saved, tail) => {
            let c = before.current as int;
            &&& after.current == c + 1
            &&& after.limit == before.limit
            &&& after.states.subrange(0, c) == before.states.subrange(0, c)
            &&& after.states[c] == before.states[c]
            &&& before.saved == (match saved {
                Some(k) => Some(k as nat),
                None => None,
            })
            &&& chains(tail@, before.states.subrange(c, before.states.len() as int))
        },
    }
}

impl<'a, T: Timeline> Checkpoint<'a, T> {
    /// The timeline under the checkpoint, as it stands.
    pub closed spec fn base(&self) -> T {
        *self.inner
    }

    /// The reference through which the checkpoint reaches the timeline.
    pub closed spec fn handle(&self) -> &'a mut T {
        self.inner
    }

    /// The timeline as it was when the checkpoint was made.
    pub closed spec fn origin(&self) -> T {
        self.log@[0]
    }

    /// The number of changes logged.
    pub closed spec fn log_len(&self) -> nat {
        self.stack@.len()
    }


    /// Only the storage of the log differs from `other`.
    pub closed spec fn same_log(&self, other: &Self) -> bool {
        &&& self.inner == other.inner
        &&& self.stack@ == other.stack@
        &&& self.log == other.log
    }

    /// Nothing has been logged over the timeline as it stands.
    pub closed spec fn fresh(&self) -> bool {
        &&& self.stack@.len() == 0
        &&& self.log@ == seq![*self.inner]
    }

    /// Returns a checkpoint over `inner` that has logged nothing.
    pub fn new(inner: &'a mut T) -> (r: Checkpoint<'a, T>)
        ensures
            r.fresh(),
            r.log_len() == 0,
            r.origin() == *old(inner),
            r.base() == *old(inner),
            *final(r.handle()) == *final(inner),
    {
        let ghost first = seq![*inner];
        Checkpoint { inner, stack: Vec::new(), log: Ghost(first), mark: 0 }
    }

    /// Reserves room for at least `additional` more logged changes.
    pub fn reserve(&mut self, additional: usize)
        ensures
            final(self).same_log(old(self)),
    {
        self.stack.reserve(additional);
    }

    /// Returns how many changes the checkpoint can log without reallocating.
    pub fn capacity(&self) -> (r: usize)
        ensures
            r >= self.log_len(),
    {
        capacity_of(&self.stack)
    }

    /// Shrinks the storage of the log as much as possible.
    pub fn shrink_to_fit(&mut self)
        ensures
            final(self).same_log(old(self)),
    {
        shrink(&mut self.stack);
    }

    /// Keeps the changes and lets go of the timeline.
    pub fn commit(self)
        ensures
            *final(self.handle()) == self.base(),
    {
    }
}

impl<'a, C: Command, F: Slot> Checkpoint<'a, Record<C, F>> {
    /// Returns the number of changes logged.
    pub fn len(&self) -> (r: usize)
        ensures
            r == self.log_len(),
    {
        self.stack.len()
    }

    /// Returns `true` if no change has been logged.
    pub fn is_empty(&self) -> (r: bool)
        ensures
            r == (self.log_len() == 0),
    {
        self.stack.len() == 0
    }

    /// A checkpoint that has logged nothing over a well-formed record keeps its
    /// invariant.
    pub proof fn lemma_fresh_record(&self)
        requires
            self.fresh(),
            self.base().wf(),
        ensures
            self.record_wf(),
    {
    }

    /// The checkpoint's invariant over a record.
    pub open spec fn record_wf(&self) -> bool {
        &&& self.base().wf()
        &&& self.record_log_ok()
    }

    /// The log holds one view more than changes, the last being the record's own, and,
    /// each change can be taken back to the view before it.
    pub closed spec fn record_log_ok(&self) -> bool {
        &&& self.log@.len() == self.stack@.len() + 1
        &&& self.log@.last()@ == self.inner@
        &&& forall|i: int| 0 <= i < self.stack@.len() ==>
            #[trigger] reverts(self.stack@[i], self.log@[i]@, self.log@[i + 1]@)
    }

    /// Logs `step`, taken from the view `before`, which the log last held.
    proof fn lemma_push(
        old_cp: &Self,
        new_cp: &Self,
        step: Step<C>,
    )
        requires
            old_cp.record_wf(),
            new_cp.inner.wf(),
            new_cp.stack@ == old_cp.stack@.push(step),
            new_cp.log@ == old_cp.log@.push(*new_cp.inner),
            new_cp.log@[0] == old_cp.log@[0],
            reverts(step, old_cp.inner@, new_cp.inner@),
        ensures
            new_cp.record_wf(),
            forall|i: int| 0 <= i <= old_cp.log_len() ==> #[trigger] new_cp.logged(i) == old_cp.logged(i),
    {
        assert(new_cp.log@[0] == old_cp.log@[0]);
        assert forall|i: int| 0 <= i <= old_cp.log_len() implies #[trigger] new_cp.logged(i) == old_cp.logged(i) by {
            assert(new_cp.log@[i] == old_cp.log@[i]);
        }
        {
            assert forall|i: int| 0 <= i < new_cp.stack@.len() implies
                #[trigger] reverts(new_cp.stack@[i], new_cp.log@[i]@, new_cp.log@[i + 1]@) by {
                if i < old_cp.stack@.len() {
                    assert(new_cp.stack@[i] == old_cp.stack@[i]);
                    assert(new_cp.log@[i] == old_cp.log@[i]);
                    assert(new_cp.log@[i + 1] == old_cp.log@[i + 1]);
                    assert(reverts(old_cp.stack@[i], old_cp.log@[i]@, old_cp.log@[i + 1]@));
                }
            }
        }
    }

    /// Undoes one command on the record and logs it.
    pub fn undo(&mut self) -> (r: Option<Result<(), C::Error>>)
        requires
            old(self).record_wf(),
        ensures
            forall|i: int| 0 <= i <= old(self).log_len() ==> #[trigger] final(self).logged(i) == old(self).logged(i),
            final(self).record_wf(),
            final(self).origin() == old(self).origin(),
            *final(final(self).handle()) == *final(old(self).handle()),
            final(self).log_len() == old(self).log_len() + if r matches Some(Ok(_)) { 1int } else { 0 },
            r is None <==> old(self).base()@.current == 0,
            r matches Some(Ok(_)) ==> final(self).base()@ == (RecordView {
                current: (old(self).base()@.current - 1) as nat,
                ..old(self).base()@
            }),
            !(r matches Some(Ok(_))) ==> final(self).base()@ == old(self).base()@,
    {
        let ghost old_cp = *self;
        let r = self.inner.undo();
        if let Some(Ok(_)) = r {
            self.stack.push(Step::Undo);
            self.log = Ghost(self.log@.push(*self.inner));
            proof {
                Self::lemma_push(&old_cp, self, Step::Undo);
            }
        }
        r
    }

    /// Redoes one command on the record and logs it.
    pub fn redo(&mut self) -> (r: Option<Result<(), C::Error>>)
        requires
            old(self).record_wf(),
        ensures
            forall|i: int| 0 <= i <= old(self).log_len() ==> #[trigger] final(self).logged(i) == old(self).logged(i),
            final(self).record_wf(),
            final(self).origin() == old(self).origin(),
            *final(final(self).handle()) == *final(old(self).handle()),
            final(self).log_len() == old(self).log_len() + if r matches Some(Ok(_)) { 1int } else { 0 },
            r is None <==> old(self).base()@.current == old(self).base()@.len(),
            r matches Some(Ok(_)) ==> final(self).base()@ == (RecordView {
                current: old(self).base()@.current + 1,
                ..old(self).base()@
            }),
            !(r matches Some(Ok(_))) ==> final(self).base()@ == old(self).base()@,
    {
        let ghost old_cp = *self;
        let r = self.inner.redo();
        if let Some(Ok(_)) = r {
            self.stack.push(Step::Redo);
            self.log = Ghost(self.log@.push(*self.inner));
            proof {
                Self::lemma_push(&old_cp, self, Step::Redo);
            }
        }
        r
    }

    /// Applies `command` to the record and logs it, with the redo tail it replaced, or
    /// the oldest entry where that left for the limit. Through a checkpoint a command is
    /// never folded into the one before, so that it can be taken back exactly.
    pub fn apply(&mut self, command: C) -> (r: Result<(), C::Error>)
        requires
            old(self).record_wf(),
        ensures
            forall|i: int| 0 <= i <= old(self).log_len() ==> #[trigger] final(self).logged(i) == old(self).logged(i),
            final(self).record_wf(),
            final(self).origin() == old(self).origin(),
            *final(final(self).handle()) == *final(old(self).handle()),
            r is Err ==> final(self).base()@ == old(self).base()@,
            r is Ok ==> final(self).base()@.pushed(old(self).base()@, final(self).base()@.target()),
            r is Ok ==> forall|t: C::Target| #[trigger] command.steps(old(self).base()@.target(), t)
                ==> final(self).base()@.target() == t,
            final(self).log_len() == old(self).log_len() + if r is Ok { 1int } else { 0 },
    {
        let ghost old_cp = *self;
        let saved = self.inner.saved_at();
        let c = self.inner.current();
        match self.inner.apply_entry(command, false) {
            Err(e) => Err(e),
            Ok((merged, tail, evicted)) => {
                let step = match evicted {
                    Some(first) => Step::Evict(saved, first),
                    None => Step::Apply(saved, tail),
                };
                self.stack.push(step);
                self.log = Ghost(self.log@.push(*self.inner));
                proof {
                    {
                        let before = old_cp.inner@;
                        let after = self.inner@;
                        if step is Evict {
                            assert(after.states.subrange(0, c as int) =~= before.states.subrange(1, c + 1));
                        } else {
                            assert(after.states.subrange(0, c as int) =~= before.states.subrange(0, c as int));
                        }
                        assert(reverts(step, before, after));
                    }
                    Self::lemma_push(&old_cp, self, step);
                }
                Ok(())
            },
        }
    }

    /// Moves the record's cursor to `current` and logs where it came from, also where a
    /// command failed part of the way, so that `cancel` takes the partial walk back.
    pub fn go_to(&mut self, current: usize) -> (r: Option<Result<(), C::Error>>)
        requires
            old(self).record_wf(),
        ensures
            forall|i: int| 0 <= i <= old(self).log_len() ==> #[trigger] final(self).logged(i) == old(self).logged(i),
            current == old(self).base()@.current ==> (r matches Some(Ok(_))) && final(self).base()@ == old(self).base()@,
            final(self).record_wf(),
            final(self).origin() == old(self).origin(),
            final(self).log_len() == old(self).log_len() + if r is Some { 1int } else { 0 },
            *final(final(self).handle()) == *final(old(self).handle()),
            r is None <==> current > old(self).base()@.len(),
            final(self).base()@ == (RecordView { current: final(self).base()@.current, ..old(self).base()@ }),
            r matches Some(Ok(_)) ==> final(self).base()@.current == current,
    {
        let ghost old_cp = *self;
        let prior = self.inner.current();
        let r = self.inner.go_to(current);
        if r.is_some() {
            self.stack.push(Step::GoTo(0, prior));
            self.log = Ghost(self.log@.push(*self.inner));
            proof {
                Self::lemma_push(&old_cp, self, Step::GoTo(0, prior));
            }
        }
        r
    }

    /// Applies each command of `commands` in order, as `apply` does, and stops at the
    /// first error, which it returns.
    pub fn extend(&mut self, commands: Vec<C>) -> (r: Result<(), C::Error>)
        requires
            old(self).record_wf(),
        ensures
            final(self).record_wf(),
            final(self).origin() == old(self).origin(),
            *final(final(self).handle()) == *final(old(self).handle()),
            exists|trace: Seq<RecordView<C::Target>>| {
                &&& trace.len() >= 1
                &&& trace.len() <= commands@.len() + 1
                &&& r is Ok ==> trace.len() == commands@.len() + 1
                &&& final(self).log_len() == old(self).log_len() + trace.len() - 1
                &&& trace[0] == old(self).base()@
                &&& trace.last() == final(self).base()@
                &&& forall|i: int| 0 <= i < trace.len() - 1 ==>
                    (#[trigger] trace[i + 1]).pushed(trace[i], trace[i + 1].target())
                &&& forall|i: int, t: C::Target| 0 <= i < trace.len() - 1 && #[trigger] commands@[i].steps(trace[i].target(), t)
                    ==> trace[i + 1].target() == t
            },
    {
        let mut rest = commands;
        let ghost n = rest@.len();
        let ghost mut trace = seq![self.base()@];
        while rest.len() > 0
            invariant
                self.record_wf(),
                self.origin() == old(self).origin(),
                *final(self.handle()) == *final(old(self).handle()),
                rest@.len() <= n,
                n == commands@.len(),
                rest@ == commands@.subrange(n - rest@.len(), n as int),
                trace.len() == n - rest@.len() + 1,
                self.log_len() == old(self).log_len() + trace.len() - 1,
                trace[0] == old(self).base()@,
                trace.last() == self.base()@,
                forall|i: int| 0 <= i < trace.len() - 1 ==>
                    (#[trigger] trace[i + 1]).pushed(trace[i], trace[i + 1].target()),
                forall|i: int, t: C::Target| 0 <= i < trace.len() - 1 && #[trigger] commands@[i].steps(trace[i].target(), t)
                    ==> trace[i + 1].target() == t,
            decreases rest@.len(),
        {
            let command = rest.remove(0);
            let ghost before = trace;
            let ghost c = command;
            if let Err(e) = self.apply(command) {
                return Err(e);
            }
            proof {
                trace = trace.push(self.base()@);
                let last = trace.len() - 2;
                assert(c == commands@[last]);
                assert forall|i: int| 0 <= i < trace.len() - 1 implies
                    (#[trigger] trace[i + 1]).pushed(trace[i], trace[i + 1].target()) by {
                    if i < last {
                        assert(trace[i] == before[i]);
                        assert(trace[i + 1] == before[i + 1]);
                    }
                }
                assert forall|i: int, t: C::Target| 0 <= i < trace.len() - 1 && #[trigger] commands@[i].steps(trace[i].target(), t)
                    implies trace[i + 1].target() == t by {
                    if i < last {
                        assert(trace[i] == before[i]);
                        assert(trace[i + 1] == before[i + 1]);
                    }
                }
            }
        }
        Ok(())
    }

    /// The view the log holds after its `i`th change, the origin being the 0th.
    pub closed spec fn logged(&self, i: int) -> RecordView<C::Target> {
        self.log@[i]@
    }

    /// Takes back logged changes, newest first, until `m` are left.
    ///
    /// On an error the step that failed stays logged, with the part of a walk it made,
    /// so that the log still takes the record back to where it was.
    pub(crate) fn rollback_to(&mut self, m: usize) -> (r: Result<(), C::Error>)
        requires
            old(self).record_wf(),
            m <= old(self).log_len(),
        ensures
            final(self).record_wf(),
            final(self).origin() == old(self).origin(),
            *final(final(self).handle()) == *final(old(self).handle()),
            final(self).log_len() >= m,
            forall|i: int| 0 <= i <= m ==> #[trigger] final(self).logged(i) == old(self).logged(i),
            old(self).log_len() == m ==> r is Ok && *final(self) == *old(self),
            r is Ok ==> final(self).log_len() == m && final(self).base()@ == old(self).logged(m as int),
            r is Err ==> exists|j: int| m < j <= old(self).log_len() && final(self).base()@ == (RecordView {
                current: final(self).base()@.current,
                ..#[trigger] old(self).logged(j)
            }),
    {
        while self.stack.len() > m
            invariant
                self.record_wf(),
                self.origin() == old(self).origin(),
                *final(self.handle()) == *final(old(self).handle()),
                m <= self.log_len() <= old(self).log_len(),
                forall|i: int| 0 <= i <= self.log_len() ==> #[trigger] self.logged(i) == old(self).logged(i),
                self.log_len() == old(self).log_len() ==> *self == *old(self),
            decreases self.stack@.len(),
        {
            let ghost prev = *self;
            let ghost k = self.stack@.len() - 1;
            let step = self.stack.pop().unwrap();
            self.log = Ghost(self.log@.drop_last());
            proof {
                assert(step == prev.stack@[k]);
                assert(reverts(prev.stack@[k], prev.log@[k]@, prev.log@[k + 1]@));
                assert(prev.logged(k + 1) == old(self).logged(k + 1));
                assert forall|i: int| 0 <= i < self.stack@.len() implies
                    #[trigger] reverts(self.stack@[i], self.log@[i]@, self.log@[i + 1]@) by {
                    assert(reverts(prev.stack@[i], prev.log@[i]@, prev.log@[i + 1]@));
                    assert(self.stack@[i] == prev.stack@[i]);
                    assert(self.log@[i] == prev.log@[i]);
                    assert(self.log@[i + 1] == prev.log@[i + 1]);
                }
            }
            let ghost before = prev.log@[k]@;
            let failed: Option<C::Error> = match step {
                Step::Apply(saved, tail) => match self.inner.undo() {
                    Some(Err(e)) => {
                        self.stack.push(Step::Apply(saved, tail));
                        self.log = Ghost(prev.log@);
                        Some(e)
                    },
                    _ => {
                        let ghost c = before.current;
                        let ghost tail_states = before.states.subrange(c as int, before.states.len() as int);
                        self.inner.restore_tail(tail, saved, Ghost(tail_states));
                        proof {
                            assert(self.inner@.states =~= before.states);
                        }
                        None
                    },
                },
                Step::Evict(saved, first) => match self.inner.undo() {
                    Some(Err(e)) => {
                        self.stack.push(Step::Evict(saved, first));
                        self.log = Ghost(prev.log@);
                        Some(e)
                    },
                    _ => {
                        let ghost here = seq![self.inner@.target()];
                        self.inner.restore_tail(Vec::new(), None, Ghost(here));
                        proof {
                            assert(self.inner@.states =~= before.states.subrange(1, before.states.len() as int));
                        }
                        self.inner.restore_front(first, saved, Ghost(before.states[0]));
                        proof {
                            assert(self.inner@.states =~= before.states);
                        }
                        None
                    },
                },
                Step::Undo => match self.inner.redo() {
                    Some(Err(e)) => {
                        self.stack.push(Step::Undo);
                        self.log = Ghost(prev.log@);
                        Some(e)
                    },
                    _ => None,
                },
                Step::Redo => match self.inner.undo() {
                    Some(Err(e)) => {
                        self.stack.push(Step::Redo);
                        self.log = Ghost(prev.log@);
                        Some(e)
                    },
                    _ => None,
                },
                Step::GoTo(branch, current) => {
                    let at = self.inner.current();
                    match self.inner.go_to(current) {
                        Some(Err(e)) => {
                            self.stack.push(Step::GoTo(branch, current));
                            self.log = Ghost(prev.log@);
                            self.stack.push(Step::GoTo(0, at));
                            self.log = Ghost(self.log@.push(*self.inner));
                            proof {
                                assert forall|i: int| 0 <= i < self.stack@.len() implies
                                    #[trigger] reverts(self.stack@[i], self.log@[i]@, self.log@[i + 1]@) by {
                                    if i < k + 1 {
                                        assert(self.stack@[i] == prev.stack@[i]);
                                        assert(self.log@[i] == prev.log@[i]);
                                        assert(self.log@[i + 1] == prev.log@[i + 1]);
                                        assert(reverts(prev.stack@[i], prev.log@[i]@, prev.log@[i + 1]@));
                                    }
                                }
                            }
                            Some(e)
                        },
                        _ => None,
                    }
                },
            };
            if let Some(e) = failed {
                proof {
                    assert(old(self).logged(k + 1) == prev.log@[k + 1]@);
                    assert forall|i: int| 0 <= i <= m implies #[trigger] self.logged(i) == old(self).logged(i) by {
                        assert(prev.logged(i) == old(self).logged(i));
                        assert(self.log@[i] == prev.log@[i]);
                    }
                }
                return Err(e);
            }
            proof {
                assert(self.inner@ == self.log@.last()@);
                assert forall|i: int| 0 <= i <= self.log_len() implies #[trigger] self.logged(i) == old(self).logged(i) by {
                    assert(prev.logged(i) == old(self).logged(i));
                    assert(self.log@[i] == prev.log@[i]);
                }
            }
        }
        proof {
            assert(self.base()@ == self.logged(m as int));
        }
        Ok(())
    }

    /// Takes back every logged change, newest first, and lets go of the record.
    ///
    /// Where no error comes, the record is back at the view it had when the checkpoint
    /// was made. Otherwise the first error is returned: the changes after some logged
    /// view were taken back, taking back the one before it failed, which may have moved
    /// only the cursor, and the older ones were left alone.
    pub fn cancel(self) -> (r: Result<(), C::Error>)
        requires
            self.record_wf(),
        ensures
            (*final(self.handle())).wf(),
            self.log_len() == 0 ==> r is Ok && *final(self.handle()) == self.base(),
            r is Ok ==> (*final(self.handle()))@ == self.origin()@,
            r is Err ==> exists|j: int| 1 <= j <= self.log_len() && (*final(self.handle()))@ == (RecordView {
                current: (*final(self.handle()))@.current,
                ..#[trigger] self.logged(j)
            }),
    {
        let mut cp = self;
        let r = cp.rollback_to(0);
        proof {
            assert(self.logged(0) == self.origin()@);
        }
        r
    }

    /// Returns a queue over the same record; this checkpoint does not log what it does.
    pub fn queue(&mut self) -> (r: Queue<'_, Record<C, F>>)
        requires
            old(self).record_wf(),
        ensures
            r.pending().len() == 0,
            r.base() == old(self).base(),
            *final(r.handle()) == final(self).base(),
            final(self).origin() == old(self).origin(),
            final(self).log_len() == old(self).log_len(),
            *final(final(self).handle()) == *final(old(self).handle()),
            final(self).base().wf() && final(self).base()@ == old(self).base()@ ==> final(self).record_wf(),
    {
        self.inner.queue()
    }

    /// Returns a checkpoint nested in this one: what goes through it is logged here,
    /// and its `cancel` takes back only what was logged since it was made.
    pub fn checkpoint(&mut self) -> (r: Checkpoint<'_, Checkpoint<'a, Record<C, F>>>)
        requires
            old(self).record_wf(),
        ensures
            r.nested_wf(),
            r.len_spec() == 0,
            r.origin() == *old(self),
            r.base() == *old(self),
            *final(r.handle()) == *final(self),
    {
        Checkpoint::nest(self)
    }

    /// Returns a reference to the target.
    pub fn target(&self) -> (r: &C::Target)
        requires
            self.record_wf(),
        ensures
            *r == self.base()@.target(),
    {
        self.inner.target()
    }

    /// Returns a mutable reference to the target; see `Record::target_mut`.
    pub fn target_mut(&mut self) -> (r: &mut C::Target)
        requires
            old(self).record_wf(),
        ensures
            *r == old(self).base()@.target(),
            final(self).base().target_value() == *final(r),
            final(self).base()@ == old(self).base()@,
            final(self).log_len() == old(self).log_len(),
            final(self).origin() == old(self).origin(),
    {
        self.inner.target_mut()
    }
}

impl<'b, 'a, C: Command, F: Slot> Checkpoint<'b, Checkpoint<'a, Record<C, F>>> {
    /// The invariant of a checkpoint nested in one over a record: the outer one keeps
    /// its own, and its log still passes through the view this one was made at.
    pub open spec fn nested_wf(&self) -> bool {
        &&& self.base().record_wf()
        &&& self.nest_ok()
    }

    /// The outer log has at least the changes it had when this checkpoint was made, and
    /// the view it held then is the one this checkpoint started from.
    pub closed spec fn nest_ok(&self) -> bool {
        &&& self.log@.len() == 1
        &&& self.stack@.len() == 0
        &&& self.mark <= self.inner.log_len()
        &&& self.inner.logged(self.mark as int) == self.log@[0].base()@
        &&& self.inner.origin() == self.log@[0].origin()
        &&& self.log@[0].record_wf()
    }

    /// The number of changes made through this checkpoint.
    pub closed spec fn len_spec(&self) -> int {
        self.inner.log_len() - self.mark
    }

    /// Returns a checkpoint nested in `outer`, starting where its log stands.
    fn nest(outer: &'b mut Checkpoint<'a, Record<C, F>>) -> (r: Self)
        requires
            old(outer).record_wf(),
        ensures
            r.nested_wf(),
            r.len_spec() == 0,
            r.origin() == *old(outer),
            r.base() == *old(outer),
            *final(r.handle()) == *final(outer),
    {
        let mark = outer.stack.len();
        let ghost first = seq![*outer];
        Checkpoint { inner: outer, stack: Vec::new(), log: Ghost(first), mark }
    }

    /// A change made through the outer checkpoint keeps this one's invariant.
    proof fn lemma_kept(old_cp: &Self, new_cp: &Self)
        requires
            old_cp.nested_wf(),
            new_cp.base().record_wf(),
            new_cp.mark == old_cp.mark,
            new_cp.log == old_cp.log,
            new_cp.stack@.len() == 0,
            new_cp.base().origin() == old_cp.base().origin(),
            new_cp.base().log_len() >= old_cp.base().log_len(),
            forall|i: int| 0 <= i <= old_cp.base().log_len() ==> #[trigger] new_cp.base().logged(i) == old_cp.base().logged(i),
        ensures
            new_cp.nested_wf(),
            new_cp.len_spec() >= old_cp.len_spec(),
    {
        assert(new_cp.base().logged(old_cp.mark as int) == old_cp.base().logged(old_cp.mark as int));
    }

    /// Returns the number of changes made through this checkpoint.
    pub fn len(&self) -> (r: usize)
        requires
            self.nested_wf(),
        ensures
            r == self.len_spec(),
    {
        self.inner.len() - self.mark
    }

    /// Returns `true` if no change has been made through this checkpoint.
    pub fn is_empty(&self) -> (r: bool)
        requires
            self.nested_wf(),
        ensures
            r == (self.len_spec() == 0),
    {
        self.inner.len() == self.mark
    }

    /// Applies `command` through the outer checkpoint, which logs it.
    pub fn apply(&mut self, command: C) -> (r: Result<(), C::Error>)
        requires
            old(self).nested_wf(),
        ensures
            final(self).nested_wf(),
            final(self).origin() == old(self).origin(),
            *final(final(self).handle()) == *final(old(self).handle()),
            r is Err ==> final(self).base().base()@ == old(self).base().base()@,
            r is Ok ==> final(self).base().base()@.pushed(old(self).base().base()@, final(self).base().base()@.target()),
            r is Ok ==> forall|t: C::Target| #[trigger] command.steps(old(self).base().base()@.target(), t)
                ==> final(self).base().base()@.target() == t,
            final(self).len_spec() == old(self).len_spec() + if r is Ok { 1int } else { 0 },
    {
        let ghost old_cp = *self;
        let r = self.inner.apply(command);
        proof {
            Self::lemma_kept(&old_cp, self);
        }
        r
    }

    /// Undoes one command through the outer checkpoint, which logs it.
    pub fn undo(&mut self) -> (r: Option<Result<(), C::Error>>)
        requires
            old(self).nested_wf(),
        ensures
            final(self).nested_wf(),
            final(self).origin() == old(self).origin(),
            *final(final(self).handle()) == *final(old(self).handle()),
            r is None <==> old(self).base().base()@.current == 0,
            r matches Some(Ok(_)) ==> final(self).base().base()@ == (RecordView {
                current: (old(self).base().base()@.current - 1) as nat,
                ..old(self).base().base()@
            }),
            !(r matches Some(Ok(_))) ==> final(self).base().base()@ == old(self).base().base()@,
    {
        let ghost old_cp = *self;
        let r = self.inner.undo();
        proof {
            Self::lemma_kept(&old_cp, self);
        }
        r
    }

    /// Redoes one command through the outer checkpoint, which logs it.
    pub fn redo(&mut self) -> (r: Option<Result<(), C::Error>>)
        requires
            old(self).nested_wf(),
        ensures
            final(self).nested_wf(),
            final(self).origin() == old(self).origin(),
            *final(final(self).handle()) == *final(old(self).handle()),
            r is None <==> old(self).base().base()@.current == old(self).base().base()@.len(),
            r matches Some(Ok(_)) ==> final(self).base().base()@ == (RecordView {
                current: old(self).base().base()@.current + 1,
                ..old(self).base().base()@
            }),
            !(r matches Some(Ok(_))) ==> final(self).base().base()@ == old(self).base().base()@,
    {
        let ghost old_cp = *self;
        let r = self.inner.redo();
        proof {
            Self::lemma_kept(&old_cp, self);
        }
        r
    }

    /// Moves the cursor to `current` through the outer checkpoint, which logs it.
    pub fn go_to(&mut self, current: usize) -> (r: Option<Result<(), C::Error>>)
        requires
            old(self).nested_wf(),
        ensures
            final(self).nested_wf(),
            final(self).origin() == old(self).origin(),
            *final(final(self).handle()) == *final(old(self).handle()),
            r is None <==> current > old(self).base().base()@.len(),
            final(self).base().base()@ == (RecordView {
                current: final(self).base().base()@.current,
                ..old(self).base().base()@
            }),
            r matches Some(Ok(_)) ==> final(self).base().base()@.current == current,
    {
        let ghost old_cp = *self;
        let r = self.inner.go_to(current);
        proof {
            Self::lemma_kept(&old_cp, self);
        }
        r
    }

    /// Takes back what was logged through this checkpoint, newest first, and lets go
    /// of the outer one.
    ///
    /// Where no error comes, the record is back at the view it had when this checkpoint
    /// was made, and the outer log as it was then. Either way the outer checkpoint keeps
    /// its invariant, so that it can still be cancelled or committed.
    pub fn cancel(self) -> (r: Result<(), C::Error>)
        requires
            self.nested_wf(),
        ensures
            (*final(self.handle())).record_wf(),
            (*final(self.handle())).origin() == self.base().origin(),
            self.len_spec() == 0 ==> r is Ok && *final(self.handle()) == self.base(),
            r is Ok ==> (*final(self.handle())).base()@ == self.origin().base()@
                && (*final(self.handle())).log_len() == self.base().log_len() - self.len_spec(),
    {
        let Checkpoint { inner, stack, log, mark } = self;
        inner.rollback_to(mark)
    }

    /// Returns a reference to the target.
    pub fn target(&self) -> (r: &C::Target)
        requires
            self.nested_wf(),
        ensures
            *r == self.base().base()@.target(),
    {
        self.inner.target()
    }

    /// Returns a checkpoint nested in this one, logging through the same outer
    /// checkpoint.
    pub fn checkpoint(&mut self) -> (r: Checkpoint<'_, Checkpoint<'a, Record<C, F>>>)
        requires
            old(self).nested_wf(),
        ensures
            r.nested_wf(),
            r.len_spec() == 0,
            r.base() == old(self).base(),
            r.origin() == old(self).base(),
            *final(r.handle()) == final(self).base(),
            final(self).origin() == old(self).origin(),
            *final(final(self).handle()) == *final(old(self).handle()),
            final(self).base().record_wf() && final(self).base().origin() == old(self).base().origin()
                && final(self).base().log_len() >= old(self).base().log_len()
                && (forall|i: int| 0 <= i <= old(self).base().log_len() ==>
                    #[trigger] final(self).base().logged(i) == old(self).base().logged(i))
                ==> final(self).nested_wf(),
    {
        let ghost old_cp = *self;
        let r = Checkpoint::nest(&mut *self.inner);
        proof {
            assert(old_cp.base().logged(old_cp.mark as int) == old_cp.base().logged(old_cp.mark as int));
        }
        r
    }
}

impl<C: Command, F: Slot> Record<C, F> {
    /// Returns a checkpoint over the record.
    pub fn checkpoint(&mut self) -> (r: Checkpoint<'_, Record<C, F>>)
        requires
            old(self).wf(),
        ensures
            r.record_wf(),
            r.log_len() == 0,
            r.origin() == *old(self),
            r.base() == *old(self),
            *final(r.handle()) == *final(self),
    {
        Checkpoint::new(self)
    }
}

impl<'a, C: Command, F: Slot> Queue<'a, Record<C, F>> {
    /// Returns a checkpoint over the same record, independent of this queue.
    pub fn checkpoint(&mut self) -> (r: Checkpoint<'_, Record<C, F>>)
        requires
            old(self).base().wf(),
        ensures
            r.record_wf(),
            r.log_len() == 0,
            r.origin() == old(self).base(),
            r.base() == old(self).base(),
            *final(r.handle()) == final(self).base(),
            final(self).pending() == old(self).pending(),
            *final(final(self).handle()) == *final(old(self).handle()),
    {
        self.reborrow().checkpoint()
    }
}

impl<'a, C: Command, F: Slot> Timeline for Checkpoint<'a, Record<C, F>> {
    type Command = C;

    open spec fn ready(&self) -> bool {
        self.record_wf()
    }

    fn apply(&mut self, command: C) -> (r: Result<(), C::Error>) {
        Checkpoint::<'a, Record<C, F>>::apply(self, command)
    }

    fn undo(&mut self) -> (r: Option<Result<(), C::Error>>) {
        Checkpoint::<'a, Record<C, F>>::undo(self)
    }

    fn redo(&mut self) -> (r: Option<Result<(), C::Error>>) {
        Checkpoint::<'a, Record<C, F>>::redo(self)
    }
}

impl<'a, C: Command, F: Slot> Checkpoint<'a, History<C, F>> {
    /// Returns the number of changes logged.
    pub fn len(&self) -> (r: usize)
        ensures
            r == self.log_len(),
    {
        self.stack.len()
    }

    /// Returns `true` if no change has been logged.
    pub fn is_empty(&self) -> (r: bool)
        ensures
            r == (self.log_len() == 0),
    {
        self.stack.len() == 0
    }

    /// A checkpoint that has logged nothing over a well-formed history keeps its
    /// invariant.
    pub proof fn lemma_fresh_history(&self)
        requires
            self.fresh(),
            self.base().wf(),
        ensures
            self.history_wf(),
    {
    }

    /// The checkpoint's invariant over a history.
    pub open spec fn history_wf(&self) -> bool {
        &&& self.base().wf()
        &&& self.history_log_ok()
    }

    /// Every logged change is a move away from a node, and the first one is the move
    /// away from the node the checkpoint was made at; before any change the history is
    /// still there.
    pub closed spec fn history_log_ok(&self) -> bool {
        &&& self.log@.len() == 1
        &&& self.log@[0]@.wf()
        &&& forall|i: int| 0 <= i < self.stack@.len() ==> (#[trigger] self.stack@[i]) is GoTo
        &&& self.stack@.len() == 0 ==> self.inner@ == self.log@[0]@
        &&& self.stack@.len() > 0 ==> self.stack@[0] == Step::<C>::GoTo(
            self.log@[0]@.root, self.log@[0]@.record.current as usize)
    }

    /// Logs the move away from the node the history was at.
    proof fn lemma_log(old_cp: &Self, new_cp: &Self, step: Step<C>)
        requires
            old_cp.history_wf(),
            new_cp.inner.wf(),
            step == Step::<C>::GoTo(old_cp.inner@.root, old_cp.inner@.record.current as usize),
            new_cp.stack@ == old_cp.stack@.push(step),
            new_cp.log == old_cp.log,
        ensures
            new_cp.history_wf(),
    {
        assert forall|i: int| 0 <= i < new_cp.stack@.len() implies (#[trigger] new_cp.stack@[i]) is GoTo by {
            if i < old_cp.stack@.len() {
                assert(new_cp.stack@[i] == old_cp.stack@[i]);
            }
        }
        if old_cp.stack@.len() > 0 {
            assert(new_cp.stack@[0] == old_cp.stack@[0]);
        }
    }

    /// Applies `command` to the history and logs the node it left.
    pub fn apply(&mut self, command: C) -> (r: Result<(), C::Error>)
        requires
            old(self).history_wf(),
        ensures
            final(self).history_wf(),
            final(self).origin() == old(self).origin(),
            *final(final(self).handle()) == *final(old(self).handle()),
            r is Err ==> final(self).base()@ == old(self).base()@,
            r is Ok ==> History::<C, F>::applied(final(self).base()@, old(self).base()@, command),
            final(self).log_len() == old(self).log_len() + if r is Ok { 1int } else { 0 },
    {
        let ghost old_cp = *self;
        let root = self.inner.branch();
        let current = self.inner.current();
        match self.inner.apply(command) {
            Err(e) => Err(e),
            Ok(()) => {
                self.stack.push(Step::GoTo(root, current));
                    proof {
                    Self::lemma_log(&old_cp, self, Step::GoTo(root, current));
                }
                Ok(())
            },
        }
    }

    /// Undoes one command on the history and logs it.
    pub fn undo(&mut self) -> (r: Option<Result<(), C::Error>>)
        requires
            old(self).history_wf(),
        ensures
            final(self).history_wf(),
            final(self).origin() == old(self).origin(),
            *final(final(self).handle()) == *final(old(self).handle()),
            final(self).log_len() == old(self).log_len() + if r matches Some(Ok(_)) { 1int } else { 0 },
            r is None <==> old(self).base()@.record.current == 0,
            r matches Some(Ok(_)) ==> final(self).base()@ == (HistoryView {
                record: RecordView { current: (old(self).base()@.record.current - 1) as nat, ..old(self).base()@.record },
                ..old(self).base()@
            }),
            !(r matches Some(Ok(_))) ==> final(self).base()@ == old(self).base()@,
    {
        let ghost old_cp = *self;
        let root = self.inner.branch();
        let prior = self.inner.current();
        let r = self.inner.undo();
        if let Some(Ok(_)) = r {
            self.stack.push(Step::GoTo(root, prior));
            proof {
                Self::lemma_log(&old_cp, self, Step::GoTo(root, prior));
            }
        }
        r
    }

    /// Redoes one command on the history and logs it.
    pub fn redo(&mut self) -> (r: Option<Result<(), C::Error>>)
        requires
            old(self).history_wf(),
        ensures
            final(self).history_wf(),
            final(self).origin() == old(self).origin(),
            *final(final(self).handle()) == *final(old(self).handle()),
            final(self).log_len() == old(self).log_len() + if r matches Some(Ok(_)) { 1int } else { 0 },
            r is None <==> old(self).base()@.record.current == old(self).base()@.record.len(),
            r matches Some(Ok(_)) ==> final(self).base()@ == (HistoryView {
                record: RecordView { current: old(self).base()@.record.current + 1, ..old(self).base()@.record },
                ..old(self).base()@
            }),
            !(r matches Some(Ok(_))) ==> final(self).base()@ == old(self).base()@,
    {
        let ghost old_cp = *self;
        let root = self.inner.branch();
        let prior = self.inner.current();
        let r = self.inner.redo();
        if let Some(Ok(_)) = r {
            self.stack.push(Step::GoTo(root, prior));
            proof {
                Self::lemma_log(&old_cp, self, Step::GoTo(root, prior));
            }
        }
        r
    }

    /// Goes to the node `current` of `branch` and logs the node it left, also where a
    /// command failed part of the way, so that `cancel` takes the partial walk back.
    pub fn go_to(&mut self, branch: usize, current: usize) -> (r: Option<Result<(), C::Error>>)
        requires
            old(self).history_wf(),
        ensures
            final(self).history_wf(),
            final(self).origin() == old(self).origin(),
            *final(final(self).handle()) == *final(old(self).handle()),
            final(self).log_len() == old(self).log_len() + if r is Some { 1int } else { 0 },
            r is None ==> final(self).base()@ == old(self).base()@,
            r matches Some(Ok(_)) ==> final(self).base()@.root == branch
                && final(self).base()@.record.current == current,
    {
        let ghost old_cp = *self;
        let root = self.inner.branch();
        let prior = self.inner.current();
        let r = self.inner.go_to(branch, current);
        if r.is_some() {
            self.stack.push(Step::GoTo(root, prior));
            proof {
                Self::lemma_log(&old_cp, self, Step::GoTo(root, prior));
            }
        }
        r
    }

    /// Applies each command of `commands` in order, as `apply` does, and stops at the
    /// first error, which it returns.
    pub fn extend(&mut self, commands: Vec<C>) -> (r: Result<(), C::Error>)
        requires
            old(self).history_wf(),
        ensures
            final(self).history_wf(),
            final(self).origin() == old(self).origin(),
            *final(final(self).handle()) == *final(old(self).handle()),
            r is Ok ==> final(self).log_len() == old(self).log_len() + commands@.len(),
            exists|trace: Seq<HistoryView<C::Target>>| {
                &&& trace.len() >= 1
                &&& trace.len() <= commands@.len() + 1
                &&& r is Ok ==> trace.len() == commands@.len() + 1
                &&& trace[0] == old(self).base()@
                &&& trace.last() == final(self).base()@
                &&& forall|i: int| 0 <= i < trace.len() - 1 ==>
                    #[trigger] History::<C, F>::applied(trace[i + 1], trace[i], commands@[i])
            },
    {
        let mut rest = commands;
        let ghost n = rest@.len();
        let ghost mut trace = seq![self.base()@];
        while rest.len() > 0
            invariant
                self.history_wf(),
                self.origin() == old(self).origin(),
                *final(self.handle()) == *final(old(self).handle()),
                rest@.len() <= n,
                n == commands@.len(),
                rest@ == commands@.subrange(n - rest@.len(), n as int),
                self.log_len() == old(self).log_len() + (n - rest@.len()),
                trace.len() == n - rest@.len() + 1,
                trace[0] == old(self).base()@,
                trace.last() == self.base()@,
                forall|i: int| 0 <= i < trace.len() - 1 ==>
                    #[trigger] History::<C, F>::applied(trace[i + 1], trace[i], commands@[i]),
            decreases rest@.len(),
        {
            let command = rest.remove(0);
            let ghost before = trace;
            let ghost c = command;
            if let Err(e) = self.apply(command) {
                return Err(e);
            }
            proof {
                trace = trace.push(self.base()@);
                let last = trace.len() - 2;
                assert(c == commands@[last]);
                assert forall|i: int| 0 <= i < trace.len() - 1 implies
                    #[trigger] History::<C, F>::applied(trace[i + 1], trace[i], commands@[i]) by {
                    if i < last {
                        assert(trace[i] == before[i]);
                        assert(trace[i + 1] == before[i + 1]);
                    }
                }
            }
        }
        Ok(())
    }

    /// The history stands at the node the checkpoint was made at, or that node is gone.
    pub open spec fn back_at_origin(&self, h: HistoryView<C::Target>) -> bool {
        let o = self.origin()@;
        ||| h.root == o.root && h.record.current == o.record.current
        ||| !has_node(h, o.root, o.record.current as usize)
    }

    /// Takes back every logged change, newest first, by going back to the node it
    /// left, and lets go of the history.
    ///
    /// Stops at the first error, which it returns. Where none comes, the history is
    /// back at the node the checkpoint was made at, unless that node has been pruned.
    pub fn cancel(self) -> (r: Result<(), C::Error>)
        requires
            self.history_wf(),
        ensures
            (*final(self.handle())).wf(),
            self.log_len() == 0 ==> r is Ok && *final(self.handle()) == self.base(),
            r is Ok ==> self.back_at_origin((*final(self.handle()))@),
    {
        let Checkpoint { inner, stack, log, mark } = self;
        let mut stack = stack;
        proof {
            assert(stack@ =~= self.stack@.subrange(0, stack@.len() as int));
        }
        while stack.len() > 0
            invariant
                inner.wf(),
                *final(inner) == *final(self.handle()),
                stack@.len() <= self.stack@.len(),
                stack@ == self.stack@.subrange(0, stack@.len() as int),
                self.history_log_ok(),
                stack@.len() == self.stack@.len() ==> *inner == self.base(),
                stack@.len() == 0 ==> self.back_at_origin(inner@),
            decreases stack@.len(),
        {
            let ghost before_pop = stack@;
            let step = stack.pop().unwrap();
            proof {
                assert(step == self.stack@[stack@.len() as int]);
                assert(self.stack@[stack@.len() as int] is GoTo);
                assert(stack@ =~= self.stack@.subrange(0, stack@.len() as int));
            }
            match step {
                Step::GoTo(branch, current) => {
                    let ghost before = inner@;
                    let r = inner.go_to(branch, current);
                    if let Some(Err(e)) = r {
                        return Err(e);
                    }
                    proof {
                        if stack@.len() == 0 {
                            assert(step == self.stack@[0]);
                        }
                        if stack@.len() == 0 && r is None {
                            if branch == before.root {
                                if has_node(before, branch, current) {
                                    let j = choose|j: int| #[trigger] before.stores(branch, j) && current <= before.branches[j].end();
                                    assert(before.branch_ok(j));
                                }
                            } else {
                                assert(!has_node(before, branch, current));
                            }
                        }
                    }
                },
                _ => {},
            }
        }
        Ok(())
    }

    /// Makes sure the log holds the move away from the origin, so that whatever is
    /// done to the history from now on, `cancel` goes back there.
    fn mark_origin(&mut self)
        requires
            old(self).history_wf(),
        ensures
            final(self).history_wf(),
            final(self).stack@.len() > 0,
            final(self).base() == old(self).base(),
            final(self).origin() == old(self).origin(),
            final(self).log_len() >= old(self).log_len(),
            *final(final(self).handle()) == *final(old(self).handle()),
    {
        if self.stack.len() == 0 {
            let ghost old_cp = *self;
            let root = self.inner.branch();
            let current = self.inner.current();
            self.stack.push(Step::GoTo(root, current));
            proof {
                Self::lemma_log(&old_cp, self, Step::GoTo(root, current));
            }
        }
    }

    /// Returns a queue over the same history; this checkpoint does not log what it does,
    /// but its `cancel` still goes back to the node it was made at.
    pub fn queue(&mut self) -> (r: Queue<'_, History<C, F>>)
        requires
            old(self).history_wf(),
        ensures
            r.pending().len() == 0,
            r.base() == old(self).base(),
            *final(r.handle()) == final(self).base(),
            final(self).origin() == old(self).origin(),
            final(self).log_len() >= old(self).log_len(),
            *final(final(self).handle()) == *final(old(self).handle()),
            final(self).base().wf() ==> final(self).history_wf(),
    {
        self.mark_origin();
        self.inner.queue()
    }

    /// Returns a checkpoint over the same history, nested in this one. What goes
    /// through it is not logged here, but this checkpoint's `cancel` still goes back to
    /// the node it was made at.
    pub fn checkpoint(&mut self) -> (r: Checkpoint<'_, History<C, F>>)
        requires
            old(self).history_wf(),
        ensures
            r.history_wf(),
            r.log_len() == 0,
            r.origin() == old(self).base(),
            r.base() == old(self).base(),
            *final(r.handle()) == final(self).base(),
            final(self).origin() == old(self).origin(),
            final(self).log_len() >= old(self).log_len(),
            *final(final(self).handle()) == *final(old(self).handle()),
            final(self).base().wf() ==> final(self).history_wf(),
    {
        self.mark_origin();
        self.inner.checkpoint()
    }

    /// Returns a reference to the target.
    pub fn target(&self) -> (r: &C::Target)
        requires
            self.history_wf(),
        ensures
            *r == self.base()@.record.target(),
    {
        self.inner.target()
    }

    /// Returns a mutable reference to the target; see `Record::target_mut`.
    pub fn target_mut(&mut self) -> (r: &mut C::Target)
        requires
            old(self).history_wf(),
        ensures
            *r == old(self).base()@.record.target(),
            final(self).base().target_value() == *final(r),
            final(self).base()@ == old(self).base()@,
            final(self).log_len() == old(self).log_len(),
            final(self).origin() == old(self).origin(),
    {
        self.inner.target_mut()
    }
}

impl<C: Command, F: Slot> History<C, F> {
    /// Returns a checkpoint over the history.
    pub fn checkpoint(&mut self) -> (r: Checkpoint<'_, History<C, F>>)
        requires
            old(self).wf(),
        ensures
            r.history_wf(),
            r.log_len() == 0,
            r.origin() == *old(self),
            r.base() == *old(self),
            *final(r.handle()) == *final(self),
    {
        Checkpoint::new(self)
    }
}

impl<'a, C: Command, F: Slot> Queue<'a, History<C, F>> {
    /// Returns a checkpoint over the same history, independent of this queue.
    pub fn checkpoint(&mut self) -> (r: Checkpoint<'_, History<C, F>>)
        requires
            old(self).base().wf(),
        ensures
            r.history_wf(),
            r.log_len() == 0,
            r.origin() == old(self).base(),
            r.base() == old(self).base(),
            *final(r.handle()) == final(self).base(),
            final(self).pending() == old(self).pending(),
            *final(final(self).handle()) == *final(old(self).handle()),
    {
        self.reborrow().checkpoint()
    }
}

impl<'a, C: Command, F: Slot> Timeline for Checkpoint<'a, History<C, F>> {
    type Command = C;

    open spec fn ready(&self) -> bool {
        self.history_wf()
    }

    fn apply(&mut self, command: C) -> (r: Result<(), C::Error>) {
        Checkpoint::<'a, History<C, F>>::apply(self, command)
    }

    fn undo(&mut self) -> (r: Option<Result<(), C::Error>>) {
        Checkpoint::<'a, History<C, F>>::undo(self)
    }

    fn redo(&mut self) -> (r: Option<Result<(), C::Error>>) {
        Checkpoint::<'a, History<C, F>>::redo(self)
    }
}

} // verus!
