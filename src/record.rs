use vstd::prelude::*;

use crate::command::{Command, Merged, NoSlot, Signal, Slot, Timeline};
use crate::storage::{capacity_of, shrink};

verus! {

/// The commands of `entries` take the target through `states`, one after the other.
pub open spec fn chains<C: Command>(entries: Seq<C>, states: Seq<C::Target>) -> bool {
    &&& states.len() == entries.len() + 1
    &&& forall|i: int|
        0 <= i < entries.len() ==> #[trigger] entries[i].steps(states[i], states[i + 1])
}

/// Hands `signal` to the observer, if there is one.
pub(crate) fn emit<F: Slot>(slot: &mut Option<F>, signal: Signal) {
    if let Some(f) = slot {
        f.on_signal(signal);
    }
}

/// A linear timeline of commands applied to a target.
///
/// The commands before `current` have been applied, those from `current` on have been
/// undone and can be redone. The ghost `states` holds the target at every position,
/// so that `states[current]` is the target itself.
pub struct Record<C: Command, F: Slot = NoSlot> {
    pub(crate) entries: Vec<C>,
    pub(crate) current: usize,
    pub(crate) limit: usize,
    pub(crate) saved: Option<usize>,
    pub(crate) target: C::Target,
    pub(crate) slot: Option<F>,
    pub(crate) states: Ghost<Seq<C::Target>>,
    pub(crate) sent: Ghost<Seq<Signal>>,
}

/// What a record shows of itself: the cursor, the limit, the saved position and the
/// target at every position, from the oldest kept one to the newest.
pub struct RecordView<T> {
    pub current: nat,
    pub limit: nat,
    pub saved: Option<nat>,
    pub states: Seq<T>,
}

impl<T> RecordView<T> {
    /// The number of commands.
    pub open spec fn len(&self) -> nat {
        (self.states.len() - 1) as nat
    }

    /// The target at the cursor.
    pub open spec fn target(&self) -> T {
        self.states[self.current as int]
    }

    /// The shape every record keeps.
    pub open spec fn wf(&self) -> bool {
        &&& self.states.len() >= 1
        &&& 1 <= self.limit <= usize::MAX
        &&& self.current <= self.len() <= self.limit
        &&& self.saved matches Some(k) ==> k <= self.len()
    }

    /// The target is in its saved state.
    pub open spec fn is_saved(&self) -> bool {
        self.saved == Some(self.current)
    }

    /// The target that the record holds as saved, if it holds one.
    pub open spec fn saved_state(&self) -> Option<T> {
        match self.saved {
            Some(k) => Some(self.states[k as int]),
            None => None,
        }
    }

    /// The view after a command was pushed at the cursor of `before`: the redo tail is
    /// gone, `target` is the new newest state, and where the limit was reached the
    /// oldest state has left.
    pub open spec fn pushed(&self, before: RecordView<T>, target: T) -> bool {
        let c = before.current as int;
        &&& self.limit == before.limit
        &&& if c < before.limit {
            &&& self.current == c + 1
            &&& self.states == before.states.subrange(0, c + 1).push(target)
            &&& self.saved == (match before.saved {
                Some(k) => if k <= c { Some(k) } else { None },
                None => None,
            })
        } else {
            &&& self.current == c
            &&& self.states == before.states.subrange(1, c + 1).push(target)
            &&& self.saved == (match before.saved {
                Some(k) => if 1 <= k <= c { Some((k - 1) as nat) } else { None },
                None => None,
            })
        }
    }
}

/// The signals that tell an observer how `can_undo`, `can_redo` and `is_saved` went
/// from the given values to those of `now`: one for each that changed, in that order.
pub open spec fn changes<T>(could_undo: bool, could_redo: bool, was_saved: bool, now: RecordView<T>) -> Seq<Signal> {
    (if could_undo != (now.current > 0) { seq![Signal::Undo(now.current > 0)] } else { Seq::empty() })
        + (if could_redo != (now.current < now.len()) { seq![Signal::Redo(now.current < now.len())] } else { Seq::empty() })
        + (if was_saved != now.is_saved() { seq![Signal::Saved(now.is_saved())] } else { Seq::empty() })
}

/// The signals owed for a change of a record from `before` to `after`.
pub open spec fn notices<T>(before: RecordView<T>, after: RecordView<T>) -> Seq<Signal> {
    changes(before.current > 0, before.current < before.len(), before.is_saved(), after)
}

impl<C: Command, F: Slot> View for Record<C, F> {
    type V = RecordView<C::Target>;

    closed spec fn view(&self) -> RecordView<C::Target> {
        RecordView {
            current: self.current as nat,
            limit: self.limit as nat,
            saved: match self.saved {
                Some(k) => Some(k as nat),
                None => None,
            },
            states: self.states@,
        }
    }
}

impl<C: Command, F: Slot> Record<C, F> {
    /// What the record keeps true of its fields beyond its view's shape.
    pub closed spec fn inv(&self) -> bool {
        &&& self.limit >= 1
        &&& self.current <= self.entries.len() <= self.limit
        &&& self.saved matches Some(k) ==> k <= self.entries.len()
        &&& chains(self.entries@, self.states@)
        &&& self.states@[self.current as int] == self.target
    }

    /// The observer of the record's signals.
    pub closed spec fn observer(&self) -> Option<F> {
        self.slot
    }

    /// The target as it is held, which `target_mut` may have taken away from the
    /// state at the cursor.
    pub closed spec fn target_value(&self) -> C::Target {
        self.target
    }

    /// Every signal handed to an observer so far, oldest first.
    pub closed spec fn signals(&self) -> Seq<Signal> {
        self.sent@
    }

    /// The record's invariant.
    pub open spec fn wf(&self) -> bool {
        &&& self.inv()
        &&& self@.wf()
    }

    /// Notifies the observer of every change of `can_undo`, `can_redo` and `is_saved`.
    fn notify(&mut self, could_undo: bool, could_redo: bool, was_saved: bool)
        requires
            old(self).wf(),
        ensures
            final(self).wf(),
            final(self)@ == old(self)@,
            final(self).entries == old(self).entries,
            final(self).signals() =~= old(self).signals() + changes(could_undo, could_redo, was_saved, old(self)@),
    {
        let ghost owed = changes(could_undo, could_redo, was_saved, self@);
        self.sent = Ghost(self.sent@ + owed);
        let can_undo = self.can_undo();
        if can_undo != could_undo {
            emit(&mut self.slot, Signal::Undo(can_undo));
        }
        let can_redo = self.can_redo();
        if can_redo != could_redo {
            emit(&mut self.slot, Signal::Redo(can_redo));
        }
        let is_saved = self.is_saved();
        if is_saved != was_saved {
            emit(&mut self.slot, Signal::Saved(is_saved));
        }
    }

    /// Returns the number of commands in the record.
    pub fn len(&self) -> (r: usize)
        requires
            self.wf(),
        ensures
            r == self@.len(),
    {
        self.entries.len()
    }

    /// Returns `true` if the record holds no commands.
    pub fn is_empty(&self) -> (r: bool)
        requires
            self.wf(),
        ensures
            r == (self@.len() == 0),
    {
        self.entries.len() == 0
    }

    /// Returns the largest number of commands the record keeps.
    pub fn limit(&self) -> (r: usize)
        ensures
            r == self@.limit,
    {
        self.limit
    }

    /// Returns the position of the cursor.
    pub fn current(&self) -> (r: usize)
        ensures
            r == self@.current,
    {
        self.current
    }

    /// Returns the saved position, if there is one.
    pub(crate) fn saved_at(&self) -> (r: Option<usize>)
        ensures
            self@.saved == (match r {
                Some(k) => Some(k as nat),
                None => None,
            }),
    {
        self.saved
    }

    /// Returns `true` if the record can undo.
    pub fn can_undo(&self) -> (r: bool)
        ensures
            r == (self@.current > 0),
    {
        self.current > 0
    }

    /// Returns `true` if the record can redo.
    pub fn can_redo(&self) -> (r: bool)
        requires
            self.wf(),
        ensures
            r == (self@.current < self@.len()),
    {
        self.current < self.entries.len()
    }

    /// Returns `true` if the target is in its saved state.
    pub fn is_saved(&self) -> (r: bool)
        ensures
            r == self@.is_saved(),
    {
        match self.saved {
            Some(k) => k == self.current,
            None => false,
        }
    }

    /// Returns a reference to the target.
    pub fn target(&self) -> (r: &C::Target)
        requires
            self.wf(),
        ensures
            *r == self@.target(),
    {
        &self.target
    }

    /// Undoes the command before the cursor, without signals.
    fn undo_step(&mut self) -> (r: Result<(), C::Error>)
        requires
            old(self).wf(),
            old(self)@.current > 0,
        ensures
            final(self).sent == old(self).sent,
            final(self).wf(),
            final(self).slot == old(self).slot,
            r is Ok ==> final(self)@ == (RecordView { current: (old(self)@.current - 1) as nat, ..old(self)@ }),
            r is Err ==> final(self)@ == old(self)@,
    {
        let i = self.current - 1;
        proof {
            assert(self.entries@[i as int].steps(self.states@[i as int], self.states@[i + 1]));
        }
        let r = self.entries[i].undo(&mut self.target);
        if r.is_ok() {
            self.current = i;
        }
        proof {
            assert forall|j: int| 0 <= j < self.entries@.len() implies
                #[trigger] self.entries@[j].steps(self.states@[j], self.states@[j + 1]) by {
                if j != i {
                    assert(self.entries@[j] == old(self).entries@[j]);
                }
            }
        }
        r
    }

    /// Redoes the command at the cursor, without signals.
    fn redo_step(&mut self) -> (r: Result<(), C::Error>)
        requires
            old(self).wf(),
            old(self)@.current < old(self)@.len(),
        ensures
            final(self).sent == old(self).sent,
            final(self).wf(),
            final(self).slot == old(self).slot,
            r is Ok ==> final(self)@ == (RecordView { current: old(self)@.current + 1, ..old(self)@ }),
            r is Err ==> final(self)@ == old(self)@,
    {
        let i = self.current;
        proof {
            assert(self.entries@[i as int].steps(self.states@[i as int], self.states@[i + 1]));
        }
        let r = self.entries[i].apply(&mut self.target);
        if r.is_ok() {
            self.current = i + 1;
        }
        proof {
            assert forall|j: int| 0 <= j < self.entries@.len() implies
                #[trigger] self.entries@[j].steps(self.states@[j], self.states@[j + 1]) by {
                if j != i {
                    assert(self.entries@[j] == old(self).entries@[j]);
                }
            }
        }
        r
    }

    /// The view after `apply_entry` folded a command into the newest entry: the newest
    /// state is now `target`, or, where the two commands cancelled out, gone.
    pub open spec fn merged_view(after: RecordView<C::Target>, before: RecordView<C::Target>) -> bool {
        let c = before.current as int;
        &&& before.current == before.len() > 0
        &&& after.limit == before.limit
        &&& after.saved == (match before.saved {
            Some(k) => if k < c { Some(k) } else { None },
            None => None,
        })
        &&& {
            ||| after.current == c && after.states == before.states.subrange(0, c).push(after.target())
            ||| after.current == c - 1 && after.states == before.states.subrange(0, c)
        }
    }

    /// Applies `command` and stores it at the cursor, or, where `allow_merge` is set,
    /// possibly folds it into the entry before.
    ///
    /// Returns whether it was folded, and the redo tail that had to make room for it.
    pub(crate) fn apply_entry(&mut self, command: C, allow_merge: bool) -> (r: Result<(bool, Vec<C>, Option<C>), C::Error>)
        requires
            old(self).wf(),
        ensures
            r is Ok ==> final(self).signals() =~= old(self).signals() + notices(old(self)@, final(self)@),
            r is Err ==> final(self).signals() == old(self).signals(),
            final(self).wf(),
            r is Err ==> final(self)@ == old(self)@,
            r is Ok ==> forall|t: C::Target| #[trigger] command.steps(old(self)@.target(), t)
                ==> final(self)@.target() == t,
            r matches Ok((merged, tail, evicted)) ==> {
                &&& merged ==> command.mergeable()
                &&& evicted matches Some(e) ==> !merged && old(self)@.current == old(self)@.limit
                    && e.steps(old(self)@.states[0], old(self)@.states[1])
                &&& evicted is None && !merged ==> old(self)@.current < old(self)@.limit
                &&& chains(tail@, old(self)@.states.subrange(old(self)@.current as int, old(self)@.states.len() as int))
                &&& !merged ==> final(self)@.pushed(old(self)@, final(self)@.target())
                &&& merged ==> allow_merge && Self::merged_view(final(self)@, old(self)@)
            },
    {
        let could_undo = self.can_undo();
        let could_redo = self.can_redo();
        let was_saved = self.is_saved();
        let mut command = command;
        let ghost before = self.target;
        match command.apply(&mut self.target) {
            Err(e) => {
                return Err(e);
            },
            Ok(()) => {},
        }
        let ghost after = self.target;
        let ghost old_states = self.states@;
        let c = self.current;
        let tail = self.entries.split_off(c);
        if let Some(k) = self.saved {
            if k > c {
                self.saved = None;
            }
        }
        let merged = if allow_merge && c > 0 && tail.len() == 0 {
            proof {
                let k = c - 1;
                assert(self.entries@[k] == old(self).entries@[k]);
                assert(old(self).entries@[k].steps(old_states[k], old_states[k + 1]));
            }
            self.entries[c - 1].merge(command)
        } else {
            Merged::No(command)
        };
        let mut evicted: Option<C> = None;
        let folded = match merged {
            Merged::Yes => {
                if self.saved == Some(c) {
                    self.saved = None;
                }
                self.states = Ghost(old_states.subrange(0, c as int).push(after));
                true
            },
            Merged::Annul => {
                if self.saved == Some(c) {
                    self.saved = None;
                }
                self.entries.pop();
                self.current = c - 1;
                self.states = Ghost(old_states.subrange(0, c as int));
                true
            },
            Merged::No(command) => {
                if c == self.limit {
                    proof {
                        let z: int = 0;
                        assert(self.entries@[z] == old(self).entries@[z]);
                        assert(old(self).entries@[z].steps(old_states[z], old_states[z + 1]));
                    }
                    evicted = Some(self.entries.remove(0));
                    self.saved = match self.saved {
                        Some(k) => if k >= 1 { Some(k - 1) } else { None },
                        None => None,
                    };
                    self.states = Ghost(old_states.subrange(1, c + 1).push(after));
                } else {
                    self.current = c + 1;
                    self.states = Ghost(old_states.subrange(0, c + 1).push(after));
                }
                self.entries.push(command);
                false
            },
        };
        proof {
            assert forall|j: int| 0 <= j < self.entries@.len() implies
                #[trigger] self.entries@[j].steps(self.states@[j], self.states@[j + 1]) by {
                if !folded && c == self.limit {
                    if j + 1 < self.entries@.len() {
                        let k = j + 1;
                        assert(self.entries@[j] == old(self).entries@[k]);
                        assert(old(self).entries@[k].steps(old_states[k], old_states[k + 1]));
                    }
                } else if j + 1 < self.entries@.len() || (folded && self.current < c) {
                    assert(self.entries@[j] == old(self).entries@[j]);
                    assert(old(self).entries@[j].steps(old_states[j], old_states[j + 1]));
                }
            }
            assert forall|j: int| 0 <= j < tail@.len() implies
                #[trigger] tail@[j].steps(old_states.subrange(c as int, old_states.len() as int)[j],
                    old_states.subrange(c as int, old_states.len() as int)[j + 1]) by {
                assert(tail@[j] == old(self).entries@[c + j]);
                assert(old(self).entries@[c + j].steps(old_states[c + j], old_states[c + j + 1]));
            }
        }
        self.notify(could_undo, could_redo, was_saved);
        Ok((folded, tail, evicted))
    }

    /// Applies `command` to the target and pushes it onto the record.
    ///
    /// A redo tail is dropped, the command may fold into the newest entry, and where
    /// the limit is reached the oldest entry leaves. On error nothing changes.
    pub fn apply(&mut self, command: C) -> (r: Result<(), C::Error>)
        requires
            old(self).wf(),
        ensures
            r is Ok ==> final(self).signals() =~= old(self).signals() + notices(old(self)@, final(self)@),
            r is Err ==> final(self).signals() == old(self).signals(),
            final(self).wf(),
            r is Err ==> final(self)@ == old(self)@,
            r is Ok ==> final(self)@.pushed(old(self)@, final(self)@.target())
                || Self::merged_view(final(self)@, old(self)@),
            r is Ok ==> forall|t: C::Target| #[trigger] command.steps(old(self)@.target(), t)
                ==> final(self)@.target() == t,
            r is Ok && !command.mergeable() ==> final(self)@.pushed(old(self)@, final(self)@.target()),
    {
        match self.apply_entry(command, true) {
            Ok(_) => Ok(()),
            Err(e) => Err(e),
        }
    }

    /// Applies each command of `commands` in order, as `apply` does, and stops at the
    /// first error, which it returns.
    ///
    /// The record goes through one view per command applied, each reached from the one
    /// before as `apply` leaves it.
    pub fn extend(&mut self, commands: Vec<C>) -> (r: Result<(), C::Error>)
        requires
            old(self).wf(),
        ensures
            final(self).wf(),
            exists|trace: Seq<RecordView<C::Target>>| {
                &&& trace.len() >= 1
                &&& trace.len() <= commands@.len() + 1
                &&& r is Ok ==> trace.len() == commands@.len() + 1
                &&& trace[0] == old(self)@
                &&& trace.last() == final(self)@
                &&& forall|i: int| 0 <= i < trace.len() - 1 ==>
                    (#[trigger] trace[i + 1]).pushed(trace[i], trace[i + 1].target())
                        || Self::merged_view(trace[i + 1], trace[i])
                &&& forall|i: int, t: C::Target| 0 <= i < trace.len() - 1 && #[trigger] commands@[i].steps(trace[i].target(), t)
                    ==> trace[i + 1].target() == t
                &&& forall|i: int| 0 <= i < trace.len() - 1 && !(#[trigger] commands@[i]).mergeable()
                    ==> trace[i + 1].pushed(trace[i], trace[i + 1].target())
            },
    {
        let mut rest = commands;
        let ghost n = rest@.len();
        let ghost mut trace = seq![self@];
        while rest.len() > 0
            invariant
                self.wf(),
                rest@.len() <= n,
                n == commands@.len(),
                trace.len() == n - rest@.len() + 1,
                trace[0] == old(self)@,
                trace.last() == self@,
                forall|i: int| 0 <= i < trace.len() - 1 ==>
                    (#[trigger] trace[i + 1]).pushed(trace[i], trace[i + 1].target())
                        || Self::merged_view(trace[i + 1], trace[i]),
                forall|i: int, t: C::Target| 0 <= i < trace.len() - 1 && #[trigger] commands@[i].steps(trace[i].target(), t)
                    ==> trace[i + 1].target() == t,
                forall|i: int| 0 <= i < trace.len() - 1 && !(#[trigger] commands@[i]).mergeable()
                    ==> trace[i + 1].pushed(trace[i], trace[i + 1].target()),
                rest@ == commands@.subrange(n - rest@.len(), n as int),
            decreases rest@.len(),
        {
            let command = rest.remove(0);
            let ghost before = trace;
            if let Err(e) = self.apply(command) {
                return Err(e);
            }
            proof {
                trace = trace.push(self@);
                assert forall|i: int| 0 <= i < trace.len() - 1 implies
                    (#[trigger] trace[i + 1]).pushed(trace[i], trace[i + 1].target())
                        || Self::merged_view(trace[i + 1], trace[i]) by {
                    if i < trace.len() - 2 {
                        assert(trace[i] == before[i]);
                        assert(trace[i + 1] == before[i + 1]);
                    }
                }
                let last = trace.len() - 2;
                assert(command == commands@[last]);
                assert forall|i: int, t: C::Target| 0 <= i < trace.len() - 1 && #[trigger] commands@[i].steps(trace[i].target(), t)
                    implies trace[i + 1].target() == t by {
                    if i < last {
                        assert(trace[i] == before[i]);
                        assert(trace[i + 1] == before[i + 1]);
                    }
                }
                assert forall|i: int| 0 <= i < trace.len() - 1 && !(#[trigger] commands@[i]).mergeable()
                    implies trace[i + 1].pushed(trace[i], trace[i + 1].target()) by {
                    if i < last {
                        assert(trace[i] == before[i]);
                        assert(trace[i + 1] == before[i + 1]);
                    }
                }
            }
        }
        Ok(())
    }

    /// Undoes the command before the cursor and moves the cursor back by one.
    ///
    /// Returns `None` where there is nothing to undo.
    pub fn undo(&mut self) -> (r: Option<Result<(), C::Error>>)
        requires
            old(self).wf(),
        ensures
            final(self).signals() =~= old(self).signals() + notices(old(self)@, final(self)@),
            final(self).wf(),
            r is None <==> old(self)@.current == 0,
            r matches Some(Ok(_)) ==> final(self)@ == (RecordView {
                current: (old(self)@.current - 1) as nat,
                ..old(self)@
            }),
            !(r matches Some(Ok(_))) ==> final(self)@ == old(self)@,
    {
        if self.current == 0 {
            return None;
        }
        let could_redo = self.can_redo();
        let was_saved = self.is_saved();
        let r = self.undo_step();
        self.notify(true, could_redo, was_saved);
        Some(r)
    }

    /// Redoes the command at the cursor and moves the cursor forward by one.
    ///
    /// Returns `None` where there is nothing to redo.
    pub fn redo(&mut self) -> (r: Option<Result<(), C::Error>>)
        requires
            old(self).wf(),
        ensures
            final(self).signals() =~= old(self).signals() + notices(old(self)@, final(self)@),
            final(self).wf(),
            r is None <==> old(self)@.current == old(self)@.len(),
            r matches Some(Ok(_)) ==> final(self)@ == (RecordView {
                current: old(self)@.current + 1,
                ..old(self)@
            }),
            !(r matches Some(Ok(_))) ==> final(self)@ == old(self)@,
    {
        if self.current == self.entries.len() {
            return None;
        }
        let could_undo = self.can_undo();
        let was_saved = self.is_saved();
        let r = self.redo_step();
        self.notify(could_undo, true, was_saved);
        Some(r)
    }

    /// Undoes or redoes commands until the cursor stands at `current`.
    ///
    /// Returns `None` where `current` lies past the newest entry. On error the cursor
    /// stays where the last successful step left it.
    pub fn go_to(&mut self, current: usize) -> (r: Option<Result<(), C::Error>>)
        requires
            old(self).wf(),
        ensures
            current == old(self)@.current ==> (r matches Some(Ok(_))) && final(self)@ == old(self)@,
            final(self).signals() =~= old(self).signals() + notices(old(self)@, final(self)@),
            final(self).wf(),
            r is None <==> current > old(self)@.len(),
            r is None ==> final(self)@ == old(self)@,
            final(self)@ == (RecordView { current: final(self)@.current, ..old(self)@ }),
            r matches Some(Ok(_)) ==> final(self)@.current == current,
    {
        if current > self.entries.len() {
            return None;
        }
        let could_undo = self.can_undo();
        let could_redo = self.can_redo();
        let was_saved = self.is_saved();
        let ghost start = self@;
        while self.current != current
            invariant
                self.wf(),
                current <= self@.len(),
                start == old(self)@,
                self@ == (RecordView { current: self@.current, ..start }),
                current == old(self)@.current ==> self@ == old(self)@,
                self.sent == old(self).sent,
                could_undo == (old(self)@.current > 0),
                could_redo == (old(self)@.current < old(self)@.len()),
                was_saved == old(self)@.is_saved(),
            decreases
                if self.current < current { current - self.current } else { self.current - current },
        {
            let step = if self.current < current {
                self.redo_step()
            } else {
                self.undo_step()
            };
            if let Err(e) = step {
                self.notify(could_undo, could_redo, was_saved);
                return Some(Err(e));
            }
        }
        self.notify(could_undo, could_redo, was_saved);
        Some(Ok(()))
    }

    /// Marks the target as being in its saved state, or as not being in it.
    pub fn set_saved(&mut self, saved: bool)
        requires
            old(self).wf(),
        ensures
            final(self).signals() =~= old(self).signals() + notices(old(self)@, final(self)@),
            final(self).wf(),
            final(self)@ == (RecordView {
                saved: if saved { Some(old(self)@.current) } else { None },
                ..old(self)@
            }),
    {
        let was_saved = self.is_saved();
        if saved {
            self.saved = Some(self.current);
        } else {
            self.saved = None;
        }
        if was_saved != saved {
            emit(&mut self.slot, Signal::Saved(saved));
            self.sent = Ghost(self.sent@.push(Signal::Saved(saved)));
        }
    }

    /// Goes back or forward to the saved position, if there is one.
    pub fn revert(&mut self) -> (r: Option<Result<(), C::Error>>)
        requires
            old(self).wf(),
        ensures
            final(self).signals() =~= old(self).signals() + notices(old(self)@, final(self)@),
            final(self).wf(),
            r is None <==> old(self)@.saved is None,
            final(self)@ == (RecordView { current: final(self)@.current, ..old(self)@ }),
            r matches Some(Ok(_)) ==> final(self)@.is_saved()
                && Some(final(self)@.target()) == old(self)@.saved_state(),
    {
        match self.saved {
            Some(k) => self.go_to(k),
            None => None,
        }
    }

    /// Removes all commands without undoing them; the target stays as it is.
    pub fn clear(&mut self)
        requires
            old(self).wf(),
        ensures
            final(self).signals() =~= old(self).signals() + notices(old(self)@, final(self)@),
            final(self).wf(),
            final(self)@ == (RecordView {
                current: 0,
                limit: old(self)@.limit,
                saved: if old(self)@.is_saved() { Some(0) } else { None },
                states: seq![old(self)@.target()],
            }),
    {
        let could_undo = self.can_undo();
        let could_redo = self.can_redo();
        let was_saved = self.is_saved();
        self.entries.clear();
        self.current = 0;
        self.saved = if was_saved { Some(0) } else { None };
        let ghost only = seq![self.target];
        self.states = Ghost(only);
        self.notify(could_undo, could_redo, was_saved);
    }

    /// Sets the largest number of commands the record keeps, and drops the oldest
    /// entries beyond it, but never one that has not been undone: where that would be
    /// needed, the limit is raised to the number of entries from the cursor on.
    ///
    /// Returns the limit that was set.
    pub fn set_limit(&mut self, limit: usize) -> (r: usize)
        requires
            old(self).wf(),
            limit >= 1,
        ensures
            final(self).signals() =~= old(self).signals() + notices(old(self)@, final(self)@),
            final(self).wf(),
            final(self)@.limit == r,
            ({
                let before = old(self)@;
                let k: int = if limit >= before.len() {
                    0
                } else if before.len() - limit <= before.current {
                    before.len() - limit
                } else {
                    before.current as int
                };
                &&& r == (if limit >= before.len() { limit as int } else { before.len() - k })
                &&& final(self)@.current == before.current - k
                &&& final(self)@.states == before.states.subrange(k, before.states.len() as int)
                &&& final(self)@.saved == (match before.saved {
                    Some(p) => if p >= k { Some((p - k) as nat) } else { None },
                    None => None,
                })
            }),
    {
        let len = self.entries.len();
        if limit >= len {
            self.limit = limit;
            return limit;
        }
        let could_undo = self.can_undo();
        let could_redo = self.can_redo();
        let was_saved = self.is_saved();
        let k = if len - limit <= self.current { len - limit } else { self.current };
        let ghost old_states = self.states@;
        let rest = self.entries.split_off(k);
        proof {
            assert forall|j: int| 0 <= j < rest@.len() implies
                #[trigger] rest@[j].steps(old_states.subrange(k as int, old_states.len() as int)[j],
                    old_states.subrange(k as int, old_states.len() as int)[j + 1]) by {
                assert(rest@[j] == old(self).entries@[k + j]);
                assert(old(self).entries@[k + j].steps(old_states[k + j], old_states[k + j + 1]));
            }
        }
        self.entries = rest;
        self.current = self.current - k;
        self.limit = len - k;
        self.saved = match self.saved {
            Some(p) => if p >= k { Some(p - k) } else { None },
            None => None,
        };
        self.states = Ghost(old_states.subrange(k as int, old_states.len() as int));
        self.notify(could_undo, could_redo, was_saved);
        len - k
    }

    /// Puts `tail` in place of the entries from the cursor on, and `saved` in place of
    /// the saved position. Returns the entries it took out.
    pub(crate) fn restore_tail(&mut self, tail: Vec<C>, saved: Option<usize>, tail_states: Ghost<Seq<C::Target>>)
        -> (r: Vec<C>)
        requires
            old(self).wf(),
            tail_states@.len() >= 1,
            tail_states@[0] == old(self)@.target(),
            chains(tail@, tail_states@),
            old(self)@.current + tail@.len() <= old(self)@.limit,
            saved matches Some(k) ==> k <= old(self)@.current + tail@.len(),
        ensures
            final(self).signals() =~= old(self).signals() + notices(old(self)@, final(self)@),
            final(self).wf(),
            final(self)@ == (RecordView {
                current: old(self)@.current,
                limit: old(self)@.limit,
                saved: match saved {
                    Some(k) => Some(k as nat),
                    None => None,
                },
                states: old(self)@.states.subrange(0, old(self)@.current as int) + tail_states@,
            }),
            chains(r@, old(self)@.states.subrange(old(self)@.current as int, old(self)@.states.len() as int)),
    {
        let could_undo = self.can_undo();
        let could_redo = self.can_redo();
        let was_saved = self.is_saved();
        let c = self.current;
        let ghost old_states = self.states@;
        let ghost new_states = old_states.subrange(0, c as int) + tail_states@;
        let removed = self.entries.split_off(c);
        let ghost tail_seq = tail@;
        let mut rest = tail;
        self.entries.append(&mut rest);
        proof {
            assert forall|j: int| 0 <= j < self.entries@.len() implies
                #[trigger] self.entries@[j].steps(new_states[j], new_states[j + 1]) by {
                if j < c {
                    assert(self.entries@[j] == old(self).entries@[j]);
                    assert(old(self).entries@[j].steps(old_states[j], old_states[j + 1]));
                } else {
                    let i = j - c;
                    assert(0 <= i < tail_seq.len());
                    assert(self.entries@[j] == tail_seq[i]);
                    assert(new_states[j] == tail_states@[i]);
                    assert(new_states[j + 1] == tail_states@[i + 1]);
                    assert(tail_seq[i].steps(tail_states@[i], tail_states@[i + 1]));
                }
            }
            assert forall|j: int| 0 <= j < removed@.len() implies
                #[trigger] removed@[j].steps(old_states.subrange(c as int, old_states.len() as int)[j],
                    old_states.subrange(c as int, old_states.len() as int)[j + 1]) by {
                assert(removed@[j] == old(self).entries@[c + j]);
                assert(old(self).entries@[c + j].steps(old_states[c + j], old_states[c + j + 1]));
            }
        }
        self.states = Ghost(new_states);
        self.saved = saved;
        self.notify(could_undo, could_redo, was_saved);
        removed
    }

    /// Puts `first` back as the oldest entry, before the state `first_state`, with the
    /// cursor still on the newest state, and `saved` as the saved position.
    pub(crate) fn restore_front(&mut self, first: C, saved: Option<usize>, first_state: Ghost<C::Target>)
        requires
            old(self).wf(),
            old(self)@.current == old(self)@.len(),
            old(self)@.len() < old(self)@.limit,
            first.steps(first_state@, old(self)@.states[0]),
            saved matches Some(k) ==> k <= old(self)@.len() + 1,
        ensures
            final(self).signals() =~= old(self).signals() + notices(old(self)@, final(self)@),
            final(self).wf(),
            final(self)@ == (RecordView {
                current: old(self)@.current + 1,
                limit: old(self)@.limit,
                saved: match saved {
                    Some(k) => Some(k as nat),
                    None => None,
                },
                states: seq![first_state@] + old(self)@.states,
            }),
    {
        let could_undo = self.can_undo();
        let could_redo = self.can_redo();
        let was_saved = self.is_saved();
        let ghost old_states = self.states@;
        let ghost new_states = seq![first_state@] + old_states;
        self.entries.insert(0, first);
        self.current = self.current + 1;
        self.saved = saved;
        self.states = Ghost(new_states);
        proof {
            assert forall|j: int| 0 <= j < self.entries@.len() implies
                #[trigger] self.entries@[j].steps(new_states[j], new_states[j + 1]) by {
                if j > 0 {
                    let i = j - 1;
                    assert(self.entries@[j] == old(self).entries@[i]);
                    assert(old(self).entries@[i].steps(old_states[i], old_states[i + 1]));
                    assert(new_states[j] == old_states[i]);
                    assert(new_states[j + 1] == old_states[i + 1]);
                } else {
                    assert(new_states[1] == old_states[0]);
                }
            }
        }
        self.notify(could_undo, could_redo, was_saved);
    }

    /// Hands `signal` to the observer.
    pub(crate) fn signal(&mut self, signal: Signal)
        requires
            old(self).wf(),
        ensures
            final(self).signals() == old(self).signals().push(signal),
            final(self).wf(),
            final(self)@ == old(self)@,
    {
        emit(&mut self.slot, signal);
        self.sent = Ghost(self.sent@.push(signal));
    }

    /// Returns a mutable reference to the target.
    ///
    /// A change made through it is not recorded and cannot be undone; the record's
    /// account of its states no longer holds after it.
    pub fn target_mut(&mut self) -> (r: &mut C::Target)
        requires
            old(self).wf(),
        ensures
            *r == old(self)@.target(),
            final(self).target_value() == *final(r),
            final(self)@ == old(self)@,
            final(self).signals() == old(self).signals(),
    {
        &mut self.target
    }

    /// Consumes the record and returns the target.
    pub fn into_target(self) -> (r: C::Target)
        requires
            self.wf(),
        ensures
            r == self@.target(),
    {
        self.target
    }

    /// Reserves room for at least `additional` more commands.
    pub fn reserve(&mut self, additional: usize)
        requires
            old(self).wf(),
        ensures
            final(self).wf(),
            final(self)@ == old(self)@,
    {
        self.entries.reserve(additional);
        proof {
            assert forall|j: int| 0 <= j < self.entries@.len() implies
                #[trigger] self.entries@[j].steps(self.states@[j], self.states@[j + 1]) by {
                assert(self.entries@[j] == old(self).entries@[j]);
            }
        }
    }

    /// Returns how many commands the record can hold without reallocating.
    pub fn capacity(&self) -> (r: usize)
        requires
            self.wf(),
        ensures
            r >= self@.len(),
    {
        capacity_of(&self.entries)
    }

    /// Shrinks the storage of the record as much as possible.
    pub fn shrink_to_fit(&mut self)
        requires
            old(self).wf(),
        ensures
            final(self).wf(),
            final(self)@ == old(self)@,
    {
        shrink(&mut self.entries);
        proof {
            assert forall|j: int| 0 <= j < self.entries@.len() implies
                #[trigger] self.entries@[j].steps(self.states@[j], self.states@[j + 1]) by {
                assert(self.entries@[j] == old(self).entries@[j]);
            }
        }
    }

    /// Sets the observer of the record's signals; returns the one it replaces.
    pub fn connect(&mut self, slot: F) -> (r: Option<F>)
        requires
            old(self).wf(),
        ensures
            final(self).wf(),
            final(self)@ == old(self)@,
            r == old(self).observer(),
            final(self).observer() == Some(slot),
    {
        let prev = self.slot.take();
        self.slot = Some(slot);
        prev
    }

    /// Returns the record with its signals going to `slot` instead.
    pub fn connect_with<G: Slot>(self, slot: G) -> (r: Record<C, G>)
        requires
            self.wf(),
        ensures
            r.wf(),
            r@ == self@,
            r.observer() == Some(slot),
    {
        Record {
            entries: self.entries,
            current: self.current,
            limit: self.limit,
            saved: self.saved,
            target: self.target,
            slot: Some(slot),
            states: self.states,
            sent: self.sent,
        }
    }

    /// Removes the observer of the record's signals and returns it.
    pub fn disconnect(&mut self) -> (r: Option<F>)
        requires
            old(self).wf(),
        ensures
            final(self).wf(),
            final(self)@ == old(self)@,
            r == old(self).observer(),
            final(self).observer() is None,
    {
        self.slot.take()
    }
}

} // verus!

verus! {

impl<C: Command> Record<C> {
    /// Returns a record over `target` with no limit, saved as it is.
    pub fn new(target: C::Target) -> (r: Record<C>)
        ensures
            r.wf(),
            r@ == (RecordView {
                current: 0,
                limit: usize::MAX as nat,
                saved: Some(0),
                states: seq![target],
            }),
    {
        RecordBuilder::new().build(target)
    }
}

impl<C: Command> Default for Record<C> where C::Target: Default {
    fn default() -> (r: Self)
        ensures
            r.wf(),
            r@.current == 0 && r@.saved == Some(0nat) && r@.states.len() == 1,
    {
        Record::new(C::Target::default())
    }
}

/// Settings for a new record.
#[derive(Clone, Copy, Debug, PartialEq, Eq, Structural, Hash)]
pub struct RecordBuilder {
    pub capacity: usize,
    pub limit: usize,
    pub saved: bool,
}

impl RecordBuilder {
    /// Returns the settings of a default record: no reserved room, no limit, saved.
    pub fn new() -> (r: RecordBuilder)
        ensures
            r == (RecordBuilder { capacity: 0, limit: usize::MAX, saved: true }),
    {
        RecordBuilder { capacity: 0, limit: usize::MAX, saved: true }
    }

    /// Sets the room reserved for commands.
    pub fn capacity(&mut self, capacity: usize) -> (r: &mut RecordBuilder)
        ensures
            *r == (RecordBuilder { capacity, ..*old(self) }),
            *final(self) == *final(r),
    {
        self.capacity = capacity;
        self
    }

    /// Sets the largest number of commands kept; it must not be zero.
    pub fn limit(&mut self, limit: usize) -> (r: &mut RecordBuilder)
        requires
            limit >= 1,
        ensures
            *r == (RecordBuilder { limit, ..*old(self) }),
            *final(self) == *final(r),
    {
        self.limit = limit;
        self
    }

    /// Sets whether the target starts in its saved state.
    pub fn saved(&mut self, saved: bool) -> (r: &mut RecordBuilder)
        ensures
            *r == (RecordBuilder { saved, ..*old(self) }),
            *final(self) == *final(r),
    {
        self.saved = saved;
        self
    }

    /// The view of a record that these settings build over `target`.
    pub open spec fn built<T>(&self, target: T) -> RecordView<T> {
        RecordView {
            current: 0,
            limit: self.limit as nat,
            saved: if self.saved { Some(0) } else { None },
            states: seq![target],
        }
    }

    /// Builds a record over `target`.
    pub fn build<C: Command>(&self, target: C::Target) -> (r: Record<C>)
        requires
            self.limit >= 1,
        ensures
            r.wf(),
            r@ == self.built(target),
    {
        self.make(target, None)
    }

    /// Builds a record over `target` whose signals go to `slot`.
    pub fn build_with<C: Command, F: Slot>(&self, target: C::Target, slot: F) -> (r: Record<C, F>)
        requires
            self.limit >= 1,
        ensures
            r.wf(),
            r@ == self.built(target),
    {
        self.make(target, Some(slot))
    }

    /// Builds a record over `target` with the observer `slot`, if any.
    fn make<C: Command, F: Slot>(&self, target: C::Target, slot: Option<F>) -> (r: Record<C, F>)
        requires
            self.limit >= 1,
        ensures
            r.wf(),
            r@ == self.built(target),
    {
        let ghost only = seq![target];
        Record {
            entries: Vec::with_capacity(self.capacity),
            current: 0,
            limit: self.limit,
            saved: if self.saved { Some(0) } else { None },
            target,
            slot,
            states: Ghost(only),
            sent: Ghost(Seq::empty()),
        }
    }
}

impl<C: Command, F: Slot> Timeline for Record<C, F> {
    type Command = C;

    open spec fn ready(&self) -> bool {
        self.wf()
    }

    fn apply(&mut self, command: C) -> (r: Result<(), C::Error>) {
        Record::apply(self, command)
    }

    fn undo(&mut self) -> (r: Option<Result<(), C::Error>>) {
        Record::undo(self)
    }

    fn redo(&mut self) -> (r: Option<Result<(), C::Error>>) {
        Record::redo(self)
    }
}

impl Default for RecordBuilder {
    fn default() -> (r: Self)
        ensures
            r == (RecordBuilder { capacity: 0, limit: usize::MAX, saved: true }),
    {
        RecordBuilder::new()
    }
}

} // verus!
