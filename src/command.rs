use vstd::prelude::*;

verus! {

/// The outcome of trying to fold one command into the one before it.
pub enum Merged<C> {
    /// The command before has absorbed the new one.
    Yes,
    /// The commands cannot be merged; the new command is handed back.
    No(C),
    /// The two commands cancel out and both are dropped.
    Annul,
}

/// A reversible change of a target, supplied by the user of a timeline.
///
/// The relation `steps(before, after)` says that the command, applied to `before`,
/// yields `after`, and that undoing it at `after` yields `before` again. The
/// contracts below are the protocol every implementation has to keep.
pub trait Command: Sized {
    /// The state that the command changes.
    type Target;
    /// The error that `apply` or `undo` may report.
    type Error;

    /// This command takes the target from `before` to `after`.
    spec fn steps(&self, before: Self::Target, after: Self::Target) -> bool;

    /// Applies the command to the target.
    ///
    /// On success the command steps from the old target to the new one; a command
    /// that already stepped from this target reaches the same state again. On failure
    /// the target is left as it was.
    fn apply(&mut self, target: &mut Self::Target) -> (r: Result<(), Self::Error>)
        ensures
            r is Ok ==> final(self).steps(*old(target), *final(target)),
            r is Err ==> *final(target) == *old(target),
            forall|a: Self::Target| #[trigger]
                old(self).steps(*old(target), a) ==> {
                    &&& r is Ok ==> *final(target) == a
                    &&& r is Err ==> final(self).steps(*old(target), a)
                },
            final(self).mergeable() == old(self).mergeable(),
    ;

    /// Undoes the command, which must be the last change made to the target.
    ///
    /// On success the target is back where the command started from. On failure the
    /// target is left as it was.
    fn undo(&mut self, target: &mut Self::Target) -> (r: Result<(), Self::Error>)
        ensures
            r is Err ==> *final(target) == *old(target),
            forall|b: Self::Target| #[trigger]
                old(self).steps(b, *old(target)) ==> {
                    &&& r is Ok ==> *final(target) == b
                    &&& final(self).steps(b, *old(target))
                },
    ;

    /// The command may be folded into the one before it. The default, which goes with
    /// the default `merge`, is that it never is.
    open spec fn mergeable(&self) -> bool {
        false
    }

    /// Tries to fold `other`, which has just been applied after `self`, into `self`.
    ///
    /// The default never merges.
    fn merge(&mut self, other: Self) -> (r: Merged<Self>)
        ensures
            !other.mergeable() ==> r is No,
            r matches Merged::No(c) ==> c == other && *final(self) == *old(self),
            r is Yes ==> forall|s0: Self::Target, s1: Self::Target, s2: Self::Target|
                #[trigger] old(self).steps(s0, s1) && #[trigger] other.steps(s1, s2)
                    ==> final(self).steps(s0, s2),
            r is Annul ==> forall|s0: Self::Target, s1: Self::Target, s2: Self::Target|
                #[trigger] old(self).steps(s0, s1) && #[trigger] other.steps(s1, s2) ==> s2 == s0,
    {
        Merged::No(other)
    }
}

/// A node of the undo tree: the position `current` on the branch `branch`.
#[derive(Clone, Copy, Debug, PartialEq, Eq, Structural, Hash)]
pub struct At {
    pub branch: usize,
    pub current: usize,
}

impl At {
    /// Returns the node at `current` on `branch`.
    pub fn new(branch: usize, current: usize) -> (r: At)
        ensures
            r.branch == branch,
            r.current == current,
    {
        At { branch, current }
    }
}

/// A change of state reported to the observer of a timeline.
#[derive(Clone, Copy, Debug, PartialEq, Eq, Structural, Hash)]
pub enum Signal {
    /// Whether the timeline can undo has changed to the given value.
    Undo(bool),
    /// Whether the timeline can redo has changed to the given value.
    Redo(bool),
    /// Whether the target is in its saved state has changed to the given value.
    Saved(bool),
    /// The active branch has changed from `old` to `new`.
    Branch { old: usize, new: usize },
}

} // verus!

verus! {

/// What records, histories and the wrappers over them have in common, so that
/// wrappers can nest.
pub trait Timeline {
    /// The commands of the timeline.
    type Command: Command;

    /// The timeline keeps its invariant.
    spec fn ready(&self) -> bool;

    /// Applies a command.
    fn apply(&mut self, command: Self::Command) -> (r: Result<(), <Self::Command as Command>::Error>)
        requires
            old(self).ready(),
        ensures
            final(self).ready(),
    ;

    /// Undoes the last applied command, if there is one.
    fn undo(&mut self) -> (r: Option<Result<(), <Self::Command as Command>::Error>>)
        requires
            old(self).ready(),
        ensures
            final(self).ready(),
    ;

    /// Redoes the next undone command, if there is one.
    fn redo(&mut self) -> (r: Option<Result<(), <Self::Command as Command>::Error>>)
        requires
            old(self).ready(),
        ensures
            final(self).ready(),
    ;
}

/// The observer of a timeline: it is handed every signal, after the change it
/// reports.
pub trait Slot {
    /// Receives one signal.
    fn on_signal(&mut self, signal: Signal);
}

/// An observer that ignores every signal.
#[derive(Clone, Copy, Debug, PartialEq, Eq, Structural, Hash, Default)]
pub struct NoSlot;

impl Slot for NoSlot {
    fn on_signal(&mut self, _signal: Signal) {
    }
}

} // verus!
