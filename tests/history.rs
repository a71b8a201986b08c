use redo::{Command, History, HistoryBuilder, Signal, Slot};

struct Add(char);

impl Command for Add {
    type Target = String;
    type Error = &'static str;

    fn steps(&self, before: String, after: String) -> bool {
        after == format!("{}{}", before, self.0)
    }

    fn apply(&mut self, s: &mut String) -> Result<(), &'static str> {
        s.push(self.0);
        Ok(())
    }

    fn undo(&mut self, s: &mut String) -> Result<(), &'static str> {
        self.0 = s.pop().ok_or("`s` is empty")?;
        Ok(())
    }
}

#[test]
fn branching_go_to() {
    let mut history = History::default();
    for c in ['a', 'b', 'c', 'd', 'e'] {
        history.apply(Add(c)).unwrap();
    }
    assert_eq!(history.target(), "abcde");
    history.undo().unwrap().unwrap();
    history.undo().unwrap().unwrap();
    assert_eq!(history.target(), "abc");
    let br0 = history.branch();
    history.apply(Add('f')).unwrap();
    history.apply(Add('g')).unwrap();
    assert_eq!(history.target(), "abcfg");
    let br1 = history.branch();
    assert_ne!(br0, br1);
    history.go_to(br0, 5).unwrap().unwrap();
    assert_eq!(history.target(), "abcde");
    assert_eq!(history.branch(), br0);
    history.go_to(br1, 5).unwrap().unwrap();
    assert_eq!(history.target(), "abcfg");
}

#[test]
fn go_to_unknown_node_changes_nothing() {
    let mut history = History::default();
    history.apply(Add('a')).unwrap();
    history.apply(Add('b')).unwrap();
    history.undo().unwrap().unwrap();
    history.apply(Add('c')).unwrap();
    let root = history.branch();
    assert!(history.go_to(77, 1).is_none());
    assert!(history.go_to(root, 9).is_none());
    assert!(history.go_to(0, 9).is_none());
    assert_eq!(history.target(), "ac");
    assert_eq!(history.branch(), root);
}

#[test]
fn nested_branches_are_reachable() {
    let mut history = History::default();
    history.apply(Add('a')).unwrap();
    history.apply(Add('b')).unwrap();
    history.apply(Add('c')).unwrap();
    let first = history.branch();
    history.undo().unwrap().unwrap();
    history.apply(Add('x')).unwrap();
    let second = history.branch();
    history.undo().unwrap().unwrap();
    history.undo().unwrap().unwrap();
    history.apply(Add('y')).unwrap();
    let third = history.branch();
    assert_eq!(history.target(), "ay");
    history.go_to(first, 3).unwrap().unwrap();
    assert_eq!(history.target(), "abc");
    history.go_to(second, 3).unwrap().unwrap();
    assert_eq!(history.target(), "abx");
    history.go_to(third, 2).unwrap().unwrap();
    assert_eq!(history.target(), "ay");
    history.go_to(first, 1).unwrap().unwrap();
    assert_eq!(history.target(), "a");
}

#[test]
fn saved_marker_follows_branches() {
    let mut history = History::default();
    history.apply(Add('a')).unwrap();
    history.apply(Add('b')).unwrap();
    history.set_saved(true);
    let old = history.branch();
    history.undo().unwrap().unwrap();
    history.apply(Add('c')).unwrap();
    assert!(!history.is_saved());
    history.go_to(old, 2).unwrap().unwrap();
    assert_eq!(history.target(), "ab");
    assert!(history.is_saved());
}

#[test]
fn history_limit_prunes_old_branches() {
    let mut history: History<Add> = HistoryBuilder::new().limit(2).build(String::new());
    history.apply(Add('a')).unwrap();
    history.apply(Add('b')).unwrap();
    history.undo().unwrap().unwrap();
    let old = history.branch();
    history.apply(Add('c')).unwrap();
    history.apply(Add('d')).unwrap();
    assert_eq!(history.len(), 2);
    assert_eq!(history.target(), "acd");
    assert!(history.go_to(old, 2).is_none());
    history.clear();
    assert_eq!(history.len(), 0);
    assert_eq!(history.branch(), 0);
}

#[test]
fn history_checkpoint_and_queue() {
    let mut history = History::default();
    history.apply(Add('a')).unwrap();
    let mut cp = history.checkpoint();
    cp.apply(Add('b')).unwrap();
    cp.undo().unwrap().unwrap();
    cp.apply(Add('c')).unwrap();
    assert_eq!(cp.target(), "ac");
    cp.cancel().unwrap();
    assert_eq!(history.target(), "a");
    let mut q = history.queue();
    q.apply(Add('z'));
    q.undo();
    assert_eq!(q.target(), "a");
    q.commit().unwrap();
    assert_eq!(history.target(), "a");
    assert!(history.can_redo());
}

#[test]
fn history_extend_and_redo() {
    let mut history = History::new(String::from(">"));
    history.extend(vec![Add('a'), Add('b')]).unwrap();
    assert_eq!(history.target(), ">ab");
    history.undo().unwrap().unwrap();
    history.undo().unwrap().unwrap();
    assert!(history.undo().is_none());
    history.redo().unwrap().unwrap();
    assert_eq!(history.target(), ">a");
    assert_eq!(history.current(), 1);
    assert!(history.can_undo());
    assert_eq!(history.into_target(), ">a");
}

#[test]
fn history_revert_crosses_branches() {
    let mut history = History::default();
    history.apply(Add('a')).unwrap();
    history.apply(Add('b')).unwrap();
    history.set_saved(true);
    let saved_branch = history.branch();
    history.undo().unwrap().unwrap();
    history.apply(Add('c')).unwrap();
    assert_eq!(history.target(), "ac");
    history.revert().unwrap().unwrap();
    assert_eq!(history.target(), "ab");
    assert_eq!(history.branch(), saved_branch);
    assert!(history.is_saved());
    history.set_saved(false);
    assert!(history.revert().is_none());
}

#[test]
fn history_set_limit_shifts_and_prunes() {
    let mut history = History::default();
    history.apply(Add('a')).unwrap();
    history.apply(Add('b')).unwrap();
    history.apply(Add('c')).unwrap();
    history.undo().unwrap().unwrap();
    let old = history.branch();
    history.apply(Add('x')).unwrap();
    assert_eq!(history.set_limit(1), 1);
    assert_eq!(history.len(), 1);
    assert_eq!(history.current(), 1);
    history.go_to(old, 1).unwrap().unwrap();
    assert_eq!(history.target(), "abc");

    let mut history = History::default();
    history.apply(Add('a')).unwrap();
    history.apply(Add('b')).unwrap();
    history.undo().unwrap().unwrap();
    history.undo().unwrap().unwrap();
    let old = history.branch();
    history.apply(Add('y')).unwrap();
    assert_eq!(history.set_limit(1), 1);
    assert!(history.go_to(old, 2).is_none());
    assert_eq!(history.target(), "y");
}

#[derive(Default)]
struct Log(Vec<Signal>);

impl Slot for Log {
    fn on_signal(&mut self, signal: Signal) {
        self.0.push(signal);
    }
}

#[test]
fn history_builder_defaults_and_signals() {
    let mut history: History<Add, Log> = HistoryBuilder::new().default_with(Log::default());
    history.apply(Add('a')).unwrap();
    history.undo().unwrap().unwrap();
    let old = history.branch();
    history.apply(Add('b')).unwrap();
    let new = history.branch();
    let log = history.disconnect().unwrap();
    assert_eq!(log.0.last(), Some(&Signal::Branch { old, new }));
    let plain: History<Add> = HistoryBuilder::new().saved(false).default();
    assert!(!plain.is_saved());
    let moved = plain.connect_with(Log::default());
    assert_eq!(moved.target(), "");
}

#[test]
fn history_checkpoint_cancel_returns_to_origin_node() {
    let mut history = History::default();
    history.apply(Add('a')).unwrap();
    history.apply(Add('b')).unwrap();
    let root = history.branch();
    let mut cp = history.checkpoint();
    cp.undo().unwrap().unwrap();
    cp.apply(Add('x')).unwrap();
    cp.go_to(root, 1).unwrap().unwrap();
    assert_eq!(cp.len(), 3);
    cp.cancel().unwrap();
    assert_eq!(history.branch(), root);
    assert_eq!(history.current(), 2);
    assert_eq!(history.target(), "ab");
}
