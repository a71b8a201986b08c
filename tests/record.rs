use redo::{Command, Merged, Record, RecordBuilder, Signal, Slot};

struct Add(char);

impl Command for Add {
    type Target = String;
    type Error = &'static str;

    fn steps(&self, before: String, after: String) -> bool {
        after == format!("{}{}", before, self.0)
    }

    fn apply(&mut self, s: &mut String) -> Result<(), &'static str> {
        s.push(self.0);
        Ok(())
    }

    fn undo(&mut self, s: &mut String) -> Result<(), &'static str> {
        self.0 = s.pop().ok_or("`s` is empty")?;
        Ok(())
    }
}

/// Appends text; consecutive appends fold into one, and an append of "" after
/// another cancels both out.
struct Append(String);

impl Command for Append {
    type Target = String;
    type Error = &'static str;

    fn steps(&self, before: String, after: String) -> bool {
        after == format!("{}{}", before, self.0)
    }

    fn apply(&mut self, s: &mut String) -> Result<(), &'static str> {
        s.push_str(&self.0);
        Ok(())
    }

    fn undo(&mut self, s: &mut String) -> Result<(), &'static str> {
        let n = s.len() - self.0.len();
        s.truncate(n);
        Ok(())
    }

    fn mergeable(&self) -> bool {
        true
    }

    fn merge(&mut self, other: Self) -> Merged<Self> {
        if other.0 == "!" {
            Merged::Annul
        } else if other.0.is_empty() {
            Merged::No(other)
        } else {
            self.0.push_str(&other.0);
            Merged::Yes
        }
    }
}

#[derive(Default)]
struct Log(Vec<Signal>);

impl Slot for Log {
    fn on_signal(&mut self, signal: Signal) {
        self.0.push(signal);
    }
}

#[test]
fn linear_undo_redo() {
    let mut record = Record::default();
    record.apply(Add('a')).unwrap();
    record.apply(Add('b')).unwrap();
    record.apply(Add('c')).unwrap();
    assert_eq!(record.target(), "abc");
    record.undo().unwrap().unwrap();
    record.undo().unwrap().unwrap();
    record.undo().unwrap().unwrap();
    assert_eq!(record.target(), "");
    assert!(record.undo().is_none());
    record.redo().unwrap().unwrap();
    record.redo().unwrap().unwrap();
    record.redo().unwrap().unwrap();
    assert_eq!(record.target(), "abc");
    assert!(record.redo().is_none());
}

#[test]
fn apply_then_undo_restores_start() {
    let mut record = Record::new(String::from("x"));
    for c in ['p', 'q', 'r', 's'] {
        record.apply(Add(c)).unwrap();
    }
    for _ in 0..4 {
        record.undo().unwrap().unwrap();
    }
    assert_eq!(record.target(), "x");
}

#[test]
fn apply_undo_redo_is_apply() {
    let mut record = Record::default();
    record.apply(Add('z')).unwrap();
    record.undo().unwrap().unwrap();
    record.redo().unwrap().unwrap();
    assert_eq!(record.target(), "z");
    assert_eq!(record.current(), 1);
    assert_eq!(record.len(), 1);
}

#[test]
fn limit_evicts_oldest() {
    let mut record: Record<Add> = RecordBuilder::new().limit(3).build(String::new());
    for c in ['a', 'b', 'c', 'd', 'e'] {
        record.apply(Add(c)).unwrap();
    }
    assert_eq!(record.len(), 3);
    assert_eq!(record.current(), 3);
    assert_eq!(record.limit(), 3);
    record.undo().unwrap().unwrap();
    record.undo().unwrap().unwrap();
    assert_eq!(record.target(), "abc");
    record.redo().unwrap().unwrap();
    record.redo().unwrap().unwrap();
    assert_eq!(record.target(), "abcde");
    record.go_to(0).unwrap().unwrap();
    assert_eq!(record.target(), "ab");
    assert!(record.undo().is_none());
}

#[test]
fn new_apply_drops_redo_tail() {
    let mut record = Record::default();
    record.apply(Add('a')).unwrap();
    record.apply(Add('b')).unwrap();
    record.undo().unwrap().unwrap();
    record.apply(Add('c')).unwrap();
    assert_eq!(record.target(), "ac");
    assert_eq!(record.len(), 2);
    assert!(!record.can_redo());
}

#[test]
fn go_to_moves_both_ways() {
    let mut record = Record::default();
    for c in ['a', 'b', 'c', 'd'] {
        record.apply(Add(c)).unwrap();
    }
    record.go_to(1).unwrap().unwrap();
    assert_eq!(record.target(), "a");
    record.go_to(3).unwrap().unwrap();
    assert_eq!(record.target(), "abc");
    assert!(record.go_to(5).is_none());
    assert_eq!(record.current(), 3);
}

#[test]
fn saved_marker_and_revert() {
    let mut record = Record::default();
    assert!(record.is_saved());
    record.apply(Add('a')).unwrap();
    assert!(!record.is_saved());
    record.apply(Add('b')).unwrap();
    record.set_saved(true);
    assert!(record.is_saved());
    record.undo().unwrap().unwrap();
    record.apply(Add('x')).unwrap();
    assert_eq!(record.revert(), None);
    let mut record = Record::default();
    record.apply(Add('a')).unwrap();
    record.set_saved(true);
    record.apply(Add('b')).unwrap();
    record.apply(Add('c')).unwrap();
    record.undo().unwrap().unwrap();
    record.revert().unwrap().unwrap();
    assert_eq!(record.target(), "a");
    assert!(record.is_saved());
    record.set_saved(false);
    assert!(!record.is_saved());
    assert!(record.revert().is_none());
}

#[test]
fn merge_folds_and_annuls() {
    let mut record = Record::default();
    record.apply(Append(String::from("ab"))).unwrap();
    record.apply(Append(String::from("cd"))).unwrap();
    assert_eq!(record.len(), 1);
    assert_eq!(record.target(), "abcd");
    record.undo().unwrap().unwrap();
    assert_eq!(record.target(), "");
    record.redo().unwrap().unwrap();
    record.apply(Append(String::from("!"))).unwrap();
    assert_eq!(record.len(), 0);
    assert_eq!(record.current(), 0);
}

#[test]
fn set_limit_keeps_undone_commands() {
    let mut record = Record::default();
    for c in ['a', 'b', 'c', 'd', 'e'] {
        record.apply(Add(c)).unwrap();
    }
    record.go_to(1).unwrap().unwrap();
    assert_eq!(record.set_limit(2), 4);
    assert_eq!(record.len(), 4);
    assert_eq!(record.current(), 0);
    record.go_to(4).unwrap().unwrap();
    assert_eq!(record.target(), "abcde");
    assert_eq!(record.set_limit(2), 2);
    assert_eq!(record.len(), 2);
    assert_eq!(record.current(), 2);
}

#[test]
fn clear_keeps_target() {
    let mut record = Record::default();
    record.apply(Add('a')).unwrap();
    record.apply(Add('b')).unwrap();
    record.clear();
    assert_eq!(record.len(), 0);
    assert_eq!(record.target(), "ab");
    assert!(!record.is_saved());
    assert!(record.is_empty());
    assert_eq!(record.into_target(), "ab");
}

#[test]
fn signals_reach_the_observer() {
    let mut record: Record<Add, Log> = RecordBuilder::new().build_with(String::new(), Log::default());
    record.apply(Add('a')).unwrap();
    record.undo().unwrap().unwrap();
    record.set_saved(false);
    let log = record.disconnect().unwrap();
    assert_eq!(
        log.0,
        vec![
            Signal::Undo(true),
            Signal::Saved(false),
            Signal::Undo(false),
            Signal::Redo(true),
            Signal::Saved(true),
            Signal::Saved(false),
        ]
    );
}

#[test]
fn builder_settings() {
    let mut builder = RecordBuilder::new();
    builder.capacity(8).limit(4).saved(false);
    let record: Record<Add> = builder.build(String::from("q"));
    assert_eq!(record.limit(), 4);
    assert!(!record.is_saved());
    assert!(record.capacity() >= 8);
    assert_eq!(record.target(), "q");
}

#[test]
fn undo_error_leaves_cursor() {
    let mut record = Record::default();
    record.apply(Add('a')).unwrap();
    record.target_mut().clear();
    assert_eq!(record.undo(), Some(Err("`s` is empty")));
    assert_eq!(record.current(), 1);
}

#[test]
fn cursor_stays_within_bounds() {
    let mut record: Record<Add> = RecordBuilder::new().limit(2).build(String::new());
    for c in ['a', 'b', 'c'] {
        record.apply(Add(c)).unwrap();
        assert!(record.current() <= record.len());
        assert!(record.len() <= record.limit());
    }
    record.undo().unwrap().unwrap();
    assert!(record.current() <= record.len() && record.len() <= record.limit());
}

#[test]
fn extend_applies_in_order() {
    let mut record = Record::default();
    record.extend(vec![Add('a'), Add('b'), Add('c')]).unwrap();
    assert_eq!(record.target(), "abc");
    assert_eq!(record.len(), 3);
    let mut record = Record::default();
    record.apply(Add('q')).unwrap();
    record.target_mut().clear();
    record.undo().unwrap().unwrap_err();
    assert_eq!(record.current(), 1);
}

#[test]
fn connect_with_moves_the_record() {
    let mut record: Record<Add> = Record::default();
    record.apply(Add('a')).unwrap();
    let mut record = record.connect_with(Log::default());
    record.undo().unwrap().unwrap();
    assert_eq!(record.target(), "");
    let log = record.disconnect().unwrap();
    assert_eq!(log.0, vec![Signal::Undo(false), Signal::Redo(true), Signal::Saved(true)]);
    assert!(record.disconnect().is_none());
}
