use redo::{Command, Record, RecordBuilder};

struct Add(char);

impl Command for Add {
    type Target = String;
    type Error = &'static str;

    fn steps(&self, before: String, after: String) -> bool {
        after == format!("{}{}", before, self.0)
    }

    fn apply(&mut self, s: &mut String) -> Result<(), &'static str> {
        s.push(self.0);
        Ok(())
    }

    fn undo(&mut self, s: &mut String) -> Result<(), &'static str> {
        self.0 = s.pop().ok_or("`s` is empty")?;
        Ok(())
    }
}

#[test]
fn checkpoint_commit() {
    let mut record = Record::default();
    let mut cp1 = record.checkpoint();
    cp1.apply(Add('a')).unwrap();
    cp1.apply(Add('b')).unwrap();
    cp1.apply(Add('c')).unwrap();
    assert_eq!(cp1.target(), "abc");
    let mut cp2 = cp1.checkpoint();
    cp2.apply(Add('d')).unwrap();
    cp2.apply(Add('e')).unwrap();
    cp2.apply(Add('f')).unwrap();
    assert_eq!(cp2.target(), "abcdef");
    let mut cp3 = cp2.checkpoint();
    cp3.apply(Add('g')).unwrap();
    cp3.apply(Add('h')).unwrap();
    cp3.apply(Add('i')).unwrap();
    assert_eq!(cp3.target(), "abcdefghi");
    cp3.commit();
    cp2.commit();
    cp1.commit();
    assert_eq!(record.target(), "abcdefghi");
}

#[test]
fn cancel() {
    let mut record = Record::default();
    let mut cp1 = record.checkpoint();
    cp1.apply(Add('a')).unwrap();
    cp1.apply(Add('b')).unwrap();
    cp1.apply(Add('c')).unwrap();
    let mut cp2 = cp1.checkpoint();
    cp2.apply(Add('d')).unwrap();
    cp2.apply(Add('e')).unwrap();
    cp2.apply(Add('f')).unwrap();
    let mut cp3 = cp2.checkpoint();
    cp3.apply(Add('g')).unwrap();
    cp3.apply(Add('h')).unwrap();
    cp3.apply(Add('i')).unwrap();
    assert_eq!(cp3.target(), "abcdefghi");
    cp3.cancel().unwrap();
    assert_eq!(cp2.target(), "abcdef");
    cp2.cancel().unwrap();
    assert_eq!(cp1.target(), "abc");
    cp1.cancel().unwrap();
    assert_eq!(record.target(), "");
}

#[test]
fn saved() {
    let mut record = Record::default();
    record.apply(Add('a')).unwrap();
    record.apply(Add('b')).unwrap();
    record.apply(Add('c')).unwrap();
    record.set_saved(true);
    record.undo().unwrap().unwrap();
    record.undo().unwrap().unwrap();
    record.undo().unwrap().unwrap();
    let mut cp = record.checkpoint();
    cp.apply(Add('d')).unwrap();
    cp.apply(Add('e')).unwrap();
    cp.apply(Add('f')).unwrap();
    assert_eq!(cp.target(), "def");
    cp.cancel().unwrap();
    assert_eq!(record.target(), "");
    record.redo().unwrap().unwrap();
    record.redo().unwrap().unwrap();
    record.redo().unwrap().unwrap();
    assert!(record.is_saved());
    assert_eq!(record.target(), "abc");
}

#[test]
fn checkpoint_cancel_restores_cursor_and_entries() {
    let mut record = Record::default();
    let mut cp = record.checkpoint();
    cp.apply(Add('a')).unwrap();
    cp.apply(Add('b')).unwrap();
    cp.apply(Add('c')).unwrap();
    assert_eq!(cp.target(), "abc");
    assert_eq!(cp.len(), 3);
    cp.cancel().unwrap();
    assert_eq!(record.target(), "");
    assert_eq!(record.len(), 0);
    assert_eq!(record.current(), 0);
    assert!(record.is_saved());
}

#[test]
fn checkpoint_cancel_brings_back_redo_tail() {
    let mut record = Record::default();
    record.apply(Add('a')).unwrap();
    record.apply(Add('b')).unwrap();
    record.undo().unwrap().unwrap();
    let mut cp = record.checkpoint();
    cp.apply(Add('x')).unwrap();
    assert_eq!(cp.target(), "ax");
    cp.undo().unwrap().unwrap();
    cp.redo().unwrap().unwrap();
    cp.go_to(0).unwrap().unwrap();
    assert_eq!(cp.target(), "");
    cp.cancel().unwrap();
    assert_eq!(record.target(), "a");
    assert_eq!(record.len(), 2);
    record.redo().unwrap().unwrap();
    assert_eq!(record.target(), "ab");
}

#[test]
fn checkpoint_extend_applies_in_order() {
    let mut record = Record::default();
    let mut cp = record.checkpoint();
    cp.extend(vec![Add('x'), Add('y'), Add('z')]).unwrap();
    assert_eq!(cp.target(), "xyz");
    assert_eq!(cp.len(), 3);
    cp.cancel().unwrap();
    assert_eq!(record.target(), "");
}

#[test]
fn checkpoint_undo_error_is_not_logged() {
    let mut record = Record::default();
    record.apply(Add('a')).unwrap();
    record.target_mut().clear();
    let mut cp = record.checkpoint();
    assert_eq!(cp.undo(), Some(Err("`s` is empty")));
    assert_eq!(cp.len(), 0);
    assert!(cp.redo().is_none());
}

#[test]
fn checkpoint_cancel_brings_back_evicted_entry() {
    let mut record: Record<Add> = RecordBuilder::new().limit(2).build(String::new());
    record.apply(Add('a')).unwrap();
    record.apply(Add('b')).unwrap();
    let mut cp = record.checkpoint();
    cp.apply(Add('c')).unwrap();
    assert_eq!(cp.target(), "abc");
    cp.cancel().unwrap();
    assert_eq!(record.target(), "ab");
    assert_eq!(record.len(), 2);
    record.undo().unwrap().unwrap();
    record.undo().unwrap().unwrap();
    assert_eq!(record.target(), "");
}

#[test]
fn checkpoint_cancel_of_nothing_succeeds() {
    let mut record = Record::default();
    record.apply(Add('a')).unwrap();
    let cp = record.checkpoint();
    assert!(cp.is_empty());
    cp.cancel().unwrap();
    assert_eq!(record.target(), "a");
}

#[test]
fn nested_commit_is_cancelled_by_outer() {
    let mut record = Record::default();
    let mut cp1 = record.checkpoint();
    cp1.apply(Add('a')).unwrap();
    let mut cp2 = cp1.checkpoint();
    cp2.apply(Add('b')).unwrap();
    cp2.apply(Add('c')).unwrap();
    assert_eq!(cp2.len(), 2);
    cp2.commit();
    assert_eq!(cp1.len(), 3);
    assert_eq!(cp1.target(), "abc");
    cp1.cancel().unwrap();
    assert_eq!(record.target(), "");
    assert_eq!(record.len(), 0);
}

#[test]
fn nested_cancel_keeps_outer_changes() {
    let mut record = Record::default();
    let mut cp1 = record.checkpoint();
    cp1.apply(Add('a')).unwrap();
    let mut cp2 = cp1.checkpoint();
    cp2.apply(Add('b')).unwrap();
    cp2.undo().unwrap().unwrap();
    cp2.redo().unwrap().unwrap();
    cp2.go_to(0).unwrap().unwrap();
    cp2.cancel().unwrap();
    assert_eq!(cp1.target(), "a");
    assert_eq!(cp1.len(), 1);
    cp1.commit();
    assert_eq!(record.target(), "a");
}
