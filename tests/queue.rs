use redo::{Command, Record};

struct Add(char);

impl Command for Add {
    type Target = String;
    type Error = &'static str;

    fn steps(&self, before: String, after: String) -> bool {
        after == format!("{}{}", before, self.0)
    }

    fn apply(&mut self, s: &mut String) -> Result<(), &'static str> {
        s.push(self.0);
        Ok(())
    }

    fn undo(&mut self, s: &mut String) -> Result<(), &'static str> {
        self.0 = s.pop().ok_or("`s` is empty")?;
        Ok(())
    }
}

#[test]
fn queue_commit() {
    let mut record = Record::default();
    let mut q1 = record.queue();
    q1.redo();
    q1.redo();
    q1.redo();
    let mut q2 = q1.queue();
    q2.undo();
    q2.undo();
    q2.undo();
    let mut q3 = q2.queue();
    q3.apply(Add('a'));
    q3.apply(Add('b'));
    q3.apply(Add('c'));
    assert_eq!(q3.target(), "");
    q3.commit().unwrap();
    assert_eq!(q2.target(), "abc");
    q2.commit().unwrap();
    assert_eq!(q1.target(), "");
    q1.commit().unwrap();
    assert_eq!(record.target(), "abc");
}

#[test]
fn queue_leaves_record_alone_until_commit() {
    let mut record = Record::default();
    record.apply(Add('a')).unwrap();
    let mut q = record.queue();
    q.apply(Add('b'));
    q.undo();
    q.go_to(0);
    assert_eq!(q.len(), 3);
    assert_eq!(q.target(), "a");
    q.cancel();
    assert_eq!(record.target(), "a");
    assert_eq!(record.len(), 1);
}

#[test]
fn queue_commit_stops_at_first_error() {
    let mut record = Record::default();
    record.apply(Add('a')).unwrap();
    record.target_mut().clear();
    let mut q = record.queue();
    q.undo();
    q.apply(Add('z'));
    assert_eq!(q.commit(), Err("`s` is empty"));
    assert_eq!(record.target(), "");
    assert_eq!(record.len(), 1);
}

#[test]
fn queue_extend_keeps_order() {
    let mut record = Record::default();
    let mut q = record.queue();
    q.extend(vec![Add('x'), Add('y')]);
    assert!(!q.is_empty());
    q.commit().unwrap();
    assert_eq!(record.target(), "xy");
}
