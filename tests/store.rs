use stampffabrik::model::User;
use stampffabrik::store::{MemoryStore, StoreError, UserStore};

fn user(id: &str, email: &str) -> User {
    User::new(id.into(), email.into(), "$argon2id$h".into(), "0".into())
}

#[test]
fn create_then_find() {
    let mut s = MemoryStore::new();
    assert_eq!(s.len(), 0);
    assert_eq!(s.create(user("1", "a@b.com")), Ok(user("1", "a@b.com")));
    assert_eq!(s.len(), 1);
    assert_eq!(s.find_by_id("1"), Ok(Some(user("1", "a@b.com"))));
    assert_eq!(s.find_by_email("a@b.com"), Ok(Some(user("1", "a@b.com"))));
    assert_eq!(s.find_by_id("2"), Ok(None));
    assert_eq!(s.find_by_email("c@d.com"), Ok(None));
}

#[test]
fn create_refuses_taken_email_or_identifier() {
    let mut s = MemoryStore::new();
    s.create(user("1", "a@b.com")).unwrap();
    assert_eq!(s.create(user("2", "a@b.com")), Err(StoreError::Conflict));
    assert_eq!(s.create(user("1", "c@d.com")), Err(StoreError::Conflict));
    assert_eq!(s.len(), 1);
    assert_eq!(s.create(user("2", "c@d.com")), Ok(user("2", "c@d.com")));
    assert_eq!(s.len(), 2);
}

#[test]
fn delete_returns_the_record_once() {
    let mut s = MemoryStore::new();
    s.create(user("1", "a@b.com")).unwrap();
    s.create(user("2", "c@d.com")).unwrap();
    assert_eq!(s.delete("1"), Ok(user("1", "a@b.com")));
    assert_eq!(s.delete("1"), Err(StoreError::NotFound));
    assert_eq!(s.find_by_id("1"), Ok(None));
    assert_eq!(s.find_by_id("2"), Ok(Some(user("2", "c@d.com"))));
    assert_eq!(s.len(), 1);
    assert_eq!(s.create(user("3", "a@b.com")), Ok(user("3", "a@b.com")));
}
