//! The user-record store: the operations the account flows need, and an
//! in-memory store that keeps identifiers and emails unique.

use crate::model::{same_text, User, UserModel};
use vstd::prelude::*;

verus! {

#[derive(Debug, Clone, Copy, PartialEq, Eq)]
pub enum StoreError {
    /// The email or the identifier is already in use.
    Conflict,
    /// No record has that identifier.
    NotFound,
    /// The backing store could not be reached or timed out.
    StoreUnavailable,
}

/// Some record in `m` has this email.
pub open spec fn email_taken(m: Map<Seq<char>, UserModel>, email: Seq<char>) -> bool {
    exists|id: Seq<char>| #[trigger] m.contains_key(id) && m[id].email == email
}

/// Each record is filed under its own identifier, and no two share an email.
pub open spec fn records_wf(m: Map<Seq<char>, UserModel>) -> bool {
    &&& forall|id: Seq<char>| #[trigger] m.contains_key(id) ==> m[id].uuid == id
    &&& forall|a: Seq<char>, b: Seq<char>|
        #[trigger] m.contains_key(a) && #[trigger] m.contains_key(b) && m[a].email == m[b].email ==> a == b
}

/// Persistence for user records, keyed by identifier. Every operation is a
/// single read or a single-record write. A store in front of a database
/// reports `StoreUnavailable` only when it cannot reach it, and then changes
/// nothing; a reachable store answers every operation.
pub trait UserStore {
    /// The records held, by identifier.
    spec fn records(&self) -> Map<Seq<char>, UserModel>;

    /// The store's own invariant; every operation keeps it.
    spec fn wf(&self) -> bool;

    /// The backing store can be reached, so no operation reports
    /// `StoreUnavailable`.
    spec fn reachable(&self) -> bool;

    /// A well-formed store files each record under its identifier and
    /// holds each email once.
    proof fn lemma_records_wf(&self)
        requires
            self.wf(),
        ensures
            records_wf(self.records()),
    ;

    fn find_by_email(&self, email: &str) -> (r: Result<Option<User>, StoreError>)
        requires
            self.wf(),
        ensures
            r matches Ok(Some(u)) ==> self.records().contains_key(u.uuid@) && self.records()[u.uuid@] == u@
                && u.email@ == email@,
            r matches Ok(None) ==> !email_taken(self.records(), email@),
            r matches Err(e) ==> e is StoreUnavailable,
            self.reachable() ==> r is Ok,
    ;

    fn find_by_id(&self, id: &str) -> (r: Result<Option<User>, StoreError>)
        requires
            self.wf(),
        ensures
            r matches Ok(Some(u)) ==> self.records().contains_key(id@) && self.records()[id@] == u@,
            r matches Ok(None) ==> !self.records().contains_key(id@),
            r matches Err(e) ==> e is StoreUnavailable,
            self.reachable() ==> r is Ok,
    ;

    /// Adds `user` unless its email or identifier is taken.
    fn create(&mut self, user: User) -> (r: Result<User, StoreError>)
        requires
            old(self).wf(),
        ensures
            final(self).wf(),
            r matches Ok(u) ==> u@ == user@ && !email_taken(old(self).records(), user.email@)
                && !old(self).records().contains_key(user.uuid@)
                && final(self).records() == old(self).records().insert(user.uuid@, user@),
            r matches Err(e) ==> final(self).records() == old(self).records() && !(e is NotFound),
            r matches Err(StoreError::Conflict) ==> email_taken(old(self).records(), user.email@)
                || old(self).records().contains_key(user.uuid@),
            email_taken(old(self).records(), user.email@) || old(self).records().contains_key(user.uuid@) ==> r is Err,
            old(self).reachable() ==> !(r matches Err(StoreError::StoreUnavailable)),
    ;

    /// Removes and returns the record with identifier `id`.
    fn delete(&mut self, id: &str) -> (r: Result<User, StoreError>)
        requires
            old(self).wf(),
        ensures
            final(self).wf(),
            r matches Ok(u) ==> old(self).records().contains_key(id@) && old(self).records()[id@] == u@
                && final(self).records() == old(self).records().remove(id@),
            r matches Err(e) ==> final(self).records() == old(self).records() && !(e is Conflict),
            r matches Err(StoreError::NotFound) ==> !old(self).records().contains_key(id@),
            !old(self).records().contains_key(id@) ==> r is Err,
            old(self).reachable() ==> !(r matches Err(StoreError::StoreUnavailable)),
    ;
}

/// The records of `s`, by identifier.
pub open spec fn map_of(s: Seq<UserModel>) -> Map<Seq<char>, UserModel>
    decreases s.len(),
{
    if s.len() == 0 {
        Map::empty()
    } else {
        map_of(s.drop_last()).insert(s.last().uuid, s.last())
    }
}

pub open spec fn models(users: Seq<User>) -> Seq<UserModel> {
    users.map_values(|u: User| u@)
}

/// No two entries share an identifier or an email.
pub open spec fn unique_entries(s: Seq<UserModel>) -> bool {
    forall|i: int, j: int|
        #![trigger s[i], s[j]]
        0 <= i < s.len() && 0 <= j < s.len() && i != j ==> s[i].uuid != s[j].uuid && s[i].email != s[j].email
}

proof fn lemma_map_of(s: Seq<UserModel>)
    requires
        unique_entries(s),
    ensures
        forall|id: Seq<char>| #[trigger] map_of(s).contains_key(id) ==> exists|i: int| 0 <= i < s.len() && s[i].uuid == id,
        forall|i: int| 0 <= i < s.len() ==> #[trigger] map_of(s).contains_key(s[i].uuid) && map_of(s)[s[i].uuid] == s[i],
    decreases s.len(),
{
    if s.len() > 0 {
        let t = s.drop_last();
        let last = s.last();
        lemma_unique_prefix(s);
        lemma_map_of(t);
        assert(map_of(s) == map_of(t).insert(last.uuid, last));
        assert forall|id: Seq<char>| #[trigger] map_of(s).contains_key(id) implies exists|i: int| 0 <= i < s.len() && s[i].uuid == id by {
            if id == last.uuid {
                assert(s[s.len() - 1].uuid == id);
            } else {
                assert(map_of(t).contains_key(id));
                let i = choose|i: int| 0 <= i < t.len() && t[i].uuid == id;
                assert(s[i] == t[i]);
            }
        }
        assert forall|i: int| 0 <= i < s.len() implies #[trigger] map_of(s).contains_key(s[i].uuid) && map_of(s)[s[i].uuid] == s[i] by {
            if i < s.len() - 1 {
                assert(t[i] == s[i]);
                assert(map_of(t).contains_key(t[i].uuid));
            }
        }
    }
}

proof fn lemma_unique_prefix(s: Seq<UserModel>)
    requires
        unique_entries(s),
        s.len() > 0,
    ensures
        unique_entries(s.drop_last()),
        forall|i: int| 0 <= i < s.len() - 1 ==> s[i].uuid != s.last().uuid,
{
    let t = s.drop_last();
    assert forall|i: int, j: int| 0 <= i < t.len() && 0 <= j < t.len() && i != j implies t[i].uuid != t[j].uuid
        && t[i].email != t[j].email by {
        assert(t[i] == s[i] && t[j] == s[j]);
    }
    assert forall|i: int| 0 <= i < s.len() - 1 implies s[i].uuid != s.last().uuid by {
        assert(s[i].uuid != s[s.len() - 1].uuid);
    }
}

proof fn lemma_map_of_len(s: Seq<UserModel>)
    requires
        unique_entries(s),
    ensures
        map_of(s).dom().len() == s.len(),
        map_of(s).dom().finite(),
    decreases s.len(),
{
    if s.len() > 0 {
        let t = s.drop_last();
        lemma_unique_prefix(s);
        lemma_map_of_len(t);
        lemma_map_of(t);
        assert(!map_of(t).contains_key(s.last().uuid));
    }
}

proof fn lemma_unique_remove(s: Seq<UserModel>, k: int)
    requires
        unique_entries(s),
        0 <= k < s.len(),
    ensures
        unique_entries(s.remove(k)),
{
    let t = s.remove(k);
    assert forall|i: int, j: int| 0 <= i < t.len() && 0 <= j < t.len() && i != j implies t[i].uuid != t[j].uuid
        && t[i].email != t[j].email by {
        let a = if i < k { i } else { i + 1 };
        let b = if j < k { j } else { j + 1 };
        assert(t[i] == s[a] && t[j] == s[b]);
    }
}

/// A store that keeps its records in memory, for tests and for running
/// without a database.
pub struct MemoryStore {
    users: Vec<User>,
}

impl MemoryStore {
    pub fn new() -> (r: MemoryStore)
        ensures
            r.wf(),
            r.records() == Map::<Seq<char>, UserModel>::empty(),
    {
        let r = MemoryStore { users: Vec::new() };
        assert(models(r.users@) =~= Seq::<UserModel>::empty());
        r
    }

    /// Number of records held.
    pub fn len(&self) -> (r: usize)
        requires
            self.wf(),
        ensures
            r == self.records().dom().len(),
    {
        proof {
            lemma_map_of_len(models(self.users@));
        }
        self.users.len()
    }
}

impl UserStore for MemoryStore {
    closed spec fn records(&self) -> Map<Seq<char>, UserModel> {
        map_of(models(self.users@))
    }

    closed spec fn wf(&self) -> bool {
        unique_entries(models(self.users@))
    }

    /// Memory is always at hand.
    open spec fn reachable(&self) -> bool {
        true
    }

    proof fn lemma_records_wf(&self) {
        let s = models(self.users@);
        lemma_map_of(s);
        let m = map_of(s);
        assert forall|id: Seq<char>| #[trigger] m.contains_key(id) implies m[id].uuid == id by {
            let i = choose|i: int| 0 <= i < s.len() && s[i].uuid == id;
        }
        assert forall|a: Seq<char>, b: Seq<char>|
            #[trigger] m.contains_key(a) && #[trigger] m.contains_key(b) && m[a].email == m[b].email implies a == b by {
            let i = choose|i: int| 0 <= i < s.len() && s[i].uuid == a;
            let j = choose|j: int| 0 <= j < s.len() && s[j].uuid == b;
        }
    }

    fn find_by_email(&self, email: &str) -> (r: Result<Option<User>, StoreError>) {
        proof {
            lemma_map_of(models(self.users@));
        }
        let ghost s = models(self.users@);
        assert(self.records() == map_of(s));
        let mut i: usize = 0;
        while i < self.users.len()
            invariant
                s == models(self.users@),
                unique_entries(s),
                self.records() == map_of(s),
                i <= self.users@.len(),
                forall|k: int| 0 <= k < i ==> #[trigger] s[k].email != email@,
            decreases self.users@.len() - i,
        {
            if same_text(self.users[i].email.as_str(), email) {
                proof {
                    assert(s[i as int] == self.users@[i as int]@);
                    lemma_map_of(s);
                }
                return Ok(Some(self.users[i].duplicate()));
            }
            i += 1;
        }
        proof {
            lemma_map_of(s);
            assert forall|id: Seq<char>| #[trigger] self.records().contains_key(id) implies self.records()[id].email != email@ by {
                let k = choose|k: int| 0 <= k < s.len() && s[k].uuid == id;
                assert(self.records()[s[k].uuid] == s[k]);
            }
        }
        Ok(None)
    }

    fn find_by_id(&self, id: &str) -> (r: Result<Option<User>, StoreError>) {
        proof {
            lemma_map_of(models(self.users@));
        }
        let ghost s = models(self.users@);
        assert(self.records() == map_of(s));
        let mut i: usize = 0;
        while i < self.users.len()
            invariant
                s == models(self.users@),
                unique_entries(s),
                self.records() == map_of(s),
                i <= self.users@.len(),
                forall|k: int| 0 <= k < i ==> #[trigger] s[k].uuid != id@,
            decreases self.users@.len() - i,
        {
            if same_text(self.users[i].uuid.as_str(), id) {
                proof {
                    assert(s[i as int] == self.users@[i as int]@);
                    lemma_map_of(s);
                }
                return Ok(Some(self.users[i].duplicate()));
            }
            i += 1;
        }
        Ok(None)
    }

    fn create(&mut self, user: User) -> (r: Result<User, StoreError>) {
        proof {
            lemma_map_of(models(self.users@));
        }
        let ghost s = models(self.users@);
        assert(self.records() == map_of(s));
        let mut i: usize = 0;
        while i < self.users.len()
            invariant
                s == models(self.users@),
                unique_entries(s),
                self.records() == map_of(s),
                i <= self.users@.len(),
                forall|k: int| 0 <= k < i ==> #[trigger] s[k].uuid != user.uuid@ && s[k].email != user.email@,
            decreases self.users@.len() - i,
        {
            if same_text(self.users[i].uuid.as_str(), user.uuid.as_str()) || same_text(
                self.users[i].email.as_str(),
                user.email.as_str(),
            ) {
                proof {
                    assert(s[i as int] == self.users@[i as int]@);
                    lemma_map_of(s);
                    assert(self.records().contains_key(s[i as int].uuid));
                    assert(self.records()[s[i as int].uuid] == s[i as int]);
                }
                return Err(StoreError::Conflict);
            }
            i += 1;
        }
        let ghost s2 = s.push(user@);
        proof {
            lemma_map_of(s);
            assert forall|id: Seq<char>| #[trigger] self.records().contains_key(id) implies self.records()[id].email != user.email@ by {
                let k = choose|k: int| 0 <= k < s.len() && s[k].uuid == id;
                assert(self.records()[s[k].uuid] == s[k]);
            }
            assert(unique_entries(s2)) by {
                assert forall|a: int, b: int| 0 <= a < s2.len() && 0 <= b < s2.len() && a != b implies s2[a].uuid != s2[b].uuid
                    && s2[a].email != s2[b].email by {
                    if a < s.len() && b < s.len() {
                        assert(s2[a] == s[a] && s2[b] == s[b]);
                    } else if a < s.len() {
                        assert(s2[a] == s[a]);
                    } else {
                        assert(s2[b] == s[b]);
                    }
                }
            }
            assert(models(self.users@.push(user)) =~= s2);
            assert(s2.drop_last() =~= s);
        }
        let created = user.duplicate();
        self.users.push(user);
        Ok(created)
    }

    fn delete(&mut self, id: &str) -> (r: Result<User, StoreError>) {
        proof {
            lemma_map_of(models(self.users@));
        }
        let ghost s = models(self.users@);
        assert(self.records() == map_of(s));
        let mut i: usize = 0;
        while i < self.users.len()
            invariant
                s == models(self.users@),
                self.users@ == old(self).users@,
                unique_entries(s),
                self.records() == map_of(s),
                i <= self.users@.len(),
                forall|k: int| 0 <= k < i ==> #[trigger] s[k].uuid != id@,
            decreases self.users@.len() - i,
        {
            if same_text(self.users[i].uuid.as_str(), id) {
                let ghost s2 = s.remove(i as int);
                proof {
                    assert(s[i as int] == self.users@[i as int]@);
                    assert(s[i as int].uuid == id@);
                    lemma_map_of(s);
                    lemma_unique_remove(s, i as int);
                    assert(models(self.users@.remove(i as int)) =~= s2);
                    lemma_map_of(s2);
                    assert forall|x: Seq<char>| #[trigger] map_of(s2).contains_key(x) <==> map_of(s).remove(id@).contains_key(x) by {
                        if map_of(s2).contains_key(x) {
                            let j = choose|j: int| 0 <= j < s2.len() && s2[j].uuid == x;
                            let a = if j < i { j } else { j + 1 };
                            assert(s2[j] == s[a]);
                        }
                        if map_of(s).remove(id@).contains_key(x) {
                            assert(x != id@);
                            assert(map_of(s).contains_key(x));
                            let a = choose|a: int| 0 <= a < s.len() && s[a].uuid == x;
                            assert(a != i);
                            let j = if a < i { a } else { a - 1 };
                            assert(s2[j] == s[a]);
                        }
                    }
                    assert forall|x: Seq<char>| #[trigger] map_of(s2).contains_key(x) implies map_of(s2)[x] == map_of(s).remove(id@)[x] by {
                        let j = choose|j: int| 0 <= j < s2.len() && s2[j].uuid == x;
                        let a = if j < i { j } else { j + 1 };
                        assert(s2[j] == s[a]);
                        assert(map_of(s2)[s2[j].uuid] == s2[j]);
                        assert(map_of(s)[s[a].uuid] == s[a]);
                    }
                    assert(map_of(s2) =~= map_of(s).remove(id@));
                }
                let removed = self.users.remove(i);
                proof {
                    assert(removed@ == s[i as int]);
                    assert(models(self.users@) == s2);
                    assert(self.records() == map_of(s).remove(id@));
                }
                return Ok(removed);
            }
            i += 1;
        }
        Err(StoreError::NotFound)
    }
}

} // verus!
