//! The tracked entities and the stored state.
//!
//! A tracker state covers one repository and one label.  It holds, per entity
//! kind, a snapshot map (current truth, keyed by the upstream identifier), an
//! append-only history of transition events, and a watermark: the latest
//! upstream timestamp already incorporated.

use vstd::prelude::*;

use crate::string_set::StringSet;
use crate::time::DateTime;

verus! {

/// Version tag of the persisted state format.
pub const STATE_VERSION: u32 = 1;

/// An entity with a stable string identifier.
pub trait Keyed {
    /// The identifier, as the character sequence it denotes.
    spec fn key_spec(&self) -> Seq<char>;

    /// The identifier.
    fn key(&self) -> (r: &String)
        ensures
            r@ == self.key_spec(),
    ;
}

/// An issue snapshot: created on first fetch, overwritten by later fetches,
/// never deleted.
#[derive(Debug)]
pub struct Issue {
    pub id: String,
    pub title: String,
    pub is_open: bool,
    pub body: String,
    pub last_update: DateTime,
    pub url: String,
}

impl Keyed for Issue {
    open spec fn key_spec(&self) -> Seq<char> {
        self.id@
    }

    fn key(&self) -> (r: &String) {
        &self.id
    }
}

/// One transition in an issue's history.
#[derive(Clone, Copy, PartialEq, Eq, Structural, Debug)]
pub enum IssueAction {
    New,
    Closed,
    NewClosed,
}

/// A pull request snapshot.  All fields but `landed_in` originate upstream;
/// `landed_in` is locally owned and only ever grows.
#[derive(Debug)]
pub struct PullRequest {
    pub id: String,
    pub title: String,
    pub is_open: bool,
    pub is_merged: bool,
    pub body: String,
    pub last_update: DateTime,
    pub url: String,
    pub base_ref: String,
    pub merge_commit: Option<String>,
    pub landed_in: StringSet,
}

impl Keyed for PullRequest {
    open spec fn key_spec(&self) -> Seq<char> {
        self.id@
    }

    fn key(&self) -> (r: &String) {
        &self.id
    }
}

impl PullRequest {
    /// Overwrites every upstream-origin field from `from` while keeping the
    /// locally owned `landed_in` unchanged.
    pub fn update(&mut self, from: PullRequest)
        ensures
            *final(self) == (PullRequest { landed_in: old(self).landed_in, ..from }),
    {
        let mut landed_in = StringSet::new();
        core::mem::swap(&mut landed_in, &mut self.landed_in);
        *self = PullRequest { landed_in, ..from };
    }
}

/// One transition in a pull request's history.  `Landed` carries the channels
/// newly observed to contain the merge commit.
#[derive(Clone, Debug)]
pub enum PullAction {
    New,
    Closed,
    NewClosed,
    Merged,
    NewMerged,
    Landed(Vec<String>),
}

/// A history event: when, which entity, what happened.
pub type Event<A> = (DateTime, String, A);

/// The snapshot map of `s`, keyed by each entity's identifier.
pub open spec fn map_of<T: Keyed>(s: Seq<T>) -> Map<Seq<char>, T>
    decreases s.len(),
{
    if s.len() == 0 {
        Map::empty()
    } else {
        map_of(s.drop_last()).insert(s.last().key_spec(), s.last())
    }
}

/// No two entries share an identifier.
pub open spec fn distinct_keys<T: Keyed>(s: Seq<T>) -> bool {
    forall|i: int, j: int|
        0 <= i < j < s.len() ==> s[i].key_spec() != s[j].key_spec()
}

/// An identifier is in the map exactly when some entry carries it.
proof fn lemma_map_of_dom<T: Keyed>(s: Seq<T>, k: Seq<char>)
    ensures
        map_of(s).dom().contains(k) == exists|i: int|
            0 <= i < s.len() && #[trigger] s[i].key_spec() == k,
    decreases s.len(),
{
    if s.len() > 0 {
        lemma_map_of_dom(s.drop_last(), k);
        if map_of(s).dom().contains(k) {
            if k == s.last().key_spec() {
                assert(s[s.len() - 1].key_spec() == k);
            } else {
                let i = choose|i: int|
                    0 <= i < s.drop_last().len() && #[trigger] s.drop_last()[i].key_spec() == k;
                assert(s[i].key_spec() == k);
            }
        }
        if exists|i: int| 0 <= i < s.len() && #[trigger] s[i].key_spec() == k {
            let i = choose|i: int| 0 <= i < s.len() && #[trigger] s[i].key_spec() == k;
            if i < s.len() - 1 {
                assert(s.drop_last()[i].key_spec() == k);
            }
        }
    }
}

/// With distinct identifiers, each entry is what the map stores for its key.
proof fn lemma_map_of_index<T: Keyed>(s: Seq<T>, i: int)
    requires
        distinct_keys(s),
        0 <= i < s.len(),
    ensures
        map_of(s).dom().contains(s[i].key_spec()),
        map_of(s)[s[i].key_spec()] == s[i],
    decreases s.len(),
{
    if i < s.len() - 1 {
        assert(s.drop_last()[i] == s[i]);
        lemma_map_of_index(s.drop_last(), i);
        assert(s.last().key_spec() != s[i].key_spec());
    }
}

/// Replacing the entry at `i` by one with the same key updates the map.
proof fn lemma_map_of_update<T: Keyed>(s: Seq<T>, i: int, v: T)
    requires
        distinct_keys(s),
        0 <= i < s.len(),
        v.key_spec() == s[i].key_spec(),
    ensures
        map_of(s.update(i, v)) == map_of(s).insert(v.key_spec(), v),
        distinct_keys(s.update(i, v)),
    decreases s.len(),
{
    let n = s.update(i, v);
    assert forall|a: int, b: int| 0 <= a < b < n.len() implies n[a].key_spec()
        != n[b].key_spec() by {
        assert(s[a].key_spec() != s[b].key_spec());
    }
    if i == s.len() - 1 {
        assert(n.drop_last() =~= s.drop_last());
        assert(n.last() == v);
        assert(map_of(s.drop_last()).insert(v.key_spec(), v) =~= map_of(s).insert(
            v.key_spec(),
            v,
        ));
    } else {
        assert(n.drop_last() =~= s.drop_last().update(i, v));
        assert(s.drop_last()[i] == s[i]);
        lemma_map_of_update(s.drop_last(), i, v);
        assert(n.last() == s.last());
        assert(map_of(n) == map_of(s.drop_last()).insert(v.key_spec(), v).insert(
            s.last().key_spec(),
            s.last(),
        ));
        assert(s.last().key_spec() != v.key_spec());
        assert(map_of(s.drop_last()).insert(v.key_spec(), v).insert(s.last().key_spec(), s.last())
            =~= map_of(s).insert(v.key_spec(), v));
    }
}

/// Removing the entry at `i` removes its key from the map.
proof fn lemma_map_of_remove<T: Keyed>(s: Seq<T>, i: int)
    requires
        distinct_keys(s),
        0 <= i < s.len(),
    ensures
        map_of(s.remove(i)) == map_of(s).remove(s[i].key_spec()),
        distinct_keys(s.remove(i)),
    decreases s.len(),
{
    let n = s.remove(i);
    assert forall|a: int, b: int| 0 <= a < b < n.len() implies n[a].key_spec()
        != n[b].key_spec() by {
        let sa: int = if a < i { a } else { a + 1 };
        let sb: int = if b < i { b } else { b + 1 };
        assert(n[a] == s[sa]);
        assert(n[b] == s[sb]);
        assert(s[sa].key_spec() != s[sb].key_spec());
    }
    if i == s.len() - 1 {
        assert(n =~= s.drop_last());
        lemma_map_of_dom(s.drop_last(), s[i].key_spec());
        assert(!map_of(s.drop_last()).dom().contains(s[i].key_spec()));
        assert(map_of(s.drop_last()) =~= map_of(s).remove(s[i].key_spec()));
    } else {
        assert(n.drop_last() =~= s.drop_last().remove(i));
        assert(s.drop_last()[i] == s[i]);
        lemma_map_of_remove(s.drop_last(), i);
        assert(n.last() == s.last());
        assert(map_of(n) == map_of(s.drop_last()).remove(s[i].key_spec()).insert(
            s.last().key_spec(),
            s.last(),
        ));
        assert(s.last().key_spec() != s[i].key_spec());
        assert(map_of(s.drop_last()).remove(s[i].key_spec()).insert(s.last().key_spec(), s.last())
            =~= map_of(s).remove(s[i].key_spec()));
    }
}

/// A snapshot map held as a vector of entities with distinct identifiers.
pub struct EntityMap<T: Keyed> {
    entries: Vec<T>,
}

impl<T: Keyed> View for EntityMap<T> {
    type V = Map<Seq<char>, T>;

    closed spec fn view(&self) -> Map<Seq<char>, T> {
        map_of(self.entries@)
    }
}

impl<T: Keyed> EntityMap<T> {
    /// The stored entities, in insertion order.
    pub closed spec fn entries_seq(&self) -> Seq<T> {
        self.entries@
    }

    /// Identifiers are distinct; every operation preserves this.
    pub closed spec fn wf(&self) -> bool {
        distinct_keys(self.entries@)
    }

    /// How the vector-backed representation and the map view correspond.
    pub proof fn lemma_entries(&self)
        requires
            self.wf(),
        ensures
            forall|i: int, j: int|
                0 <= i < j < self.entries_seq().len() ==> self.entries_seq()[i].key_spec()
                    != self.entries_seq()[j].key_spec(),
            forall|i: int|
                0 <= i < self.entries_seq().len() ==> self@.dom().contains(
                    #[trigger] self.entries_seq()[i].key_spec(),
                ) && self@[self.entries_seq()[i].key_spec()] == self.entries_seq()[i],
            forall|k: Seq<char>|
                self@.dom().contains(k) ==> exists|i: int|
                    0 <= i < self.entries_seq().len() && #[trigger] self.entries_seq()[i].key_spec()
                        == k,
    {
        assert forall|i: int| 0 <= i < self.entries_seq().len() implies self@.dom().contains(
            #[trigger] self.entries_seq()[i].key_spec(),
        ) && self@[self.entries_seq()[i].key_spec()] == self.entries_seq()[i] by {
            lemma_map_of_index(self.entries@, i);
        }
        assert forall|k: Seq<char>| self@.dom().contains(k) implies exists|i: int|
            0 <= i < self.entries_seq().len() && #[trigger] self.entries_seq()[i].key_spec()
                == k by {
            lemma_map_of_dom(self.entries@, k);
            let i = choose|i: int| 0 <= i < self.entries@.len() && #[trigger] self.entries@[i].key_spec() == k;
            assert(self.entries_seq()[i].key_spec() == k);
        }
    }

    /// An empty snapshot map.
    pub fn new() -> (r: Self)
        ensures
            r@ == Map::<Seq<char>, T>::empty(),
            r.wf(),
            r.entries_seq() == Seq::<T>::empty(),
    {
        let r = EntityMap { entries: Vec::new() };
        proof {
            assert(map_of(r.entries@) =~= Map::<Seq<char>, T>::empty());
        }
        r
    }

    /// How many entities are stored.
    pub fn len(&self) -> (r: usize)
        ensures
            r == self.entries_seq().len(),
    {
        self.entries.len()
    }

    /// The entity at position `i`, in insertion order.
    pub fn at(&self, i: usize) -> (r: &T)
        requires
            i < self.entries_seq().len(),
        ensures
            *r == self.entries_seq()[i as int],
    {
        &self.entries[i]
    }

    /// The position of the entity with identifier `id`, if stored.
    pub fn index_of(&self, id: &str) -> (r: Option<usize>)
        ensures
            match r {
                Some(i) => i < self.entries_seq().len() && self.entries_seq()[i as int].key_spec()
                    == id@,
                None => forall|i: int|
                    0 <= i < self.entries_seq().len() ==> self.entries_seq()[i].key_spec() != id@,
            },
    {
        let mut i: usize = 0;
        while i < self.entries.len()
            invariant
                0 <= i <= self.entries@.len(),
                forall|k: int| 0 <= k < i ==> self.entries@[k].key_spec() != id@,
            decreases self.entries@.len() - i,
        {
            if crate::text::str_eq(self.entries[i].key().as_str(), id) {
                return Some(i);
            }
            i = i + 1;
        }
        None
    }

    /// The entity with identifier `id`, if stored.
    pub fn get(&self, id: &str) -> (r: Option<&T>)
        requires
            self.wf(),
        ensures
            match r {
                Some(t) => self@.dom().contains(id@) && *t == self@[id@],
                None => !self@.dom().contains(id@),
            },
    {
        match self.index_of(id) {
            Some(i) => {
                proof {
                    assert(self.entries@[i as int].key_spec() == id@) by {
                        assert(self.entries_seq()[i as int].key_spec() == id@);
                    }
                    lemma_map_of_index(self.entries@, i as int);
                }
                Some(&self.entries[i])
            },
            None => {
                proof {
                    lemma_map_of_dom(self.entries@, id@);
                    assert forall|i: int|
                        0 <= i < self.entries@.len() implies #[trigger] self.entries@[i].key_spec()
                        != id@ by {
                        assert(self.entries_seq()[i].key_spec() != id@);
                    }
                }
                None
            },
        }
    }

    /// Stores `v`, replacing any entity with the same identifier.
    pub fn insert(&mut self, v: T)
        requires
            old(self).wf(),
        ensures
            final(self).wf(),
            final(self)@ == old(self)@.insert(v.key_spec(), v),
    {
        let idx = self.index_of(v.key().as_str());
        match idx {
            Some(i) => {
                proof {
                    lemma_map_of_update(self.entries@, i as int, v);
                }
                let slot = vstd::std_specs::vec::vec_index_mut(&mut self.entries, i);
                *slot = v;
            },
            None => {
                proof {
                    lemma_map_of_dom(self.entries@, v.key_spec());
                    assert(self.entries@.push(v).drop_last() =~= self.entries@);
                    assert forall|a: int, b: int|
                        0 <= a < b < self.entries@.push(v).len() implies self.entries@.push(
                        v,
                    )[a].key_spec() != self.entries@.push(v)[b].key_spec() by {
                        if b < self.entries@.len() {
                            assert(self.entries@[a].key_spec() != self.entries@[b].key_spec());
                        } else {
                            assert(self.entries@.push(v)[b] == v);
                            assert(self.entries_seq()[a].key_spec() != v.key_spec());
                        }
                    }
                }
                self.entries.push(v);
            },
        }
    }

    /// Removes and returns the entity at position `i`.
    pub fn remove_at(&mut self, i: usize) -> (r: T)
        requires
            old(self).wf(),
            i < old(self).entries_seq().len(),
        ensures
            final(self).wf(),
            r == old(self).entries_seq()[i as int],
            final(self)@ == old(self)@.remove(r.key_spec()),
            final(self).entries_seq() == old(self).entries_seq().remove(i as int),
    {
        proof {
            lemma_map_of_remove(self.entries@, i as int);
        }
        self.entries.remove(i)
    }
}

/// The whole persisted tracker state for one repository and label.
pub struct State {
    pub version: u32,
    pub owner: String,
    pub repo: String,
    pub label: String,
    pub issues_updated: Option<DateTime>,
    pub issues: EntityMap<Issue>,
    pub issue_history: Vec<Event<IssueAction>>,
    pub pull_requests_updated: Option<DateTime>,
    pub pull_requests: EntityMap<PullRequest>,
    pub pull_history: Vec<Event<PullAction>>,
}

impl State {
    /// Both snapshot maps have distinct identifiers.
    pub open spec fn wf(&self) -> bool {
        self.issues.wf() && self.pull_requests.wf()
    }

    /// A fresh state for one repository and label: empty snapshots, empty
    /// history, no watermark.
    pub fn new(owner: String, repo: String, label: String) -> (r: State)
        ensures
            r.wf(),
            r.version == STATE_VERSION,
            r.owner == owner,
            r.repo == repo,
            r.label == label,
            r.issues_updated is None,
            r.pull_requests_updated is None,
            r.issues@ == Map::<Seq<char>, Issue>::empty(),
            r.pull_requests@ == Map::<Seq<char>, PullRequest>::empty(),
            r.issue_history@ == Seq::<Event<IssueAction>>::empty(),
            r.pull_history@ == Seq::<Event<PullAction>>::empty(),
    {
        State {
            version: STATE_VERSION,
            owner,
            repo,
            label,
            issues_updated: None,
            issues: EntityMap::new(),
            issue_history: Vec::new(),
            pull_requests_updated: None,
            pull_requests: EntityMap::new(),
            pull_history: Vec::new(),
        }
    }
}

} // verus!
