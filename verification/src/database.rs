//! The repository: typed create/update/delete operations over the state
//! document, each one a read–validate–mutate–persist round trip on a store.
//!
//! Every operation's effect on the document is pinned down by a transition
//! function on [`StateView`]; failures are characterised exactly: `NotFound`
//! comes if and only if the referenced entity is absent, and everything else
//! is a store failure.

use crate::idmap::entries_insert;
use crate::idmap::entries_remove;
use crate::idmap::entries_remove_all;
use crate::idmap::lemma_entries_remove;
use crate::idmap::lemma_entries_remove_all;
use crate::idmap::lemma_map_of_entries;
use crate::models::DBState;
use crate::models::DbError;
use crate::models::Epic;
use crate::models::EpicView;
use crate::models::ItemKind;
use crate::models::StateView;
use crate::models::Status;
use crate::models::Story;
use crate::models::StoryView;
use crate::store::Store;
use vstd::prelude::*;

verus! {

/// `s` with a new epic under the next id and the counter advanced.
pub open spec fn with_epic_created(s: StateView, e: EpicView) -> StateView {
    let id = (s.last_item_id + 1) as u32;
    StateView {
        last_item_id: id,
        epics: entries_insert(s.epics, id, e),
        stories: s.stories,
    }
}

/// `s` with a new story under the next id, the counter advanced, and the new
/// id appended to the owning epic's story list.
pub open spec fn with_story_created(s: StateView, st: StoryView, epic_id: u32) -> StateView {
    let id = (s.last_item_id + 1) as u32;
    let owner = s.epics_map()[epic_id];
    let owner2 = EpicView { stories: owner.stories.push(id), ..owner };
    StateView {
        last_item_id: id,
        epics: entries_insert(s.epics, epic_id, owner2),
        stories: entries_insert(s.stories, id, st),
    }
}

/// `s` without the epic under `epic_id` and without every story it owned.
pub open spec fn with_epic_deleted(s: StateView, epic_id: u32) -> StateView {
    StateView {
        last_item_id: s.last_item_id,
        epics: entries_remove(s.epics, epic_id),
        stories: entries_remove_all(s.stories, s.epics_map()[epic_id].stories),
    }
}

/// The id sequence with every occurrence of `x` removed.
pub open spec fn ids_without(s: Seq<u32>, x: u32) -> Seq<u32>
    decreases s.len(),
{
    if s.len() == 0 {
        s
    } else if s[0] == x {
        ids_without(s.drop_first(), x)
    } else {
        seq![s[0]] + ids_without(s.drop_first(), x)
    }
}

/// `ids_without` removes exactly the occurrences of `x`.
pub proof fn lemma_ids_without(s: Seq<u32>, x: u32)
    ensures
        !ids_without(s, x).contains(x),
        forall|y: u32| y != x ==> (ids_without(s, x).contains(y) <==> s.contains(y)),
    decreases s.len(),
{
    let r = ids_without(s, x);
    if s.len() == 0 {
    } else {
        let t = s.drop_first();
        lemma_ids_without(t, x);
        let rr = ids_without(t, x);
        if s[0] == x {
            assert(r == rr);
            assert forall|y: u32| y != x && s.contains(y) implies r.contains(y) by {
                let i = choose|i: int| 0 <= i < s.len() && s[i] == y;
                assert(i > 0);
                assert(t[i - 1] == y);
                assert(t.contains(y));
            }
            assert forall|y: u32| y != x && r.contains(y) implies s.contains(y) by {
                assert(t.contains(y));
                let i = choose|i: int| 0 <= i < t.len() && t[i] == y;
                assert(s[i + 1] == y);
            }
        } else {
            assert(r == seq![s[0]] + rr);
            if r.contains(x) {
                let i = choose|i: int| 0 <= i < r.len() && r[i] == x;
                assert(i > 0);
                assert(rr[i - 1] == x);
                assert(rr.contains(x));
                assert(false);
            }
            assert forall|y: u32| y != x && s.contains(y) implies r.contains(y) by {
                let i = choose|i: int| 0 <= i < s.len() && s[i] == y;
                if i == 0 {
                    assert(r[0] == y);
                } else {
                    assert(t[i - 1] == y);
                    assert(t.contains(y));
                    assert(rr.contains(y));
                    let j = choose|j: int| 0 <= j < rr.len() && rr[j] == y;
                    assert(r[j + 1] == y);
                }
            }
            assert forall|y: u32| y != x && r.contains(y) implies s.contains(y) by {
                let i = choose|i: int| 0 <= i < r.len() && r[i] == y;
                if i == 0 {
                    assert(s[0] == y);
                } else {
                    assert(rr[i - 1] == y);
                    assert(rr.contains(y));
                    assert(t.contains(y));
                    let j = choose|j: int| 0 <= j < t.len() && t[j] == y;
                    assert(s[j + 1] == y);
                }
            }
        }
    }
}

/// `s` without the story under `story_id`, which is also dropped from the
/// owning epic's story list.
pub open spec fn with_story_deleted(s: StateView, epic_id: u32, story_id: u32) -> StateView {
    let owner = s.epics_map()[epic_id];
    let owner2 = EpicView { stories: ids_without(owner.stories, story_id), ..owner };
    StateView {
        last_item_id: s.last_item_id,
        epics: entries_insert(s.epics, epic_id, owner2),
        stories: entries_remove(s.stories, story_id),
    }
}

/// `s` with the status of the epic under `epic_id` overwritten.
pub open spec fn with_epic_status(s: StateView, epic_id: u32, status: Status) -> StateView {
    let owner = s.epics_map()[epic_id];
    StateView {
        last_item_id: s.last_item_id,
        epics: entries_insert(s.epics, epic_id, EpicView { status, ..owner }),
        stories: s.stories,
    }
}

/// `s` with the status of the story under `story_id` overwritten.
pub open spec fn with_story_status(s: StateView, story_id: u32, status: Status) -> StateView {
    let subject = s.stories_map()[story_id];
    StateView {
        last_item_id: s.last_item_id,
        epics: s.epics,
        stories: entries_insert(s.stories, story_id, StoryView { status, ..subject }),
    }
}

/// One repository transition on the document: a create, delete or update
/// that succeeded, or an operation that left the document unchanged.
pub open spec fn repo_step(s: StateView, t: StateView) -> bool {
    ||| t == s
    ||| (s.last_item_id < u32::MAX && exists|e: EpicView| t == with_epic_created(s, e))
    ||| (s.last_item_id < u32::MAX && exists|st: StoryView, epic_id: u32|
        s.epics_map().contains_key(epic_id) && t == with_story_created(s, st, epic_id))
    ||| (exists|epic_id: u32|
        s.epics_map().contains_key(epic_id) && t == with_epic_deleted(s, epic_id))
    ||| (exists|epic_id: u32, story_id: u32|
        s.epics_map().contains_key(epic_id) && s.stories_map().contains_key(story_id) && t
            == with_story_deleted(s, epic_id, story_id))
    ||| (exists|epic_id: u32, st: Status|
        s.epics_map().contains_key(epic_id) && t == with_epic_status(s, epic_id, st))
    ||| (exists|story_id: u32, st: Status|
        s.stories_map().contains_key(story_id) && t == with_story_status(s, story_id, st))
}

/// A run of the repository: consecutive documents related by one step each.
pub open spec fn valid_run(states: Seq<StateView>) -> bool {
    forall|i: int| 0 <= i < states.len() - 1 ==> repo_step(#[trigger] states[i], states[i + 1])
}

/// A step that creates an entity: the counter advances by one, and the id
/// issued by the create is the new counter.
pub open spec fn is_create_step(s: StateView, t: StateView) -> bool {
    t.last_item_id == s.last_item_id + 1
}

/// The counter never decreases across a repository step.
pub proof fn lemma_step_counter_monotone(s: StateView, t: StateView)
    requires
        repo_step(s, t),
    ensures
        t.last_item_id >= s.last_item_id,
{
    if t == s {
    } else if s.last_item_id < u32::MAX && exists|e: EpicView| t == with_epic_created(s, e) {
        let e = choose|e: EpicView| t == with_epic_created(s, e);
        assert(t.last_item_id == s.last_item_id + 1);
    } else if s.last_item_id < u32::MAX && exists|st: StoryView, epic_id: u32|
        s.epics_map().contains_key(epic_id) && t == with_story_created(s, st, epic_id) {
        let (st, epic_id) = choose|st: StoryView, epic_id: u32|
            s.epics_map().contains_key(epic_id) && t == with_story_created(s, st, epic_id);
        assert(t.last_item_id == s.last_item_id + 1);
    } else if exists|epic_id: u32|
        s.epics_map().contains_key(epic_id) && t == with_epic_deleted(s, epic_id) {
        let epic_id = choose|epic_id: u32|
            s.epics_map().contains_key(epic_id) && t == with_epic_deleted(s, epic_id);
        assert(t.last_item_id == s.last_item_id);
    } else if exists|epic_id: u32, story_id: u32|
        s.epics_map().contains_key(epic_id) && s.stories_map().contains_key(story_id) && t
            == with_story_deleted(s, epic_id, story_id) {
        let (epic_id, story_id) = choose|epic_id: u32, story_id: u32|
            s.epics_map().contains_key(epic_id) && s.stories_map().contains_key(story_id) && t
                == with_story_deleted(s, epic_id, story_id);
        assert(t.last_item_id == s.last_item_id);
    } else if exists|epic_id: u32, st: Status|
        s.epics_map().contains_key(epic_id) && t == with_epic_status(s, epic_id, st) {
        let (epic_id, st) = choose|epic_id: u32, st: Status|
            s.epics_map().contains_key(epic_id) && t == with_epic_status(s, epic_id, st);
        assert(t.last_item_id == s.last_item_id);
    } else {
        let (story_id, st) = choose|story_id: u32, st: Status|
            s.stories_map().contains_key(story_id) && t == with_story_status(s, story_id, st);
        assert(t.last_item_id == s.last_item_id);
    }
}

/// The counter never decreases along a valid run.
pub proof fn lemma_run_counter_monotone(states: Seq<StateView>, a: int, b: int)
    requires
        valid_run(states),
        0 <= a <= b < states.len(),
    ensures
        states[b].last_item_id >= states[a].last_item_id,
    decreases b - a,
{
    if a < b {
        lemma_run_counter_monotone(states, a, b - 1);
        lemma_step_counter_monotone(states[b - 1], states[b]);
    }
}

/// Law: along any run of repository transitions, the ids issued by creates —
/// the counter value right after each create — strictly increase in the
/// order of the creates, however many deletes and updates come between.
/// An issued id is therefore never issued twice.
pub proof fn lemma_created_ids_increase(states: Seq<StateView>, i: int, j: int)
    requires
        valid_run(states),
        0 <= i < j,
        j + 1 < states.len(),
        is_create_step(states[i], states[i + 1]),
        is_create_step(states[j], states[j + 1]),
    ensures
        states[i + 1].last_item_id < states[j + 1].last_item_id,
{
    lemma_run_counter_monotone(states, i + 1, j);
}

/// The CRUD service over a store. Each operation re-reads the document,
/// validates, mutates in memory and persists the whole document.
pub struct JiraDatabase<S> {
    pub store: S,
}

impl<S: Store> JiraDatabase<S> {
    /// Whether the underlying store can produce the document.
    pub open spec fn can_read(&self) -> bool {
        self.store.can_read()
    }

    /// The document the underlying store holds.
    pub open spec fn contents(&self) -> StateView {
        self.store.contents()
    }

    /// Whether the underlying store never fails.
    pub open spec fn always_ok(&self) -> bool {
        self.store.always_ok()
    }

    /// A repository over the given store.
    pub fn new(store: S) -> (r: Self)
        ensures
            r.store == store,
    {
        JiraDatabase { store }
    }

    /// A snapshot of the current document.
    pub fn read(&self) -> (r: Result<DBState, DbError>)
        ensures
            self.can_read() ==> r is Ok,
            r matches Ok(s) ==> self.can_read() && s@ == self.contents() && s.wf(),
            r matches Err(e) ==> e.is_store_error(),
    {
        self.store.read()
    }

    /// Create `epic` under a fresh id and persist. Fails only if the store
    /// does.
    pub fn create_epic(&mut self, epic: Epic) -> (r: Result<u32, DbError>)
        requires
            old(self).can_read() ==> old(self).contents().last_item_id < u32::MAX,
        ensures
            old(self).can_read() && old(self).always_ok() ==> r is Ok,
            !old(self).can_read() ==> (r matches Err(e) && e.is_store_error()) && *final(self)
                == *old(self),
            old(self).can_read() ==> match r {
                Ok(id) => {
                    &&& id == old(self).contents().last_item_id + 1
                    &&& final(self).can_read()
                    &&& final(self).contents() == with_epic_created(old(self).contents(), epic@)
                },
                Err(e) => e == DbError::IOFailure,
            },
            old(self).always_ok() ==> final(self).always_ok(),
    {
        let mut state = match self.store.read() {
            Ok(s) => s,
            Err(e) => {
                return Err(e);
            },
        };
        state.last_item_id = state.last_item_id + 1;
        let epic_id = state.last_item_id;
        state.epics.insert(epic_id, epic);
        proof {
            assert(state@ =~= with_epic_created(old(self).contents(), epic@));
        }
        match self.store.write(&state) {
            Ok(_) => Ok(epic_id),
            Err(e) => Err(e),
        }
    }

    /// Create `story` under a fresh id, owned by the epic under `epic_id`,
    /// and persist. Fails with `NotFound` exactly when that epic is absent.
    pub fn create_story(&mut self, story: Story, epic_id: u32) -> (r: Result<u32, DbError>)
        requires
            old(self).can_read() ==> old(self).contents().last_item_id < u32::MAX,
        ensures
            old(self).can_read() && old(self).always_ok() && old(
                self,
            ).contents().epics_map().contains_key(epic_id) ==> r is Ok,
            !old(self).can_read() ==> (r matches Err(e) && e.is_store_error()) && *final(self)
                == *old(self),
            old(self).can_read() ==> {
                let s0 = old(self).contents();
                &&& (r == Err::<u32, DbError>(DbError::NotFound(ItemKind::Epic, epic_id))
                    <==> !s0.epics_map().contains_key(epic_id))
                &&& (!s0.epics_map().contains_key(epic_id) ==> *final(self) == *old(self))
                &&& match r {
                    Ok(id) => {
                        &&& s0.epics_map().contains_key(epic_id)
                        &&& id == s0.last_item_id + 1
                        &&& final(self).can_read()
                        &&& final(self).contents() == with_story_created(s0, story@, epic_id)
                    },
                    Err(e) => e == DbError::NotFound(ItemKind::Epic, epic_id) || e
                        == DbError::IOFailure,
                }
            },
            old(self).always_ok() ==> final(self).always_ok(),
    {
        let mut state = match self.store.read() {
            Ok(s) => s,
            Err(e) => {
                return Err(e);
            },
        };
        let mut owner = match state.epics.get(&epic_id) {
            Some(e) => e.clone(),
            None => {
                return Err(DbError::NotFound(ItemKind::Epic, epic_id));
            },
        };
        let ghost owner0 = owner@;
        state.last_item_id = state.last_item_id + 1;
        let story_id = state.last_item_id;
        owner.stories.push(story_id);
        proof {
            assert(owner@ =~= (EpicView { stories: owner0.stories.push(story_id), ..owner0 }));
        }
        state.epics.insert(epic_id, owner);
        state.stories.insert(story_id, story);
        proof {
            assert(state@ =~= with_story_created(old(self).contents(), story@, epic_id));
        }
        match self.store.write(&state) {
            Ok(_) => Ok(story_id),
            Err(e) => Err(e),
        }
    }

    /// Delete the epic under `epic_id` and every story it owned, and persist.
    /// Fails with `NotFound` exactly when that epic is absent.
    pub fn delete_epic(&mut self, epic_id: u32) -> (r: Result<(), DbError>)
        ensures
            old(self).can_read() && old(self).always_ok() && old(
                self,
            ).contents().epics_map().contains_key(epic_id) ==> r is Ok,
            !old(self).can_read() ==> (r matches Err(e) && e.is_store_error()) && *final(self)
                == *old(self),
            old(self).can_read() ==> {
                let s0 = old(self).contents();
                &&& (r == Err::<(), DbError>(DbError::NotFound(ItemKind::Epic, epic_id))
                    <==> !s0.epics_map().contains_key(epic_id))
                &&& (!s0.epics_map().contains_key(epic_id) ==> *final(self) == *old(self))
                &&& match r {
                    Ok(_) => {
                        &&& s0.epics_map().contains_key(epic_id)
                        &&& final(self).can_read()
                        &&& final(self).contents() == with_epic_deleted(s0, epic_id)
                        &&& !final(self).contents().epics_map().contains_key(epic_id)
                        &&& forall|sid: u32|
                            s0.epics_map()[epic_id].stories.contains(sid)
                                ==> !final(self).contents().stories_map().contains_key(sid)
                    },
                    Err(e) => e == DbError::NotFound(ItemKind::Epic, epic_id) || e
                        == DbError::IOFailure,
                }
            },
            old(self).always_ok() ==> final(self).always_ok(),
    {
        let mut state = match self.store.read() {
            Ok(s) => s,
            Err(e) => {
                return Err(e);
            },
        };
        let ghost s0 = state@;
        let owned: Vec<u32> = match state.epics.get(&epic_id) {
            Some(e) => e.stories.clone(),
            None => {
                return Err(DbError::NotFound(ItemKind::Epic, epic_id));
            },
        };
        state.epics.remove(&epic_id);
        let n = owned.len();
        for i in 0..n
            invariant
                n == owned@.len(),
                owned@ == s0.epics_map()[epic_id].stories,
                state.last_item_id == s0.last_item_id,
                state.epics@ == entries_remove(s0.epics, epic_id),
                state.stories@ == entries_remove_all(s0.stories, owned@.take(i as int)),
                state.stories.wf(),
                state.epics.wf(),
        {
            proof {
                assert(owned@.take(i + 1).drop_last() =~= owned@.take(i as int));
                assert(owned@.take(i + 1).last() == owned@[i as int]);
            }
            state.stories.remove(&owned[i]);
        }
        proof {
            assert(owned@.take(n as int) =~= owned@);
            assert(state@ =~= with_epic_deleted(s0, epic_id));
            crate::idmap::lemma_entries_remove(s0.epics, epic_id);
            lemma_entries_remove_all(s0.stories, owned@);
        }
        match self.store.write(&state) {
            Ok(_) => Ok(()),
            Err(e) => Err(e),
        }
    }

    /// Delete the story under `story_id` and drop it from the story list of
    /// the epic under `epic_id`, and persist. Fails with `NotFound` for the
    /// epic if it is absent, else for the story if it is absent.
    pub fn delete_story(&mut self, epic_id: u32, story_id: u32) -> (r: Result<(), DbError>)
        ensures
            old(self).can_read() && old(self).always_ok() && old(
                self,
            ).contents().epics_map().contains_key(epic_id) && old(
                self,
            ).contents().stories_map().contains_key(story_id) ==> r is Ok,
            !old(self).can_read() ==> (r matches Err(e) && e.is_store_error()) && *final(self)
                == *old(self),
            old(self).can_read() ==> {
                let s0 = old(self).contents();
                &&& (r == Err::<(), DbError>(DbError::NotFound(ItemKind::Epic, epic_id))
                    <==> !s0.epics_map().contains_key(epic_id))
                &&& (s0.epics_map().contains_key(epic_id) ==> (r == Err::<(), DbError>(
                    DbError::NotFound(ItemKind::Story, story_id),
                ) <==> !s0.stories_map().contains_key(story_id)))
                &&& (!(s0.epics_map().contains_key(epic_id)
                    && s0.stories_map().contains_key(story_id)) ==> *final(self) == *old(self))
                &&& match r {
                    Ok(_) => {
                        &&& s0.epics_map().contains_key(epic_id)
                        &&& s0.stories_map().contains_key(story_id)
                        &&& final(self).can_read()
                        &&& final(self).contents() == with_story_deleted(s0, epic_id, story_id)
                        &&& !final(self).contents().stories_map().contains_key(story_id)
                        &&& final(self).contents().epics_map().contains_key(epic_id)
                        &&& !final(self).contents().epics_map()[epic_id].stories.contains(
                            story_id,
                        )
                    },
                    Err(e) => e == DbError::NotFound(ItemKind::Epic, epic_id) || e
                        == DbError::NotFound(ItemKind::Story, story_id) || e
                        == DbError::IOFailure,
                }
            },
            old(self).always_ok() ==> final(self).always_ok(),
    {
        let mut state = match self.store.read() {
            Ok(s) => s,
            Err(e) => {
                return Err(e);
            },
        };
        let ghost s0 = state@;
        let mut owner = match state.epics.get(&epic_id) {
            Some(e) => e.clone(),
            None => {
                return Err(DbError::NotFound(ItemKind::Epic, epic_id));
            },
        };
        if !state.stories.contains_key(&story_id) {
            return Err(DbError::NotFound(ItemKind::Story, story_id));
        }
        let ghost owner0 = owner@;
        let mut kept: Vec<u32> = Vec::new();
        proof {
            assert(owner0.stories.skip(0) =~= owner0.stories);
            assert(kept@ + ids_without(owner0.stories, story_id) =~= ids_without(
                owner0.stories,
                story_id,
            ));
        }
        let n = owner.stories.len();
        for i in 0..n
            invariant
                n == owner.stories@.len(),
                owner@ == owner0,
                kept@ + ids_without(owner0.stories.skip(i as int), story_id) == ids_without(
                    owner0.stories,
                    story_id,
                ),
        {
            proof {
                assert(owner0.stories.skip(i as int).drop_first() =~= owner0.stories.skip(i + 1));
                assert(owner0.stories.skip(i as int)[0] == owner0.stories[i as int]);
            }
            if owner.stories[i] != story_id {
                let v = owner.stories[i];
                let ghost k0 = kept@;
                kept.push(v);
                proof {
                    assert(kept@ + ids_without(owner0.stories.skip(i + 1), story_id) =~= k0
                        + ids_without(owner0.stories.skip(i as int), story_id));
                }
            }
        }
        proof {
            assert(owner0.stories.skip(n as int) =~= Seq::<u32>::empty());
            assert(kept@ == ids_without(owner0.stories, story_id));
        }
        owner.stories = kept;
        proof {
            assert(owner@ =~= (EpicView {
                stories: ids_without(owner0.stories, story_id),
                ..owner0
            }));
        }
        state.epics.insert(epic_id, owner);
        state.stories.remove(&story_id);
        proof {
            assert(state@ =~= with_story_deleted(s0, epic_id, story_id));
            lemma_entries_remove(s0.stories, story_id);
            crate::idmap::lemma_entries_insert(
                s0.epics,
                epic_id,
                EpicView {
                    stories: ids_without(s0.epics_map()[epic_id].stories, story_id),
                    ..s0.epics_map()[epic_id]
                },
            );
            lemma_map_of_entries(state.epics@);
            lemma_ids_without(s0.epics_map()[epic_id].stories, story_id);
        }
        match self.store.write(&state) {
            Ok(_) => Ok(()),
            Err(e) => Err(e),
        }
    }

    /// Overwrite the status of the epic under `epic_id` and persist. Fails
    /// with `NotFound` exactly when that epic is absent. Nothing else of the
    /// document changes.
    pub fn update_epic_status(&mut self, epic_id: u32, status: Status) -> (r: Result<
        (),
        DbError,
    >)
        ensures
            old(self).can_read() && old(self).always_ok() && old(
                self,
            ).contents().epics_map().contains_key(epic_id) ==> r is Ok,
            !old(self).can_read() ==> (r matches Err(e) && e.is_store_error()) && *final(self)
                == *old(self),
            old(self).can_read() ==> {
                let s0 = old(self).contents();
                &&& (r == Err::<(), DbError>(DbError::NotFound(ItemKind::Epic, epic_id))
                    <==> !s0.epics_map().contains_key(epic_id))
                &&& (!s0.epics_map().contains_key(epic_id) ==> *final(self) == *old(self))
                &&& match r {
                    Ok(_) => {
                        &&& s0.epics_map().contains_key(epic_id)
                        &&& final(self).can_read()
                        &&& final(self).contents() == with_epic_status(s0, epic_id, status)
                    },
                    Err(e) => e == DbError::NotFound(ItemKind::Epic, epic_id) || e
                        == DbError::IOFailure,
                }
            },
            old(self).always_ok() ==> final(self).always_ok(),
    {
        let mut state = match self.store.read() {
            Ok(s) => s,
            Err(e) => {
                return Err(e);
            },
        };
        let ghost s0 = state@;
        let mut subject = match state.epics.get(&epic_id) {
            Some(e) => e.clone(),
            None => {
                return Err(DbError::NotFound(ItemKind::Epic, epic_id));
            },
        };
        let ghost subject0 = subject@;
        subject.status = status;
        proof {
            assert(subject@ =~= (EpicView { status, ..subject0 }));
        }
        state.epics.insert(epic_id, subject);
        proof {
            assert(state@ =~= with_epic_status(s0, epic_id, status));
        }
        match self.store.write(&state) {
            Ok(_) => Ok(()),
            Err(e) => Err(e),
        }
    }

    /// Overwrite the status of the story under `story_id` and persist. Fails
    /// with `NotFound` exactly when that story is absent. Nothing else of the
    /// document changes.
    pub fn update_story_status(&mut self, story_id: u32, status: Status) -> (r: Result<
        (),
        DbError,
    >)
        ensures
            old(self).can_read() && old(self).always_ok() && old(
                self,
            ).contents().stories_map().contains_key(story_id) ==> r is Ok,
            !old(self).can_read() ==> (r matches Err(e) && e.is_store_error()) && *final(self)
                == *old(self),
            old(self).can_read() ==> {
                let s0 = old(self).contents();
                &&& (r == Err::<(), DbError>(DbError::NotFound(ItemKind::Story, story_id))
                    <==> !s0.stories_map().contains_key(story_id))
                &&& (!s0.stories_map().contains_key(story_id) ==> *final(self) == *old(self))
                &&& match r {
                    Ok(_) => {
                        &&& s0.stories_map().contains_key(story_id)
                        &&& final(self).can_read()
                        &&& final(self).contents() == with_story_status(s0, story_id, status)
                    },
                    Err(e) => e == DbError::NotFound(ItemKind::Story, story_id) || e
                        == DbError::IOFailure,
                }
            },
            old(self).always_ok() ==> final(self).always_ok(),
    {
        let mut state = match self.store.read() {
            Ok(s) => s,
            Err(e) => {
                return Err(e);
            },
        };
        let ghost s0 = state@;
        let mut subject = match state.stories.get(&story_id) {
            Some(st) => st.clone(),
            None => {
                return Err(DbError::NotFound(ItemKind::Story, story_id));
            },
        };
        let ghost subject0 = subject@;
        subject.status = status;
        proof {
            assert(subject@ =~= (StoryView { status, ..subject0 }));
        }
        state.stories.insert(story_id, subject);
        proof {
            assert(state@ =~= with_story_status(s0, story_id, status));
        }
        match self.store.write(&state) {
            Ok(_) => Ok(()),
            Err(e) => Err(e),
        }
    }
}

} // verus!
