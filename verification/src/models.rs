//! Core data model: statuses, stories, epics, the state document, the user
//! actions, and the error taxonomy, together with their mathematical views.

use crate::idmap::IdMap;
use crate::idmap::keys_sorted;
use crate::idmap::map_of;
use vstd::prelude::*;

verus! {

/// Lifecycle status of an epic or a story. Any status may follow any other.
#[derive(Debug, Clone, Copy, PartialEq, Eq, Structural)]
pub enum Status {
    Closed,
    Open,
    InProgress,
    Resolved,
}

/// A parsed user intent, consumed by the navigator.
#[derive(Debug, Clone, Copy, PartialEq, Eq, Structural)]
pub enum Action {
    NavigateToEpicDetail { epic_id: u32 },
    NavigateToStoryDetail { epic_id: u32, story_id: u32 },
    NavigateToPreviousPage,
    CreateEpic,
    UpdateEpicStatus { epic_id: u32 },
    DeleteEpic { epic_id: u32 },
    CreateStory { epic_id: u32 },
    UpdateStoryStatus { story_id: u32 },
    DeleteStory { epic_id: u32, story_id: u32 },
    Exit,
}

/// Which kind of entity a `NotFound` error refers to.
#[derive(Debug, Clone, Copy, PartialEq, Eq, Structural)]
pub enum ItemKind {
    Epic,
    Story,
}

/// The error taxonomy of the store and the repository.
///
/// `NotFound(kind, id)`: a referenced epic or story is absent.
/// `MissingDocument`: the backing resource does not exist.
/// `Corrupt`: the persisted document exists but cannot be decoded.
/// `IOFailure`: the underlying read or write of the backing resource failed.
#[derive(Debug, Clone, Copy, PartialEq, Eq, Structural)]
pub enum DbError {
    NotFound(ItemKind, u32),
    MissingDocument,
    Corrupt,
    IOFailure,
}

impl DbError {
    /// Errors a store itself may report; entity lookups never come from it.
    pub open spec fn is_store_error(self) -> bool {
        self == DbError::MissingDocument || self == DbError::Corrupt || self == DbError::IOFailure
    }
}

/// Mathematical value of a [`Story`].
#[verifier::ext_equal]
pub ghost struct StoryView {
    pub name: Seq<char>,
    pub description: Seq<char>,
    pub status: Status,
}

/// Mathematical value of an [`Epic`].
#[verifier::ext_equal]
pub ghost struct EpicView {
    pub name: Seq<char>,
    pub description: Seq<char>,
    pub status: Status,
    pub stories: Seq<u32>,
}

/// A leaf work item, owned by exactly one epic through that epic's story list.
#[derive(Debug, PartialEq, Eq)]
pub struct Story {
    pub name: String,
    pub description: String,
    pub status: Status,
}

impl View for Story {
    type V = StoryView;

    open spec fn view(&self) -> StoryView {
        StoryView { name: self.name@, description: self.description@, status: self.status }
    }
}

impl Story {
    /// A fresh story starts out `Open`.
    pub fn new(name: String, description: String) -> (r: Self)
        ensures
            r@ == (StoryView { name: name@, description: description@, status: Status::Open }),
    {
        Self { name, description, status: Status::Open }
    }
}

/// A top-level work item owning an ordered list of story ids.
#[derive(Debug, PartialEq, Eq)]
pub struct Epic {
    pub name: String,
    pub description: String,
    pub status: Status,
    pub stories: Vec<u32>,
}

impl View for Epic {
    type V = EpicView;

    open spec fn view(&self) -> EpicView {
        EpicView {
            name: self.name@,
            description: self.description@,
            status: self.status,
            stories: self.stories@,
        }
    }
}

impl Epic {
    /// A fresh epic starts out `Open` with no stories.
    pub fn new(name: String, description: String) -> (r: Self)
        ensures
            r@ == (EpicView {
                name: name@,
                description: description@,
                status: Status::Open,
                stories: Seq::<u32>::empty(),
            }),
    {
        Self { name, description, status: Status::Open, stories: Vec::new() }
    }
}

impl Clone for Story {
    /// A clone denotes the same story.
    fn clone(&self) -> (r: Self)
        ensures
            r@ == self@,
    {
        Story {
            name: self.name.clone(),
            description: self.description.clone(),
            status: self.status,
        }
    }
}

/// Copy a list of ids.
fn clone_ids(v: &Vec<u32>) -> (r: Vec<u32>)
    ensures
        r@ == v@,
{
    let mut r: Vec<u32> = Vec::new();
    let n = v.len();
    for i in 0..n
        invariant
            n == v@.len(),
            r@ == v@.take(i as int),
    {
        r.push(v[i]);
        proof {
            assert(r@ =~= v@.take(i + 1));
        }
    }
    proof {
        assert(v@.take(n as int) =~= v@);
    }
    r
}

impl Clone for Epic {
    /// A clone denotes the same epic.
    fn clone(&self) -> (r: Self)
        ensures
            r@ == self@,
    {
        let r = Epic {
            name: self.name.clone(),
            description: self.description.clone(),
            status: self.status,
            stories: clone_ids(&self.stories),
        };
        proof {
            assert(r@ =~= self@);
        }
        r
    }
}

/// Mathematical value of the whole state document.
#[verifier::ext_equal]
pub ghost struct StateView {
    pub last_item_id: u32,
    pub epics: Seq<(u32, EpicView)>,
    pub stories: Seq<(u32, StoryView)>,
}

impl StateView {
    /// The mapping from ids to epics.
    pub open spec fn epics_map(self) -> Map<u32, EpicView> {
        map_of(self.epics)
    }

    /// The mapping from ids to stories.
    pub open spec fn stories_map(self) -> Map<u32, StoryView> {
        map_of(self.stories)
    }

    /// Both entry sequences are sorted strictly by id.
    pub open spec fn wf(self) -> bool {
        keys_sorted(self.epics) && keys_sorted(self.stories)
    }

    /// The document a fresh store starts from: counter zero, no entities.
    pub open spec fn initial() -> StateView {
        StateView {
            last_item_id: 0,
            epics: Seq::<(u32, EpicView)>::empty(),
            stories: Seq::<(u32, StoryView)>::empty(),
        }
    }
}

/// The whole persisted document: the shared id counter and both entity maps.
#[derive(Debug, PartialEq, Eq)]
pub struct DBState {
    pub last_item_id: u32,
    pub epics: IdMap<Epic>,
    pub stories: IdMap<Story>,
}

impl View for DBState {
    type V = StateView;

    open spec fn view(&self) -> StateView {
        StateView {
            last_item_id: self.last_item_id,
            epics: self.epics@,
            stories: self.stories@,
        }
    }
}

impl DBState {
    /// The representation invariant of the document.
    pub open spec fn wf(&self) -> bool {
        self@.wf()
    }

    /// The empty document: counter zero, no epics, no stories.
    pub fn new() -> (r: Self)
        ensures
            r@ == StateView::initial(),
            r.wf(),
    {
        let r = DBState { last_item_id: 0, epics: IdMap::new(), stories: IdMap::new() };
        proof {
            assert(r@ =~= StateView::initial());
        }
        r
    }
}

impl Clone for DBState {
    /// A clone denotes the same document.
    fn clone(&self) -> (r: Self)
        ensures
            r@ == self@,
    {
        let mut epics: Vec<(u32, Epic)> = Vec::new();
        let ne = self.epics.entries.len();
        for i in 0..ne
            invariant
                ne == self.epics.entries@.len(),
                epics@.len() == i,
                forall|j: int|
                    0 <= j < i ==> (#[trigger] epics@[j]).0 == self.epics.entries@[j].0
                        && epics@[j].1@ == self.epics.entries@[j].1@,
        {
            let k = self.epics.entries[i].0;
            let v = self.epics.entries[i].1.clone();
            epics.push((k, v));
        }
        let mut stories: Vec<(u32, Story)> = Vec::new();
        let ns = self.stories.entries.len();
        for i in 0..ns
            invariant
                ns == self.stories.entries@.len(),
                stories@.len() == i,
                forall|j: int|
                    0 <= j < i ==> (#[trigger] stories@[j]).0 == self.stories.entries@[j].0
                        && stories@[j].1@ == self.stories.entries@[j].1@,
        {
            let k = self.stories.entries[i].0;
            let v = self.stories.entries[i].1.clone();
            stories.push((k, v));
        }
        let r = DBState {
            last_item_id: self.last_item_id,
            epics: IdMap { entries: epics },
            stories: IdMap { entries: stories },
        };
        proof {
            assert(r@.epics =~= self@.epics);
            assert(r@.stories =~= self@.stories);
            assert(r@ =~= self@);
        }
        r
    }
}

} // verus!
