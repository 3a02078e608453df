//! The pages: Home, epic detail and story detail. Each renders its logical
//! content from a read-only snapshot of the document, and maps one line of
//! raw input to at most one action. Unrecognised input yields no action.

use crate::codec::is_digit;
use crate::codec::lemma_val_of_digits_grows;
use crate::codec::str_chars;
use crate::codec::val_of_digits;
use crate::models::Action;
use crate::models::DBState;
use crate::models::DbError;
use crate::models::ItemKind;
use crate::models::StateView;
use crate::models::Status;
use crate::models::StoryView;
use vstd::multiset::Multiset;
use vstd::prelude::*;

verus! {

/// The digits of an id token: everything after an optional leading plus
/// sign.
pub open spec fn token_body(s: Seq<char>) -> Seq<char> {
    if s.len() > 0 && s[0] == '+' {
        s.drop_first()
    } else {
        s
    }
}

/// Every character is a decimal digit.
pub open spec fn all_digits(s: Seq<char>) -> bool {
    forall|i: int| 0 <= i < s.len() ==> is_digit(#[trigger] s[i])
}

/// What the standard parser accepts for an id: an optional leading plus
/// sign, then at least one digit, the value in range. Leading zeroes are
/// allowed. Nothing else — any other character refuses the whole token.
pub open spec fn input_u32(s: Seq<char>) -> Option<u32> {
    if token_body(s).len() > 0 && all_digits(token_body(s)) && val_of_digits(token_body(s))
        <= u32::MAX {
        Some((val_of_digits(token_body(s)) as u32))
    } else {
        None
    }
}

/// Parse a whole input token as an id, exactly as `input_u32` says.
pub fn parse_input_u32(input: &str) -> (r: Option<u32>)
    ensures
        r == input_u32(input@),
{
    let cs = str_chars(input);
    let n = cs.len();
    let start: usize = if n > 0 && cs[0] == '+' {
        1
    } else {
        0
    };
    let ghost body = token_body(input@);
    proof {
        assert(cs@.subrange(start as int, n as int) =~= body);
    }
    if n == start {
        return None;
    }
    proof {
        assert(cs@.subrange(start as int, start as int) =~= Seq::<char>::empty());
        assert(val_of_digits(Seq::<char>::empty()) == 0);
    }
    let mut acc: u64 = 0;
    let mut k = start;
    while k < n
        invariant
            start <= k <= n,
            n == cs@.len(),
            cs@ == input@,
            body == token_body(input@),
            body == cs@.subrange(start as int, n as int),
            forall|j: int| start <= j < k ==> is_digit(#[trigger] cs@[j]),
            acc == val_of_digits(cs@.subrange(start as int, k as int)),
            acc <= u32::MAX as u64,
        decreases n - k,
    {
        let u = cs[k] as u32;
        if !(48 <= u && u <= 57) {
            proof {
                assert(body[k - start] == cs@[k as int]);
                assert(!is_digit(body[k - start]));
                assert(!all_digits(body)) by {
                    assert(0 <= k - start < body.len() && !is_digit(body[k - start]));
                }
                assert(input_u32(input@) is None);
            }
            return None;
        }
        let d = u - 48;
        let next = acc * 10 + d as u64;
        proof {
            assert(cs@.subrange(start as int, k + 1).drop_last() =~= cs@.subrange(
                start as int,
                k as int,
            ));
            assert(cs@.subrange(start as int, k + 1).last() == cs@[k as int]);
        }
        if next > u32::MAX as u64 {
            proof {
                assert(is_digit(cs@[k as int]));
                assert(val_of_digits(cs@.subrange(start as int, k + 1)) == acc * 10 + d);
                if all_digits(body) {
                    lemma_val_of_digits_grows(body, k + 1 - start);
                    assert(body.take(k + 1 - start) =~= cs@.subrange(start as int, k + 1));
                    assert(val_of_digits(body) > u32::MAX);
                }
                assert(input_u32(input@) is None);
            }
            return None;
        }
        acc = next;
        k += 1;
    }
    proof {
        assert(cs@.subrange(start as int, n as int) == body);
        assert forall|i: int| 0 <= i < body.len() implies is_digit(#[trigger] body[i]) by {
            assert(body[i] == cs@[start + i]);
        }
        assert(all_digits(body));
    }
    Some(acc as u32)
}

/// The landing page listing every epic.
#[derive(Debug, Clone, Copy, PartialEq, Eq, Structural)]
pub struct HomePage {}

/// The page showing one epic and the stories it owns.
#[derive(Debug, Clone, Copy, PartialEq, Eq, Structural)]
pub struct EpicDetail {
    pub epic_id: u32,
}

/// The page showing one story.
#[derive(Debug, Clone, Copy, PartialEq, Eq, Structural)]
pub struct StoryDetail {
    pub epic_id: u32,
    pub story_id: u32,
}

/// One of the three pages; what the navigator stacks.
#[derive(Debug, Clone, Copy, PartialEq, Eq, Structural)]
pub enum Page {
    Home(HomePage),
    Epic(EpicDetail),
    Story(StoryDetail),
}

/// The action the Home page gives an input line, over a snapshot.
pub open spec fn home_action(input: Seq<char>, sv: StateView) -> Option<Action> {
    if input == seq!['q'] {
        Some(Action::Exit)
    } else if input == seq!['c'] {
        Some(Action::CreateEpic)
    } else {
        match input_u32(input) {
            Some(id) => if sv.epics_map().contains_key(id) {
                Some(Action::NavigateToEpicDetail { epic_id: id })
            } else {
                None
            },
            None => None,
        }
    }
}

/// The action an epic detail page gives an input line, over a snapshot.
pub open spec fn epic_action(pg: EpicDetail, input: Seq<char>, sv: StateView) -> Option<Action> {
    if input == seq!['p'] {
        Some(Action::NavigateToPreviousPage)
    } else if input == seq!['u'] {
        Some(Action::UpdateEpicStatus { epic_id: pg.epic_id })
    } else if input == seq!['d'] {
        Some(Action::DeleteEpic { epic_id: pg.epic_id })
    } else if input == seq!['c'] {
        Some(Action::CreateStory { epic_id: pg.epic_id })
    } else {
        match input_u32(input) {
            Some(id) => if sv.epics_map().contains_key(pg.epic_id)
                && sv.epics_map()[pg.epic_id].stories.contains(id) {
                Some(Action::NavigateToStoryDetail { epic_id: pg.epic_id, story_id: id })
            } else {
                None
            },
            None => None,
        }
    }
}

/// The action a story detail page gives an input line.
pub open spec fn story_action(pg: StoryDetail, input: Seq<char>) -> Option<Action> {
    if input == seq!['p'] {
        Some(Action::NavigateToPreviousPage)
    } else if input == seq!['u'] {
        Some(Action::UpdateStoryStatus { story_id: pg.story_id })
    } else if input == seq!['d'] {
        Some(Action::DeleteStory { epic_id: pg.epic_id, story_id: pg.story_id })
    } else {
        None
    }
}

/// Whether the characters are the single character `c`.
fn is_single(cs: &Vec<char>, c: char) -> (r: bool)
    ensures
        r == (cs@ == seq![c]),
{
    if cs.len() == 1 && cs[0] == c {
        proof {
            assert(cs@ =~= seq![c]);
        }
        true
    } else {
        proof {
            if cs@ == seq![c] {
                assert(cs@.len() == 1);
                assert(cs@[0] == c);
            }
        }
        false
    }
}

/// Whether the id list holds `x`.
fn ids_contain(v: &Vec<u32>, x: u32) -> (r: bool)
    ensures
        r == v@.contains(x),
{
    let n = v.len();
    for i in 0..n
        invariant
            n == v@.len(),
            forall|j: int| 0 <= j < i ==> v@[j] != x,
    {
        if v[i] == x {
            return true;
        }
    }
    proof {
        if v@.contains(x) {
            let j = choose|j: int| 0 <= j < v@.len() && v@[j] == x;
            assert(false);
        }
    }
    false
}

impl HomePage {
    /// Map one input line to an action: `q` exits, `c` creates an epic, and
    /// an id token navigates to that epic if the snapshot has it.
    pub fn handle_input(&self, input: &str, state: &DBState) -> (r: Option<Action>)
        requires
            state.wf(),
        ensures
            r == home_action(input@, state@),
    {
        let cs = str_chars(input);
        if is_single(&cs, 'q') {
            return Some(Action::Exit);
        }
        if is_single(&cs, 'c') {
            return Some(Action::CreateEpic);
        }
        match parse_input_u32(input) {
            Some(id) => {
                if state.epics.contains_key(&id) {
                    Some(Action::NavigateToEpicDetail { epic_id: id })
                } else {
                    None
                }
            },
            None => None,
        }
    }

    /// The logical rows of the epic table, in ascending id order: id, name
    /// and status of every epic.
    pub fn render(&self, state: &DBState) -> (r: Vec<(u32, String, Status)>)
        ensures
            r@.len() == state@.epics.len(),
            forall|j: int|
                0 <= j < r@.len() ==> (#[trigger] r@[j]).0 == state@.epics[j].0 && r@[j].1@
                    == state@.epics[j].1.name && r@[j].2 == state@.epics[j].1.status,
    {
        let mut rows: Vec<(u32, String, Status)> = Vec::new();
        let n = state.epics.len();
        for i in 0..n
            invariant
                n == state@.epics.len(),
                rows@.len() == i,
                forall|j: int|
                    0 <= j < i ==> (#[trigger] rows@[j]).0 == state@.epics[j].0 && rows@[j].1@
                        == state@.epics[j].1.name && rows@[j].2 == state@.epics[j].1.status,
        {
            let id = state.epics.key_at(i);
            let e = state.epics.value_at(i);
            rows.push((id, e.name.clone(), e.status));
        }
        rows
    }
}

/// Keys are in non-decreasing order.
pub open spec fn sorted_le(s: Seq<u32>) -> bool {
    forall|i: int, j: int| 0 <= i < j < s.len() ==> s[i] <= s[j]
}

/// Sort a list of ids: same ids, ascending.
pub fn sort_ids(v: &Vec<u32>) -> (r: Vec<u32>)
    ensures
        r@.to_multiset() == v@.to_multiset(),
        sorted_le(r@),
        forall|x: u32| r@.contains(x) <==> v@.contains(x),
{
    let mut rest: Vec<u32> = Vec::new();
    let n = v.len();
    for i in 0..n
        invariant
            n == v@.len(),
            rest@ == v@.take(i as int),
    {
        rest.push(v[i]);
        proof {
            assert(rest@ =~= v@.take(i + 1));
        }
    }
    proof {
        assert(v@.take(n as int) =~= v@);
    }
    let mut out: Vec<u32> = Vec::new();
    proof {
        broadcast use vstd::seq_lib::group_to_multiset_ensures;

        assert forall|x: u32| out@.to_multiset().count(x) == 0 by {
            assert(!out@.contains(x));
        }
        assert(out@.to_multiset() =~= Multiset::<u32>::empty());
        assert(out@.to_multiset().add(rest@.to_multiset()) =~= v@.to_multiset());
    }
    while rest.len() > 0
        invariant
            sorted_le(out@),
            out@.to_multiset().add(rest@.to_multiset()) =~= v@.to_multiset(),
            forall|a: int, b: int|
                0 <= a < out@.len() && 0 <= b < rest@.len() ==> out@[a] <= rest@[b],
        decreases rest@.len(),
    {
        // find the least remaining id
        let mut m: usize = 0;
        let rn = rest.len();
        let mut k: usize = 1;
        while k < rn
            invariant
                rn == rest@.len(),
                0 <= m < rn,
                1 <= k <= rn,
                forall|j: int| 0 <= j < k ==> rest@[m as int] <= rest@[j],
            decreases rn - k,
        {
            if rest[k] < rest[m] {
                m = k;
            }
            k += 1;
        }
        let ghost rest0 = rest@;
        let x = rest.remove(m);
        let ghost out0 = out@;
        out.push(x);
        proof {
            broadcast use vstd::seq_lib::group_to_multiset_ensures;

            assert(rest0.remove(m as int).to_multiset() =~= rest0.to_multiset().remove(x));
            assert(out0.push(x).to_multiset() =~= out0.to_multiset().insert(x));
            assert(out@.to_multiset().add(rest@.to_multiset()) =~= v@.to_multiset());
            assert forall|a: int, b: int|
                0 <= a < out@.len() && 0 <= b < rest@.len() implies out@[a] <= rest@[b] by {
                if a < out0.len() {
                    if b < m {
                        assert(rest@[b] == rest0[b]);
                    } else {
                        assert(rest@[b] == rest0[b + 1]);
                    }
                } else {
                    assert(out@[a] == x);
                    if b < m {
                        assert(rest@[b] == rest0[b]);
                    } else {
                        assert(rest@[b] == rest0[b + 1]);
                    }
                }
            }
            assert forall|a: int, b: int| 0 <= a < b < out@.len() implies out@[a] <= out@[b] by {
                if b == out0.len() {
                    assert(out@[b] == x);
                    assert(rest0.to_multiset().count(x) > 0);
                    assert(rest0.contains(x));
                }
            }
        }
    }
    proof {
        broadcast use vstd::seq_lib::group_to_multiset_ensures;

        assert(rest@.to_multiset() =~= Seq::<u32>::empty().to_multiset());
        assert(out@.to_multiset() =~= v@.to_multiset());
        assert forall|x: u32| out@.contains(x) <==> v@.contains(x) by {
            assert(out@.contains(x) <==> out@.to_multiset().count(x) > 0);
            assert(v@.contains(x) <==> v@.to_multiset().count(x) > 0);
        }
    }
    out
}

/// The stories of an id list that exist in the snapshot, in list order, with
/// their values.
pub open spec fn visible_stories(sv: StateView, ids: Seq<u32>) -> Seq<(u32, StoryView)>
    decreases ids.len(),
{
    if ids.len() == 0 {
        Seq::<(u32, StoryView)>::empty()
    } else if sv.stories_map().contains_key(ids[0]) {
        seq![(ids[0], sv.stories_map()[ids[0]])] + visible_stories(sv, ids.drop_first())
    } else {
        visible_stories(sv, ids.drop_first())
    }
}

/// What an epic detail page shows: the epic itself, and the rows of the
/// stories it owns that exist in the snapshot, in ascending id order.
pub struct EpicDetailContent {
    pub epic_id: u32,
    pub name: String,
    pub description: String,
    pub status: Status,
    pub stories: Vec<(u32, String, Status)>,
}

impl EpicDetail {
    /// Map one input line to an action: `p` goes back, `u`, `d` and `c`
    /// update, delete and create under this epic, and an id token navigates
    /// to that story if this epic owns it in the snapshot.
    pub fn handle_input(&self, input: &str, state: &DBState) -> (r: Option<Action>)
        requires
            state.wf(),
        ensures
            r == epic_action(*self, input@, state@),
    {
        let cs = str_chars(input);
        if is_single(&cs, 'p') {
            return Some(Action::NavigateToPreviousPage);
        }
        if is_single(&cs, 'u') {
            return Some(Action::UpdateEpicStatus { epic_id: self.epic_id });
        }
        if is_single(&cs, 'd') {
            return Some(Action::DeleteEpic { epic_id: self.epic_id });
        }
        if is_single(&cs, 'c') {
            return Some(Action::CreateStory { epic_id: self.epic_id });
        }
        match parse_input_u32(input) {
            Some(id) => {
                match state.epics.get(&self.epic_id) {
                    Some(e) => {
                        if ids_contain(&e.stories, id) {
                            Some(Action::NavigateToStoryDetail {
                                epic_id: self.epic_id,
                                story_id: id,
                            })
                        } else {
                            None
                        }
                    },
                    None => None,
                }
            },
            None => None,
        }
    }

    /// The logical content of this page, or `NotFound` exactly when the
    /// snapshot no longer has this epic.
    pub fn render(&self, state: &DBState) -> (r: Result<EpicDetailContent, DbError>)
        requires
            state.wf(),
        ensures
            r is Ok <==> state@.epics_map().contains_key(self.epic_id),
            r matches Err(e) ==> e == DbError::NotFound(ItemKind::Epic, self.epic_id),
            r matches Ok(c) ==> {
                let ev = state@.epics_map()[self.epic_id];
                &&& c.epic_id == self.epic_id
                &&& c.name@ == ev.name
                &&& c.description@ == ev.description
                &&& c.status == ev.status
                &&& exists|ids: Seq<u32>|
                    sorted_le(ids) && ids.to_multiset() == ev.stories.to_multiset() && {
                        let vis = visible_stories(state@, ids);
                        &&& c.stories@.len() == vis.len()
                        &&& forall|j: int|
                            0 <= j < vis.len() ==> (#[trigger] c.stories@[j]).0 == vis[j].0
                                && c.stories@[j].1@ == vis[j].1.name && c.stories@[j].2
                                == vis[j].1.status
                    }
            },
    {
        let e = match state.epics.get(&self.epic_id) {
            Some(e) => e,
            None => {
                return Err(DbError::NotFound(ItemKind::Epic, self.epic_id));
            },
        };
        let sorted = sort_ids(&e.stories);
        let mut rows: Vec<(u32, String, Status)> = Vec::new();
        let ghost done: Seq<(u32, StoryView)> = Seq::empty();
        let ghost mut doneg = done;
        let n = sorted.len();
        proof {
            assert(doneg + visible_stories(state@, sorted@.skip(0)) =~= visible_stories(
                state@,
                sorted@,
            )) by {
                assert(sorted@.skip(0) =~= sorted@);
            }
        }
        for i in 0..n
            invariant
                state.wf(),
                n == sorted@.len(),
                doneg + visible_stories(state@, sorted@.skip(i as int)) == visible_stories(
                    state@,
                    sorted@,
                ),
                rows@.len() == doneg.len(),
                forall|j: int|
                    0 <= j < doneg.len() ==> (#[trigger] rows@[j]).0 == doneg[j].0 && rows@[j].1@
                        == doneg[j].1.name && rows@[j].2 == doneg[j].1.status,
        {
            proof {
                assert(sorted@.skip(i as int).drop_first() =~= sorted@.skip(i + 1));
                assert(sorted@.skip(i as int)[0] == sorted@[i as int]);
            }
            let sid = sorted[i];
            match state.stories.get(&sid) {
                Some(st) => {
                    rows.push((sid, st.name.clone(), st.status));
                    proof {
                        doneg = doneg + seq![(sid, state@.stories_map()[sid])];
                        assert(doneg + visible_stories(state@, sorted@.skip(i + 1))
                            =~= visible_stories(state@, sorted@));
                    }
                },
                None => {
                },
            }
        }
        proof {
            assert(sorted@.skip(n as int) =~= Seq::<u32>::empty());
            assert(doneg =~= visible_stories(state@, sorted@));
        }
        Ok(
            EpicDetailContent {
                epic_id: self.epic_id,
                name: e.name.clone(),
                description: e.description.clone(),
                status: e.status,
                stories: rows,
            },
        )
    }
}

impl StoryDetail {
    /// Map one input line to an action: `p` goes back, `u` updates and `d`
    /// deletes this story.
    pub fn handle_input(&self, input: &str) -> (r: Option<Action>)
        ensures
            r == story_action(*self, input@),
    {
        let cs = str_chars(input);
        if is_single(&cs, 'p') {
            return Some(Action::NavigateToPreviousPage);
        }
        if is_single(&cs, 'u') {
            return Some(Action::UpdateStoryStatus { story_id: self.story_id });
        }
        if is_single(&cs, 'd') {
            return Some(Action::DeleteStory { epic_id: self.epic_id, story_id: self.story_id });
        }
        None
    }

    /// The logical content of this page — the story's id, name, description
    /// and status — or `NotFound` exactly when the snapshot no longer has
    /// this story.
    pub fn render(&self, state: &DBState) -> (r: Result<(u32, String, String, Status), DbError>)
        requires
            state.wf(),
        ensures
            r is Ok <==> state@.stories_map().contains_key(self.story_id),
            r matches Err(e) ==> e == DbError::NotFound(ItemKind::Story, self.story_id),
            r matches Ok(c) ==> {
                let st = state@.stories_map()[self.story_id];
                c.0 == self.story_id && c.1@ == st.name && c.2@ == st.description && c.3
                    == st.status
            },
    {
        match state.stories.get(&self.story_id) {
            Some(st) => Ok((self.story_id, st.name.clone(), st.description.clone(), st.status)),
            None => Err(DbError::NotFound(ItemKind::Story, self.story_id)),
        }
    }
}

impl Page {
    /// Map one input line to an action, by the page's own grammar.
    pub fn handle_input(&self, input: &str, state: &DBState) -> (r: Option<Action>)
        requires
            state.wf(),
        ensures
            r == match *self {
                Page::Home(pg) => home_action(input@, state@),
                Page::Epic(pg) => epic_action(pg, input@, state@),
                Page::Story(pg) => story_action(pg, input@),
            },
    {
        match self {
            Page::Home(pg) => pg.handle_input(input, state),
            Page::Epic(pg) => pg.handle_input(input, state),
            Page::Story(pg) => pg.handle_input(input),
        }
    }
}

} // verus!
