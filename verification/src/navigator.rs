//! The navigator: a stack of pages driven by actions. Navigation actions
//! push and pop pages; data actions collect input through the prompt
//! capability and call the repository; `Exit` empties the stack, which is
//! the terminal state.

use crate::database::JiraDatabase;
use crate::database::with_epic_created;
use crate::database::with_epic_deleted;
use crate::database::with_epic_status;
use crate::database::with_story_created;
use crate::database::with_story_deleted;
use crate::database::with_story_status;
use crate::models::Action;
use crate::models::DbError;
use crate::models::Epic;
use crate::models::EpicView;
use crate::models::ItemKind;
use crate::models::Status;
use crate::models::Story;
use crate::models::StoryView;
use crate::pages::EpicDetail;
use crate::pages::HomePage;
use crate::pages::Page;
use crate::pages::StoryDetail;
use crate::store::Store;
use vstd::prelude::*;

verus! {

/// The input-collection capability: how the navigator obtains values and
/// confirmations from the user. Nothing is promised of the results — the
/// dispatcher is verified for every possible answer.
pub trait Prompts: Sized {
    /// Collect a new epic.
    fn create_epic(&mut self) -> Epic;

    /// Collect a new story.
    fn create_story(&mut self) -> Story;

    /// Confirm an epic deletion.
    fn delete_epic(&mut self) -> bool;

    /// Confirm a story deletion.
    fn delete_story(&mut self) -> bool;

    /// Collect a new status, or nothing if the user declines.
    fn update_status(&mut self) -> Option<Status>;
}

/// The stack after popping its top page; popping an empty stack changes
/// nothing.
pub open spec fn stack_pop(pages: Seq<Page>) -> Seq<Page> {
    if pages.len() > 0 {
        pages.drop_last()
    } else {
        pages
    }
}

/// How a repository `update_epic_status` call relates its outcome to the
/// stores before and after.
pub open spec fn upd_epic_post<S: Store>(
    db0: JiraDatabase<S>,
    db1: JiraDatabase<S>,
    epic_id: u32,
    status: Status,
    r: Result<(), DbError>,
) -> bool {
    &&& (!db0.can_read() ==> (r matches Err(e) && e.is_store_error()) && db1 == db0)
    &&& (db0.can_read() ==> {
        let s0 = db0.contents();
        &&& ((r == Err::<(), DbError>(DbError::NotFound(ItemKind::Epic, epic_id)))
            <==> !s0.epics_map().contains_key(epic_id))
        &&& (!s0.epics_map().contains_key(epic_id) ==> db1 == db0)
        &&& (db0.always_ok() && s0.epics_map().contains_key(epic_id) ==> r is Ok)
        &&& match r {
            Ok(_) => s0.epics_map().contains_key(epic_id) && db1.can_read() && db1.contents()
                == with_epic_status(s0, epic_id, status),
            Err(e) => e == DbError::NotFound(ItemKind::Epic, epic_id) || e
                == DbError::IOFailure,
        }
    })
    &&& (db0.always_ok() ==> db1.always_ok())
}

/// How a repository `update_story_status` call relates its outcome to the
/// stores before and after.
pub open spec fn upd_story_post<S: Store>(
    db0: JiraDatabase<S>,
    db1: JiraDatabase<S>,
    story_id: u32,
    status: Status,
    r: Result<(), DbError>,
) -> bool {
    &&& (!db0.can_read() ==> (r matches Err(e) && e.is_store_error()) && db1 == db0)
    &&& (db0.can_read() ==> {
        let s0 = db0.contents();
        &&& ((r == Err::<(), DbError>(DbError::NotFound(ItemKind::Story, story_id)))
            <==> !s0.stories_map().contains_key(story_id))
        &&& (!s0.stories_map().contains_key(story_id) ==> db1 == db0)
        &&& (db0.always_ok() && s0.stories_map().contains_key(story_id) ==> r is Ok)
        &&& match r {
            Ok(_) => s0.stories_map().contains_key(story_id) && db1.can_read() && db1.contents()
                == with_story_status(s0, story_id, status),
            Err(e) => e == DbError::NotFound(ItemKind::Story, story_id) || e
                == DbError::IOFailure,
        }
    })
    &&& (db0.always_ok() ==> db1.always_ok())
}

/// How a repository `delete_epic` call relates its outcome to the stores
/// before and after.
pub open spec fn del_epic_post<S: Store>(
    db0: JiraDatabase<S>,
    db1: JiraDatabase<S>,
    epic_id: u32,
    r: Result<(), DbError>,
) -> bool {
    &&& (!db0.can_read() ==> (r matches Err(e) && e.is_store_error()) && db1 == db0)
    &&& (db0.can_read() ==> {
        let s0 = db0.contents();
        &&& ((r == Err::<(), DbError>(DbError::NotFound(ItemKind::Epic, epic_id)))
            <==> !s0.epics_map().contains_key(epic_id))
        &&& (!s0.epics_map().contains_key(epic_id) ==> db1 == db0)
        &&& (db0.always_ok() && s0.epics_map().contains_key(epic_id) ==> r is Ok)
        &&& match r {
            Ok(_) => s0.epics_map().contains_key(epic_id) && db1.can_read() && db1.contents()
                == with_epic_deleted(s0, epic_id),
            Err(e) => e == DbError::NotFound(ItemKind::Epic, epic_id) || e
                == DbError::IOFailure,
        }
    })
    &&& (db0.always_ok() ==> db1.always_ok())
}

/// How a repository `delete_story` call relates its outcome to the stores
/// before and after.
pub open spec fn del_story_post<S: Store>(
    db0: JiraDatabase<S>,
    db1: JiraDatabase<S>,
    epic_id: u32,
    story_id: u32,
    r: Result<(), DbError>,
) -> bool {
    &&& (!db0.can_read() ==> (r matches Err(e) && e.is_store_error()) && db1 == db0)
    &&& (db0.can_read() ==> {
        let s0 = db0.contents();
        &&& ((r == Err::<(), DbError>(DbError::NotFound(ItemKind::Epic, epic_id)))
            <==> !s0.epics_map().contains_key(epic_id))
        &&& (s0.epics_map().contains_key(epic_id) ==> ((r == Err::<(), DbError>(
            DbError::NotFound(ItemKind::Story, story_id),
        )) <==> !s0.stories_map().contains_key(story_id)))
        &&& (db0.always_ok() && s0.epics_map().contains_key(epic_id)
            && s0.stories_map().contains_key(story_id) ==> r is Ok)
        &&& match r {
            Ok(_) => s0.epics_map().contains_key(epic_id) && s0.stories_map().contains_key(
                story_id,
            ) && db1.can_read() && db1.contents() == with_story_deleted(s0, epic_id, story_id),
            Err(e) => e == DbError::NotFound(ItemKind::Epic, epic_id) || e
                == DbError::NotFound(ItemKind::Story, story_id) || e == DbError::IOFailure,
        }
    })
    &&& (db0.always_ok() ==> db1.always_ok())
}

/// How a repository `create_epic` call with some collected epic relates its
/// outcome to the stores before and after.
pub open spec fn create_epic_post<S: Store>(
    db0: JiraDatabase<S>,
    db1: JiraDatabase<S>,
    e: EpicView,
    r: Result<(), DbError>,
) -> bool {
    &&& (!db0.can_read() ==> (r matches Err(er) && er.is_store_error()) && db1 == db0)
    &&& (db0.can_read() ==> {
        &&& (db0.always_ok() ==> r is Ok)
        &&& match r {
            Ok(_) => db1.can_read() && db1.contents() == with_epic_created(db0.contents(), e),
            Err(er) => er == DbError::IOFailure,
        }
    })
    &&& (db0.always_ok() ==> db1.always_ok())
}

/// How a repository `create_story` call with some collected story relates
/// its outcome to the stores before and after.
pub open spec fn create_story_post<S: Store>(
    db0: JiraDatabase<S>,
    db1: JiraDatabase<S>,
    st: StoryView,
    epic_id: u32,
    r: Result<(), DbError>,
) -> bool {
    &&& (!db0.can_read() ==> (r matches Err(er) && er.is_store_error()) && db1 == db0)
    &&& (db0.can_read() ==> {
        let s0 = db0.contents();
        &&& ((r == Err::<(), DbError>(DbError::NotFound(ItemKind::Epic, epic_id)))
            <==> !s0.epics_map().contains_key(epic_id))
        &&& (!s0.epics_map().contains_key(epic_id) ==> db1 == db0)
        &&& (db0.always_ok() && s0.epics_map().contains_key(epic_id) ==> r is Ok)
        &&& match r {
            Ok(_) => s0.epics_map().contains_key(epic_id) && db1.can_read() && db1.contents()
                == with_story_created(s0, st, epic_id),
            Err(er) => er == DbError::NotFound(ItemKind::Epic, epic_id) || er
                == DbError::IOFailure,
        }
    })
    &&& (db0.always_ok() ==> db1.always_ok())
}

/// The page stack, the prompt capability and the repository.
pub struct Navigator<S, P> {
    pub pages: Vec<Page>,
    pub prompts: P,
    pub database: JiraDatabase<S>,
}

impl<S: Store, P: Prompts> Navigator<S, P> {
    /// A navigator starts with exactly one Home page on the stack.
    pub fn new(database: JiraDatabase<S>, prompts: P) -> (r: Self)
        ensures
            r.pages@ == seq![Page::Home(HomePage {  })],
            r.database == database,
    {
        let mut pages: Vec<Page> = Vec::new();
        pages.push(Page::Home(HomePage {  }));
        proof {
            assert(pages@ =~= seq![Page::Home(HomePage {  })]);
        }
        Navigator { pages, prompts, database }
    }

    /// The page on top of the stack, if the stack is not empty.
    pub fn get_current_page(&self) -> (r: Option<&Page>)
        ensures
            match r {
                Some(p) => self.pages@.len() > 0 && *p == self.pages@.last(),
                None => self.pages@.len() == 0,
            },
    {
        let n = self.pages.len();
        if n == 0 {
            None
        } else {
            Some(&self.pages[n - 1])
        }
    }

    /// How many pages the stack holds.
    pub fn get_page_count(&self) -> (r: usize)
        ensures
            r == self.pages@.len(),
    {
        self.pages.len()
    }

    /// Replace the prompt capability.
    pub fn set_prompts(&mut self, prompts: P)
        ensures
            final(self).pages == old(self).pages,
            final(self).database == old(self).database,
    {
        self.prompts = prompts;
    }

    /// Dispatch one action: push or pop pages for navigation actions, call
    /// the repository for data actions (collecting input through the prompt
    /// capability first), clear the stack on `Exit`. A delete pops the
    /// current page only when the deletion was confirmed and succeeded.
    #[verifier::rlimit(100)]
    pub fn handle_action(&mut self, action: Action) -> (r: Result<(), DbError>)
        requires
            old(self).database.can_read() ==> old(self).database.contents().last_item_id
                < u32::MAX,
        ensures
            match action {
                Action::NavigateToEpicDetail { epic_id } => r is Ok && final(self).pages@ == old(
                    self,
                ).pages@.push(Page::Epic(EpicDetail { epic_id })) && final(self).database == old(
                    self,
                ).database,
                Action::NavigateToStoryDetail { epic_id, story_id } => r is Ok
                    && final(self).pages@ == old(self).pages@.push(
                    Page::Story(StoryDetail { epic_id, story_id }),
                ) && final(self).database == old(self).database,
                Action::NavigateToPreviousPage => r is Ok && final(self).pages@ == stack_pop(
                    old(self).pages@,
                ) && final(self).database == old(self).database,
                Action::Exit => r is Ok && final(self).pages@.len() == 0 && final(self).database
                    == old(self).database,
                Action::CreateEpic => final(self).pages@ == old(self).pages@ && exists|
                    e: EpicView,
                |
                    create_epic_post(old(self).database, final(self).database, e, r),
                Action::CreateStory { epic_id } => final(self).pages@ == old(self).pages@
                    && exists|st: StoryView|
                    create_story_post(old(self).database, final(self).database, st, epic_id, r),
                Action::UpdateEpicStatus { epic_id } => final(self).pages@ == old(self).pages@
                    && ((r is Ok && final(self).database == old(self).database) || exists|
                    st: Status,
                |
                    upd_epic_post(old(self).database, final(self).database, epic_id, st, r)),
                Action::UpdateStoryStatus { story_id } => final(self).pages@ == old(self).pages@
                    && ((r is Ok && final(self).database == old(self).database) || exists|
                    st: Status,
                |
                    upd_story_post(old(self).database, final(self).database, story_id, st, r)),
                Action::DeleteEpic { epic_id } => (r is Ok && final(self).database == old(
                    self,
                ).database && final(self).pages@ == old(self).pages@) || (del_epic_post(
                    old(self).database,
                    final(self).database,
                    epic_id,
                    r,
                ) && final(self).pages@ == (if r is Ok {
                    stack_pop(old(self).pages@)
                } else {
                    old(self).pages@
                })),
                Action::DeleteStory { epic_id, story_id } => (r is Ok && final(self).database
                    == old(self).database && final(self).pages@ == old(self).pages@) || (
                del_story_post(
                    old(self).database,
                    final(self).database,
                    epic_id,
                    story_id,
                    r,
                ) && final(self).pages@ == (if r is Ok {
                    stack_pop(old(self).pages@)
                } else {
                    old(self).pages@
                })),
            },
            old(self).database.always_ok() ==> final(self).database.always_ok(),
    {
        match action {
            Action::NavigateToEpicDetail { epic_id } => {
                self.pages.push(Page::Epic(EpicDetail { epic_id }));
                Ok(())
            },
            Action::NavigateToStoryDetail { epic_id, story_id } => {
                self.pages.push(Page::Story(StoryDetail { epic_id, story_id }));
                Ok(())
            },
            Action::NavigateToPreviousPage => {
                if self.pages.len() > 0 {
                    self.pages.pop();
                    proof {
                        assert(self.pages@ =~= stack_pop(old(self).pages@));
                    }
                }
                Ok(())
            },
            Action::Exit => {
                self.pages.clear();
                Ok(())
            },
            Action::CreateEpic => {
                let epic = self.prompts.create_epic();
                let ghost ev = epic@;
                let res = self.database.create_epic(epic);
                match res {
                    Ok(_) => {
                        proof {
                            assert(create_epic_post(
                                old(self).database,
                                self.database,
                                ev,
                                Ok::<(), DbError>(()),
                            ));
                        }
                        Ok(())
                    },
                    Err(e) => {
                        proof {
                            assert(create_epic_post(
                                old(self).database,
                                self.database,
                                ev,
                                Err::<(), DbError>(e),
                            ));
                        }
                        Err(e)
                    },
                }
            },
            Action::CreateStory { epic_id } => {
                let story = self.prompts.create_story();
                let ghost sv = story@;
                let res = self.database.create_story(story, epic_id);
                match res {
                    Ok(_) => {
                        proof {
                            assert(create_story_post(
                                old(self).database,
                                self.database,
                                sv,
                                epic_id,
                                Ok::<(), DbError>(()),
                            ));
                        }
                        Ok(())
                    },
                    Err(e) => {
                        proof {
                            assert(create_story_post(
                                old(self).database,
                                self.database,
                                sv,
                                epic_id,
                                Err::<(), DbError>(e),
                            ));
                        }
                        Err(e)
                    },
                }
            },
            Action::UpdateEpicStatus { epic_id } => {
                match self.prompts.update_status() {
                    Some(status) => {
                        let r = self.database.update_epic_status(epic_id, status);
                        proof {
                            assert(upd_epic_post(
                                old(self).database,
                                self.database,
                                epic_id,
                                status,
                                r,
                            ));
                        }
                        r
                    },
                    None => Ok(()),
                }
            },
            Action::UpdateStoryStatus { story_id } => {
                match self.prompts.update_status() {
                    Some(status) => {
                        let r = self.database.update_story_status(story_id, status);
                        proof {
                            assert(upd_story_post(
                                old(self).database,
                                self.database,
                                story_id,
                                status,
                                r,
                            ));
                        }
                        r
                    },
                    None => Ok(()),
                }
            },
            Action::DeleteEpic { epic_id } => {
                if self.prompts.delete_epic() {
                    let r = self.database.delete_epic(epic_id);
                    proof {
                        assert(del_epic_post(old(self).database, self.database, epic_id, r));
                    }
                    match r {
                        Ok(_) => {
                            if self.pages.len() > 0 {
                                self.pages.pop();
                                proof {
                                    assert(self.pages@ =~= stack_pop(old(self).pages@));
                                }
                            }
                            Ok(())
                        },
                        Err(e) => Err(e),
                    }
                } else {
                    Ok(())
                }
            },
            Action::DeleteStory { epic_id, story_id } => {
                if self.prompts.delete_story() {
                    let r = self.database.delete_story(epic_id, story_id);
                    proof {
                        assert(del_story_post(
                            old(self).database,
                            self.database,
                            epic_id,
                            story_id,
                            r,
                        ));
                    }
                    match r {
                        Ok(_) => {
                            if self.pages.len() > 0 {
                                self.pages.pop();
                                proof {
                                    assert(self.pages@ =~= stack_pop(old(self).pages@));
                                }
                            }
                            Ok(())
                        },
                        Err(e) => Err(e),
                    }
                } else {
                    Ok(())
                }
            },
        }
    }
}

/// Law: `Exit` empties the stack from any depth, and popping an empty stack
/// is a no-op. These restate, over the stack model, what `handle_action`
/// promises for the navigation actions.
pub proof fn lemma_exit_and_empty_pop(pages: Seq<Page>)
    ensures
        stack_pop(Seq::<Page>::empty()) == Seq::<Page>::empty(),
        pages.len() > 0 ==> stack_pop(pages).len() == pages.len() - 1,
{
}

} // verus!
