use jiraffe::database::JiraDatabase;
use jiraffe::models::Action;
use jiraffe::models::Epic;
use jiraffe::models::Status;
use jiraffe::models::Story;
use jiraffe::navigator::Navigator;
use jiraffe::navigator::Prompts;
use jiraffe::pages::Page;
use jiraffe::store::MemoryStore;

/// A scripted prompt capability: always answers with the configured values.
struct ScriptedPrompts {
    epic: Epic,
    story: Story,
    confirm_epic_delete: bool,
    confirm_story_delete: bool,
    status: Option<Status>,
}

impl ScriptedPrompts {
    fn quiet() -> Self {
        ScriptedPrompts {
            epic: Epic::new("".to_string(), "".to_string()),
            story: Story::new("".to_string(), "".to_string()),
            confirm_epic_delete: false,
            confirm_story_delete: false,
            status: None,
        }
    }
}

impl Prompts for ScriptedPrompts {
    fn create_epic(&mut self) -> Epic {
        self.epic.clone()
    }

    fn create_story(&mut self) -> Story {
        self.story.clone()
    }

    fn delete_epic(&mut self) -> bool {
        self.confirm_epic_delete
    }

    fn delete_story(&mut self) -> bool {
        self.confirm_story_delete
    }

    fn update_status(&mut self) -> Option<Status> {
        self.status
    }
}

fn fresh_db() -> JiraDatabase<MemoryStore> {
    JiraDatabase::new(MemoryStore::new())
}

#[test]
fn should_start_on_home_page() {
    let nav = Navigator::new(fresh_db(), ScriptedPrompts::quiet());

    assert_eq!(nav.get_page_count(), 1);

    let current_page = nav.get_current_page().unwrap();
    assert!(matches!(current_page, Page::Home(_)));
}

#[test]
fn handle_action_should_navigate_pages() {
    let mut nav = Navigator::new(fresh_db(), ScriptedPrompts::quiet());

    nav.handle_action(Action::NavigateToEpicDetail { epic_id: 1 }).unwrap();
    assert_eq!(nav.get_page_count(), 2);

    let current_page = nav.get_current_page().unwrap();
    assert!(matches!(current_page, Page::Epic(_)));

    nav.handle_action(Action::NavigateToStoryDetail { epic_id: 1, story_id: 2 }).unwrap();
    assert_eq!(nav.get_page_count(), 3);

    let current_page = nav.get_current_page().unwrap();
    assert!(matches!(current_page, Page::Story(_)));

    nav.handle_action(Action::NavigateToPreviousPage).unwrap();
    assert_eq!(nav.get_page_count(), 2);

    let current_page = nav.get_current_page().unwrap();
    assert!(matches!(current_page, Page::Epic(_)));

    nav.handle_action(Action::NavigateToPreviousPage).unwrap();
    assert_eq!(nav.get_page_count(), 1);

    let current_page = nav.get_current_page().unwrap();
    assert!(matches!(current_page, Page::Home(_)));

    nav.handle_action(Action::NavigateToPreviousPage).unwrap();
    assert_eq!(nav.get_page_count(), 0);

    nav.handle_action(Action::NavigateToPreviousPage).unwrap();
    assert_eq!(nav.get_page_count(), 0);
}

#[test]
fn handle_action_should_clear_pages_on_exit() {
    let mut nav = Navigator::new(fresh_db(), ScriptedPrompts::quiet());

    nav.handle_action(Action::NavigateToEpicDetail { epic_id: 1 }).unwrap();
    nav.handle_action(Action::NavigateToStoryDetail { epic_id: 1, story_id: 2 }).unwrap();
    nav.handle_action(Action::Exit).unwrap();

    assert_eq!(nav.get_page_count(), 0);
}

#[test]
fn handle_action_should_handle_create_epic() {
    let mut prompts = ScriptedPrompts::quiet();
    prompts.epic = Epic::new("name".to_string(), "description".to_string());

    let mut nav = Navigator::new(fresh_db(), ScriptedPrompts::quiet());
    nav.set_prompts(prompts);

    nav.handle_action(Action::CreateEpic).unwrap();

    let db_state = nav.database.read().unwrap();
    assert_eq!(db_state.epics.len(), 1);

    let epic = &db_state.epics.entries[0].1;
    assert_eq!(epic.name, "name".to_string());
    assert_eq!(epic.description, "description".to_string());
}

#[test]
fn handle_action_should_handle_update_epic() {
    let mut db = fresh_db();
    let epic_id = db.create_epic(Epic::new("".to_string(), "".to_string())).unwrap();

    let mut nav = Navigator::new(db, ScriptedPrompts::quiet());

    let mut prompts = ScriptedPrompts::quiet();
    prompts.status = Some(Status::InProgress);

    nav.set_prompts(prompts);

    nav.handle_action(Action::UpdateEpicStatus { epic_id }).unwrap();

    let db_state = nav.database.read().unwrap();
    assert_eq!(db_state.epics.get(&epic_id).unwrap().status, Status::InProgress);
}

#[test]
fn handle_action_should_handle_delete_epic() {
    let mut db = fresh_db();
    let epic_id = db.create_epic(Epic::new("".to_string(), "".to_string())).unwrap();

    let mut nav = Navigator::new(db, ScriptedPrompts::quiet());

    let mut prompts = ScriptedPrompts::quiet();
    prompts.confirm_epic_delete = true;

    nav.set_prompts(prompts);

    nav.handle_action(Action::DeleteEpic { epic_id }).unwrap();

    let db_state = nav.database.read().unwrap();
    assert_eq!(db_state.epics.len(), 0);
}

#[test]
fn handle_action_should_handle_create_story() {
    let mut db = fresh_db();
    let epic_id = db.create_epic(Epic::new("".to_string(), "".to_string())).unwrap();

    let mut nav = Navigator::new(db, ScriptedPrompts::quiet());

    let mut prompts = ScriptedPrompts::quiet();
    prompts.story = Story::new("name".to_string(), "description".to_string());

    nav.set_prompts(prompts);

    nav.handle_action(Action::CreateStory { epic_id }).unwrap();

    let db_state = nav.database.read().unwrap();
    assert_eq!(db_state.stories.len(), 1);

    let story = &db_state.stories.entries[0].1;
    assert_eq!(story.name, "name".to_string());
    assert_eq!(story.description, "description".to_string());
}

#[test]
fn handle_action_should_handle_update_story() {
    let mut db = fresh_db();
    let epic_id = db.create_epic(Epic::new("".to_string(), "".to_string())).unwrap();
    let story_id = db.create_story(Story::new("".to_string(), "".to_string()), epic_id).unwrap();

    let mut nav = Navigator::new(db, ScriptedPrompts::quiet());

    let mut prompts = ScriptedPrompts::quiet();
    prompts.status = Some(Status::InProgress);

    nav.set_prompts(prompts);

    nav.handle_action(Action::UpdateStoryStatus { story_id }).unwrap();

    let db_state = nav.database.read().unwrap();
    assert_eq!(db_state.stories.get(&story_id).unwrap().status, Status::InProgress);
}

#[test]
fn handle_action_should_handle_delete_story() {
    let mut db = fresh_db();
    let epic_id = db.create_epic(Epic::new("".to_string(), "".to_string())).unwrap();
    let story_id = db.create_story(Story::new("".to_string(), "".to_string()), epic_id).unwrap();

    let mut nav = Navigator::new(db, ScriptedPrompts::quiet());

    let mut prompts = ScriptedPrompts::quiet();
    prompts.confirm_story_delete = true;

    nav.set_prompts(prompts);

    nav.handle_action(Action::DeleteStory { epic_id, story_id }).unwrap();

    let db_state = nav.database.read().unwrap();
    assert_eq!(db_state.stories.len(), 0);
}

#[test]
fn exit_empties_the_stack_from_any_depth() {
    let mut nav = Navigator::new(fresh_db(), ScriptedPrompts::quiet());
    for id in 1..5 {
        nav.handle_action(Action::NavigateToEpicDetail { epic_id: id }).unwrap();
    }
    assert_eq!(nav.get_page_count(), 5);
    nav.handle_action(Action::Exit).unwrap();
    assert_eq!(nav.get_page_count(), 0);
}

#[test]
fn declined_prompts_change_nothing() {
    let mut db = fresh_db();
    let epic_id = db.create_epic(Epic::new("e".to_string(), "".to_string())).unwrap();
    let story_id = db.create_story(Story::new("s".to_string(), "".to_string()), epic_id).unwrap();

    // every confirmation declined, no status chosen
    let mut nav = Navigator::new(db, ScriptedPrompts::quiet());
    let before = nav.database.read().unwrap();

    nav.handle_action(Action::DeleteEpic { epic_id }).unwrap();
    nav.handle_action(Action::DeleteStory { epic_id, story_id }).unwrap();
    nav.handle_action(Action::UpdateEpicStatus { epic_id }).unwrap();
    nav.handle_action(Action::UpdateStoryStatus { story_id }).unwrap();

    assert_eq!(nav.database.read().unwrap(), before);
    assert_eq!(nav.get_page_count(), 1);
}

#[test]
fn confirmed_delete_pops_the_current_page() {
    let mut db = fresh_db();
    let epic_id = db.create_epic(Epic::new("e".to_string(), "".to_string())).unwrap();

    let mut prompts = ScriptedPrompts::quiet();
    prompts.confirm_epic_delete = true;

    let mut nav = Navigator::new(db, ScriptedPrompts::quiet());
    nav.set_prompts(prompts);
    nav.handle_action(Action::NavigateToEpicDetail { epic_id }).unwrap();
    assert_eq!(nav.get_page_count(), 2);

    nav.handle_action(Action::DeleteEpic { epic_id }).unwrap();
    assert_eq!(nav.get_page_count(), 1);
}
