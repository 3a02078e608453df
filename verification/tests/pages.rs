use jiraffe::database::JiraDatabase;
use jiraffe::models::Action;
use jiraffe::models::DBState;
use jiraffe::models::Epic;
use jiraffe::models::Status;
use jiraffe::models::Story;
use jiraffe::pages::parse_input_u32;
use jiraffe::pages::EpicDetail;
use jiraffe::pages::HomePage;
use jiraffe::pages::StoryDetail;
use jiraffe::store::MemoryStore;

fn fresh_db() -> JiraDatabase<MemoryStore> {
    JiraDatabase::new(MemoryStore::new())
}

fn snapshot(db: &JiraDatabase<MemoryStore>) -> DBState {
    db.read().unwrap()
}

#[test]
fn draw_page_should_not_fail() {
    let db = fresh_db();

    let page = HomePage {};
    let rows = page.render(&snapshot(&db));
    assert_eq!(rows.len(), 0);
}

#[test]
fn handle_input_should_not_fail() {
    let db = fresh_db();

    let page = HomePage {};
    assert_eq!(page.handle_input("", &snapshot(&db)), None);
}

#[test]
fn handle_input_should_return_the_correct_actions() {
    let mut db = fresh_db();

    let epic = Epic::new("".to_string(), "".to_string());

    let epic_id = db.create_epic(epic).unwrap();

    let page = HomePage {};
    let state = snapshot(&db);

    let q = "q";
    let c = "c";
    let valid_epic_id = epic_id.to_string();
    let invalid_epic_id = "999";
    let junk_input = "j983f2j";
    let junk_input_with_valid_prefix = "q983f2j";
    let input_with_trailing_white_spaces = "q\n";

    assert_eq!(page.handle_input(q, &state), Some(Action::Exit));
    assert_eq!(page.handle_input(c, &state), Some(Action::CreateEpic));
    assert_eq!(
        page.handle_input(&valid_epic_id, &state),
        Some(Action::NavigateToEpicDetail { epic_id: 1 })
    );
    assert_eq!(page.handle_input(invalid_epic_id, &state), None);
    assert_eq!(page.handle_input(junk_input, &state), None);
    assert_eq!(page.handle_input(junk_input_with_valid_prefix, &state), None);
    assert_eq!(page.handle_input(input_with_trailing_white_spaces, &state), None);
}

#[test]
fn pages_draw_page_should_not_fail() {
    let mut db = fresh_db();
    let epic_id = db.create_epic(Epic::new("".to_string(), "".to_string())).unwrap();

    let page = EpicDetail { epic_id };
    assert!(page.render(&snapshot(&db)).is_ok());
}

#[test]
fn pages_handle_input_should_not_fail() {
    let mut db = fresh_db();
    let epic_id = db.create_epic(Epic::new("".to_string(), "".to_string())).unwrap();

    let page = EpicDetail { epic_id };
    assert_eq!(page.handle_input("", &snapshot(&db)), None);
}

#[test]
fn draw_page_should_fail_for_invalid_epic_id() {
    let db = fresh_db();

    let page = EpicDetail { epic_id: 999 };
    assert!(page.render(&snapshot(&db)).is_err());
}

#[test]
fn pages_handle_input_should_return_the_correct_actions() {
    let mut db = fresh_db();

    let epic_id = db.create_epic(Epic::new("".to_string(), "".to_string())).unwrap();
    let story_id = db.create_story(Story::new("".to_string(), "".to_string()), epic_id).unwrap();

    let page = EpicDetail { epic_id };
    let state = snapshot(&db);

    let p = "p";
    let u = "u";
    let d = "d";
    let c = "c";
    let invalid_story_id = "999";
    let junk_input = "j983f2j";
    let junk_input_with_valid_prefix = "p983f2j";
    let input_with_trailing_white_spaces = "p\n";

    assert_eq!(page.handle_input(p, &state), Some(Action::NavigateToPreviousPage));
    assert_eq!(page.handle_input(u, &state), Some(Action::UpdateEpicStatus { epic_id: 1 }));
    assert_eq!(page.handle_input(d, &state), Some(Action::DeleteEpic { epic_id: 1 }));
    assert_eq!(page.handle_input(c, &state), Some(Action::CreateStory { epic_id: 1 }));
    assert_eq!(
        page.handle_input(&story_id.to_string(), &state),
        Some(Action::NavigateToStoryDetail { epic_id: 1, story_id: 2 })
    );
    assert_eq!(page.handle_input(invalid_story_id, &state), None);
    assert_eq!(page.handle_input(junk_input, &state), None);
    assert_eq!(page.handle_input(junk_input_with_valid_prefix, &state), None);
    assert_eq!(page.handle_input(input_with_trailing_white_spaces, &state), None);
}

#[test]
fn story_draw_page_should_not_fail() {
    let mut db = fresh_db();

    let epic_id = db.create_epic(Epic::new("".to_string(), "".to_string())).unwrap();
    let story_id = db.create_story(Story::new("".to_string(), "".to_string()), epic_id).unwrap();

    let page = StoryDetail { epic_id, story_id };
    assert!(page.render(&snapshot(&db)).is_ok());
}

#[test]
fn story_handle_input_should_not_fail() {
    let mut db = fresh_db();

    let epic_id = db.create_epic(Epic::new("".to_string(), "".to_string())).unwrap();
    let story_id = db.create_story(Story::new("".to_string(), "".to_string()), epic_id).unwrap();

    let page = StoryDetail { epic_id, story_id };
    assert_eq!(page.handle_input(""), None);
}

#[test]
fn draw_page_should_fail_for_invalid_story_id() {
    let mut db = fresh_db();

    let epic_id = db.create_epic(Epic::new("".to_string(), "".to_string())).unwrap();
    let _ = db.create_story(Story::new("".to_string(), "".to_string()), epic_id).unwrap();

    let page = StoryDetail { epic_id, story_id: 999 };
    assert!(page.render(&snapshot(&db)).is_err());
}

#[test]
fn story_handle_input_should_return_the_correct_actions() {
    let mut db = fresh_db();

    let epic_id = db.create_epic(Epic::new("".to_string(), "".to_string())).unwrap();
    let story_id = db.create_story(Story::new("".to_string(), "".to_string()), epic_id).unwrap();

    let page = StoryDetail { epic_id, story_id };

    let p = "p";
    let u = "u";
    let d = "d";
    let some_number = "1";
    let junk_input = "j983f2j";
    let junk_input_with_valid_prefix = "p983f2j";
    let input_with_trailing_white_spaces = "p\n";

    assert_eq!(page.handle_input(p), Some(Action::NavigateToPreviousPage));
    assert_eq!(page.handle_input(u), Some(Action::UpdateStoryStatus { story_id }));
    assert_eq!(page.handle_input(d), Some(Action::DeleteStory { epic_id, story_id }));
    assert_eq!(page.handle_input(some_number), None);
    assert_eq!(page.handle_input(junk_input), None);
    assert_eq!(page.handle_input(junk_input_with_valid_prefix), None);
    assert_eq!(page.handle_input(input_with_trailing_white_spaces), None);
}

#[test]
fn parse_input_accepts_what_the_standard_parser_accepts() {
    assert_eq!(parse_input_u32("7"), Some(7));
    assert_eq!(parse_input_u32("+7"), Some(7));
    assert_eq!(parse_input_u32("007"), Some(7));
    assert_eq!(parse_input_u32("4294967295"), Some(u32::MAX));
    assert_eq!(parse_input_u32("4294967296"), None);
    assert_eq!(parse_input_u32(""), None);
    assert_eq!(parse_input_u32("+"), None);
    assert_eq!(parse_input_u32("1 "), None);
    assert_eq!(parse_input_u32("-1"), None);
    assert_eq!(parse_input_u32("1a"), None);
}

#[test]
fn home_render_lists_epics_in_id_order() {
    let mut db = fresh_db();
    let a = db.create_epic(Epic::new("first".to_string(), "".to_string())).unwrap();
    let b = db.create_epic(Epic::new("second".to_string(), "".to_string())).unwrap();

    let rows = HomePage {}.render(&snapshot(&db));
    assert_eq!(rows.len(), 2);
    assert_eq!(rows[0], (a, "first".to_string(), Status::Open));
    assert_eq!(rows[1], (b, "second".to_string(), Status::Open));
}

#[test]
fn epic_render_lists_owned_stories_sorted() {
    let mut db = fresh_db();
    let epic_id = db.create_epic(Epic::new("e".to_string(), "d".to_string())).unwrap();
    let s1 = db.create_story(Story::new("one".to_string(), "".to_string()), epic_id).unwrap();
    let s2 = db.create_story(Story::new("two".to_string(), "".to_string()), epic_id).unwrap();
    let s3 = db.create_story(Story::new("three".to_string(), "".to_string()), epic_id).unwrap();
    db.delete_story(epic_id, s2).unwrap();

    let content = EpicDetail { epic_id }.render(&snapshot(&db)).unwrap();
    assert_eq!(content.epic_id, epic_id);
    assert_eq!(content.name, "e");
    assert_eq!(content.description, "d");
    assert_eq!(content.status, Status::Open);
    assert_eq!(content.stories.len(), 2);
    assert_eq!(content.stories[0], (s1, "one".to_string(), Status::Open));
    assert_eq!(content.stories[1], (s3, "three".to_string(), Status::Open));
}

#[test]
fn story_render_shows_the_story() {
    let mut db = fresh_db();
    let epic_id = db.create_epic(Epic::new("e".to_string(), "".to_string())).unwrap();
    let story_id =
        db.create_story(Story::new("n".to_string(), "desc".to_string()), epic_id).unwrap();

    let content = StoryDetail { epic_id, story_id }.render(&snapshot(&db)).unwrap();
    assert_eq!(content, (story_id, "n".to_string(), "desc".to_string(), Status::Open));
}
