use jiraffe::codec::decode_state;
use jiraffe::codec::encode_state;
use jiraffe::database::JiraDatabase;
use jiraffe::idmap::IdMap;
use jiraffe::models::DBState;
use jiraffe::models::DbError;
use jiraffe::models::Epic;
use jiraffe::models::ItemKind;
use jiraffe::models::Status;
use jiraffe::models::Story;
use jiraffe::store::MemoryStore;

fn fresh_db() -> JiraDatabase<MemoryStore> {
    JiraDatabase::new(MemoryStore::new())
}

#[test]
fn create_epic_should_pass() {
    let mut db = fresh_db();
    let epic = Epic::new("".to_string(), "".to_string());

    let result = db.create_epic(epic.clone());
    assert!(result.is_ok());

    let id = result.unwrap();
    let db_state = db.read().unwrap();
    let expected_id = 1;

    assert_eq!(id, expected_id);
    assert_eq!(db_state.last_item_id, expected_id);
    assert_eq!(db_state.epics.get(&id), Some(&epic));
}

#[test]
fn create_story_should_fail_if_invalid_epic_id() {
    let mut db = fresh_db();
    let story = Story::new("".to_string(), "".to_string());
    let non_existent_epic_id = 999;

    let result = db.create_story(story, non_existent_epic_id);
    assert!(result.is_err());
    // the scenario pinned exactly: a fresh store refuses epic id 999
    assert_eq!(result, Err(DbError::NotFound(ItemKind::Epic, 999)));
}

#[test]
fn create_story_should_pass() {
    let mut db = fresh_db();
    let epic = Epic::new("".to_string(), "".to_string());
    let story = Story::new("".to_string(), "".to_string());

    let result = db.create_epic(epic);
    assert!(result.is_ok());

    let epic_id = result.unwrap();
    let result = db.create_story(story.clone(), epic_id);
    assert!(result.is_ok());

    let id = result.unwrap();
    let db_state = db.read().unwrap();
    let expected_id = 2;

    assert_eq!(id, expected_id);
    assert_eq!(db_state.last_item_id, expected_id);
    assert!(db_state.epics.get(&epic_id).unwrap().stories.contains(&id));
    assert_eq!(db_state.stories.get(&id), Some(&story));
}

#[test]
fn delete_epic_should_fail_if_invalid_epic_id() {
    let mut db = fresh_db();
    let non_existent_epic_id = 999;

    let result = db.delete_epic(non_existent_epic_id);
    assert!(result.is_err());
}

#[test]
fn delete_epic_should_pass() {
    let mut db = fresh_db();
    let epic = Epic::new("".to_string(), "".to_string());
    let story = Story::new("".to_string(), "".to_string());

    let result = db.create_epic(epic);
    assert!(result.is_ok());

    let epic_id = result.unwrap();
    let result = db.create_story(story, epic_id);
    assert!(result.is_ok());

    let story_id = result.unwrap();
    let result = db.delete_epic(epic_id);
    assert!(result.is_ok());

    let db_state = db.read().unwrap();
    let expected_last_id = 2;
    assert_eq!(db_state.last_item_id, expected_last_id);
    assert_eq!(db_state.epics.get(&epic_id), None);
    assert_eq!(db_state.stories.get(&story_id), None);
}

#[test]
fn delete_story_should_fail_if_invalid_epic_id() {
    let mut db = fresh_db();
    let epic = Epic::new("".to_string(), "".to_string());
    let story = Story::new("".to_string(), "".to_string());

    let result = db.create_epic(epic);
    assert!(result.is_ok());

    let epic_id = result.unwrap();
    let result = db.create_story(story, epic_id);
    assert!(result.is_ok());

    let story_id = result.unwrap();
    let non_existent_epic_id = 999;
    let result = db.delete_story(non_existent_epic_id, story_id);
    assert!(result.is_err());
}

#[test]
fn delete_story_should_fail_if_story_not_found_in_epic() {
    let mut db = fresh_db();
    let epic = Epic::new("".to_string(), "".to_string());
    let story = Story::new("".to_string(), "".to_string());

    let result = db.create_epic(epic);
    assert!(result.is_ok());

    let epic_id = result.unwrap();
    let result = db.create_story(story, epic_id);
    assert!(result.is_ok());

    let non_existent_story_id = 999;
    let result = db.delete_story(epic_id, non_existent_story_id);
    assert!(result.is_err());
}

#[test]
fn delete_story_should_pass() {
    let mut db = fresh_db();
    let epic = Epic::new("".to_string(), "".to_string());
    let story = Story::new("".to_string(), "".to_string());

    let result = db.create_epic(epic);
    assert!(result.is_ok());

    let epic_id = result.unwrap();
    let result = db.create_story(story, epic_id);
    assert!(result.is_ok());

    let story_id = result.unwrap();
    let result = db.delete_story(epic_id, story_id);
    assert!(result.is_ok());

    let db_state = db.read().unwrap();
    let expected_last_id = 2;
    assert_eq!(db_state.last_item_id, expected_last_id);
    assert!(!db_state.epics.get(&epic_id).unwrap().stories.contains(&story_id));
    assert_eq!(db_state.stories.get(&story_id), None);
}

#[test]
fn update_epic_status_should_fail_if_invalid_epic_id() {
    let mut db = fresh_db();
    let non_existent_epic_id = 999;

    let result = db.update_epic_status(non_existent_epic_id, Status::Closed);
    assert!(result.is_err());
}

#[test]
fn update_epic_status_should_pass() {
    let mut db = fresh_db();
    let epic = Epic::new("".to_string(), "".to_string());

    let result = db.create_epic(epic);
    assert!(result.is_ok());

    let epic_id = result.unwrap();

    let result = db.update_epic_status(epic_id, Status::Closed);

    assert!(result.is_ok());

    let db_state = db.read().unwrap();

    assert_eq!(db_state.epics.get(&epic_id).unwrap().status, Status::Closed);
}

#[test]
fn update_story_status_should_fail_if_invalid_story_id() {
    let mut db = fresh_db();

    let non_existent_story_id = 999;

    let result = db.update_story_status(non_existent_story_id, Status::Closed);
    assert!(result.is_err());
}

#[test]
fn update_story_status_should_pass() {
    let mut db = fresh_db();
    let epic = Epic::new("".to_string(), "".to_string());
    let story = Story::new("".to_string(), "".to_string());

    let result = db.create_epic(epic);
    let epic_id = result.unwrap();

    let result = db.create_story(story, epic_id);
    let story_id = result.unwrap();

    let result = db.update_story_status(story_id, Status::Closed);
    assert!(result.is_ok());

    let db_state = db.read().unwrap();
    assert_eq!(db_state.stories.get(&story_id).unwrap().status, Status::Closed);
}

#[test]
fn read_from_db_should_fail_with_invalid_json() {
    let file_contents = r#"{ "last_item_id": 0 epics: {} stories {} }"#;

    let result = decode_state(file_contents);

    assert!(result.is_err());
    assert_eq!(result, Err(DbError::Corrupt));
}

#[test]
fn read_from_db_should_parse_json_file() {
    let file_contents = r#"{ "last_item_id": 0, "epics": {}, "stories": {} }"#;

    let result = decode_state(file_contents);
    assert!(result.is_ok());
}

#[test]
fn write_to_db_should_pass() {
    let story = Story {
        name: "epic 1".to_string(),
        description: "epic 1".to_string(),
        status: Status::Open,
    };
    let epic = Epic {
        name: "epic 1".to_string(),
        description: "epic 1".to_string(),
        status: Status::Open,
        stories: vec![2],
    };

    let stories = IdMap { entries: vec![(2, story)] };
    let epics = IdMap { entries: vec![(1, epic)] };

    let state = DBState { last_item_id: 2, epics, stories };

    let text = encode_state(&state);
    let read_result = decode_state(&text).unwrap();

    assert_eq!(read_result, state);
}

#[test]
fn fresh_store_issues_increasing_ids() {
    // fresh store: the first epic gets id 1, the first story id 2, and the
    // epic's story list holds exactly that story
    let mut db = fresh_db();
    let epic_id = db.create_epic(Epic::new("E".to_string(), "".to_string())).unwrap();
    assert_eq!(epic_id, 1);
    assert_eq!(db.read().unwrap().last_item_id, 1);

    let story_id = db.create_story(Story::new("S".to_string(), "".to_string()), 1).unwrap();
    assert_eq!(story_id, 2);
    let db_state = db.read().unwrap();
    assert_eq!(db_state.last_item_id, 2);
    assert_eq!(db_state.epics.get(&1).unwrap().stories, vec![2]);
}

#[test]
fn ids_are_not_reused_after_delete() {
    let mut db = fresh_db();
    let e1 = db.create_epic(Epic::new("a".to_string(), "".to_string())).unwrap();
    let e2 = db.create_epic(Epic::new("b".to_string(), "".to_string())).unwrap();
    db.delete_epic(e2).unwrap();
    let e3 = db.create_epic(Epic::new("c".to_string(), "".to_string())).unwrap();
    assert!(e1 < e2 && e2 < e3);
}

#[test]
fn update_changes_only_the_status_field() {
    let mut db = fresh_db();
    let e1 = db.create_epic(Epic::new("one".to_string(), "first".to_string())).unwrap();
    let e2 = db.create_epic(Epic::new("two".to_string(), "second".to_string())).unwrap();
    db.update_epic_status(e1, Status::Resolved).unwrap();

    let db_state = db.read().unwrap();
    let one = db_state.epics.get(&e1).unwrap();
    assert_eq!(one.name, "one");
    assert_eq!(one.description, "first");
    assert_eq!(one.status, Status::Resolved);
    let two = db_state.epics.get(&e2).unwrap();
    assert_eq!(two.status, Status::Open);
}

#[test]
fn failed_operations_leave_the_document_unchanged() {
    let mut db = fresh_db();
    db.create_epic(Epic::new("a".to_string(), "".to_string())).unwrap();
    let before = db.read().unwrap();

    assert!(db.create_story(Story::new("s".to_string(), "".to_string()), 999).is_err());
    assert!(db.delete_epic(999).is_err());
    assert!(db.delete_story(999, 1).is_err());
    assert!(db.update_epic_status(999, Status::Closed).is_err());
    assert!(db.update_story_status(999, Status::Closed).is_err());

    assert_eq!(db.read().unwrap(), before);
}

#[test]
fn delete_story_error_names_the_missing_entity() {
    let mut db = fresh_db();
    let epic_id = db.create_epic(Epic::new("".to_string(), "".to_string())).unwrap();
    assert_eq!(db.delete_story(7, 1), Err(DbError::NotFound(ItemKind::Epic, 7)));
    assert_eq!(db.delete_story(epic_id, 5), Err(DbError::NotFound(ItemKind::Story, 5)));
}
