use jiraffe::codec::decode_state;
use jiraffe::codec::encode_state;
use jiraffe::idmap::IdMap;
use jiraffe::models::DBState;
use jiraffe::models::DbError;
use jiraffe::models::Epic;
use jiraffe::models::Status;
use jiraffe::models::Story;

fn sample_state() -> DBState {
    let story = Story {
        name: "story one".to_string(),
        description: "work".to_string(),
        status: Status::InProgress,
    };
    let epic = Epic {
        name: "epic one".to_string(),
        description: "plan".to_string(),
        status: Status::Resolved,
        stories: vec![2],
    };
    DBState {
        last_item_id: 2,
        epics: IdMap { entries: vec![(1, epic)] },
        stories: IdMap { entries: vec![(2, story)] },
    }
}

#[test]
fn encode_produces_the_exact_canonical_text() {
    let state = sample_state();
    let expected = "{\"last_item_id\":2,\"epics\":{\"1\":{\"name\":\"epic one\",\
                    \"description\":\"plan\",\"status\":\"Resolved\",\"stories\":[2]}},\
                    \"stories\":{\"2\":{\"name\":\"story one\",\"description\":\"work\",\
                    \"status\":\"InProgress\"}}}";
    assert_eq!(encode_state(&state), expected);
}

#[test]
fn decode_accepts_whitespace_between_tokens() {
    let text = "{ \"last_item_id\" : 2 ,\n \"epics\" : { \"1\" : {\"name\":\"e\",\
               \"description\":\"d\",\"status\":\"Open\",\"stories\":[ 2 , 3 ]} } ,\
               \t\"stories\" : { } }";
    let state = decode_state(text).unwrap();
    assert_eq!(state.last_item_id, 2);
    assert_eq!(state.epics.get(&1).unwrap().stories, vec![2, 3]);
}

#[test]
fn decode_orders_map_keys() {
    let text = "{\"last_item_id\":3,\"epics\":{\
               \"2\":{\"name\":\"b\",\"description\":\"\",\"status\":\"Open\",\"stories\":[]},\
               \"1\":{\"name\":\"a\",\"description\":\"\",\"status\":\"Open\",\"stories\":[]}},\
               \"stories\":{}}";
    let state = decode_state(text).unwrap();
    assert_eq!(state.epics.entries[0].0, 1);
    assert_eq!(state.epics.entries[0].1.name, "a");
    assert_eq!(state.epics.entries[1].0, 2);
    assert_eq!(state.epics.entries[1].1.name, "b");
}

#[test]
fn decode_reads_escapes() {
    let text = "{\"last_item_id\":1,\"epics\":{\"1\":{\
               \"name\":\"a\\\"b\\\\c\\/d\\n\\t\\u0041\",\
               \"description\":\"\\u00e9\",\"status\":\"Closed\",\"stories\":[]}},\
               \"stories\":{}}";
    let state = decode_state(text).unwrap();
    let epic = state.epics.get(&1).unwrap();
    assert_eq!(epic.name, "a\"b\\c/d\n\tA");
    assert_eq!(epic.description, "\u{e9}");
    assert_eq!(epic.status, Status::Closed);
}

#[test]
fn escaped_text_survives_a_round_trip() {
    let story = Story {
        name: "quote \" backslash \\ newline \n tab \t bell \u{7}".to_string(),
        description: "caf\u{e9} ☃".to_string(),
        status: Status::Closed,
    };
    let epic = Epic {
        name: "épic".to_string(),
        description: "a\rb\u{c}c\u{8}d".to_string(),
        status: Status::Open,
        stories: vec![2, 2, 7],
    };
    let state = DBState {
        last_item_id: 9,
        epics: IdMap { entries: vec![(1, epic)] },
        stories: IdMap { entries: vec![(2, story)] },
    };
    let text = encode_state(&state);
    assert_eq!(decode_state(&text).unwrap(), state);
}

#[test]
fn decode_rejects_malformed_documents() {
    // missing fields, wrong tags, bad numbers, trailing content
    let bad = [
        "",
        "{}",
        "{\"last_item_id\":0}",
        "{\"last_item_id\":0,\"epics\":{}}",
        "{\"last_item_id\":-1,\"epics\":{},\"stories\":{}}",
        "{\"last_item_id\":01,\"epics\":{},\"stories\":{}}",
        "{\"last_item_id\":4294967296,\"epics\":{},\"stories\":{}}",
        "{\"last_item_id\":0,\"epics\":{},\"stories\":{}}x",
        "{\"last_item_id\":0,\"epics\":{},\"stories\":{}",
        "{\"last_item_id\":0,\"epics\":{\"a\":{}},\"stories\":{}}",
        "{\"last_item_id\":0,\"epics\":{},\"stories\":{\"1\":{\"name\":\"n\",\
         \"description\":\"d\",\"status\":\"open\"}}}",
    ];
    for text in bad {
        assert_eq!(decode_state(text), Err(DbError::Corrupt), "{}", text);
    }
}

#[test]
fn empty_document_round_trips() {
    let state = DBState {
        last_item_id: 0,
        epics: IdMap { entries: vec![] },
        stories: IdMap { entries: vec![] },
    };
    let text = encode_state(&state);
    assert_eq!(text, "{\"last_item_id\":0,\"epics\":{},\"stories\":{}}");
    assert_eq!(decode_state(&text).unwrap(), state);
}

#[test]
fn all_statuses_round_trip() {
    let mut entries = Vec::new();
    let statuses = [Status::Open, Status::InProgress, Status::Resolved, Status::Closed];
    for (i, st) in statuses.iter().enumerate() {
        entries.push((
            (i + 1) as u32,
            Story { name: "s".to_string(), description: "".to_string(), status: *st },
        ));
    }
    let state = DBState {
        last_item_id: 4,
        epics: IdMap { entries: vec![] },
        stories: IdMap { entries },
    };
    let decoded = decode_state(&encode_state(&state)).unwrap();
    assert_eq!(decoded, state);
}
