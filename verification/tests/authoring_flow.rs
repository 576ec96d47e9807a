//! The authoring flows: creating a note and updating one, and the
//! append-only update history.

use notegraph::authoring::{new_note, update_note, CreateError};
use notegraph::codec::decode;
use notegraph::note::NoteContent;
use notegraph::site::{build_site, FindError};
use notegraph::ts::Timestamp;

fn ts(secs: i64) -> Timestamp {
    Timestamp { secs, nanos: 0, offset_secs: 0 }
}

fn base_records() -> Vec<String> {
    vec![
        String::from("id\n1\ncreate\n2024-01-01T00:00:00+00:00\nalternative\nroot\n"),
        String::from("id\n3\ncreate\n2024-01-02T00:00:00+00:00\n"),
    ]
}

#[test]
fn new_note_assigns_next_id() {
    let site = build_site(&base_records()).expect("must build");
    let (id, text) = new_note(&site, None, ts(1704240000)).expect("must create");
    assert_eq!(id, 4);
    let cn = decode(&text).expect("the new record must decode");
    assert_eq!(cn.note.id, 4);
    assert_eq!(cn.note.create_at, ts(1704240000));
    assert_eq!(cn.note.alternative, None);
    assert_eq!(cn.note.title, None);
    assert_eq!(cn.note.update_at, vec![]);
    assert_eq!(cn.note.content, NoteContent::PlainText(vec![]));
    assert_eq!(cn.parent_id, None);
    assert_eq!(cn.previous_ids, vec![]);
    assert!(!cn.top_level);
}

#[test]
fn new_note_on_empty_site_starts_at_one() {
    let site = build_site(&vec![]).expect("must build");
    let (id, _) = new_note(&site, None, ts(1704240000)).expect("must create");
    assert_eq!(id, 1);
}

#[test]
fn new_note_resolves_parent_key() {
    let site = build_site(&base_records()).expect("must build");
    let (_, text) = new_note(&site, Some("root"), ts(1704240000)).expect("must create");
    let cn = decode(&text).expect("must decode");
    assert_eq!(cn.parent_id, Some(1));
    let (_, text) = new_note(&site, Some("@3"), ts(1704240000)).expect("must create");
    let cn = decode(&text).expect("must decode");
    assert_eq!(cn.parent_id, Some(3));
}

#[test]
fn new_note_reports_missing_parent() {
    let site = build_site(&base_records()).expect("must build");
    assert_eq!(
        new_note(&site, Some("nothere"), ts(1704240000)),
        Err(CreateError::Find(FindError::NotFound))
    );
    assert_eq!(
        new_note(&site, Some("@zero"), ts(1704240000)),
        Err(CreateError::Find(FindError::BadId))
    );
}

#[test]
fn new_note_reports_exhausted_id_space() {
    let records = vec![String::from("id\n4294967295\ncreate\n2024-01-01T00:00:00+00:00\n")];
    let site = build_site(&records).expect("must build");
    assert_eq!(new_note(&site, None, ts(1704240000)), Err(CreateError::TooManyNotes));
}

#[test]
fn update_note_appends_timestamp_and_keeps_relations() {
    let records = vec![
        String::from("id\n1\ncreate\n2024-01-01T00:00:00+00:00\n"),
        String::from("id\n2\ncreate\n2024-01-02T00:00:00+00:00\nparent\n1\nprevious\n1\n"),
    ];
    let site = build_site(&records).expect("must build");
    let (id, text) = update_note(&site, "@2", ts(1704240000)).expect("must update");
    assert_eq!(id, 2);
    let cn = decode(&text).expect("the rewritten record must decode");
    assert_eq!(cn.note.id, 2);
    assert_eq!(cn.note.update_at, vec![ts(1704240000)]);
    assert_eq!(cn.parent_id, Some(1));
    assert_eq!(cn.previous_ids, vec![1]);
}

#[test]
fn update_note_unknown_key_fails() {
    let site = build_site(&base_records()).expect("must build");
    assert_eq!(update_note(&site, "ghost", ts(1704240000)), Err(FindError::NotFound));
    assert_eq!(update_note(&site, "@x", ts(1704240000)), Err(FindError::BadId));
}

#[test]
fn update_twice_appends_two_entries_in_call_order() {
    let create_secs = 1704067200;
    let records = vec![format!("id\n1\ncreate\n2024-01-01T00:00:00+00:00\n")];
    let site = build_site(&records).expect("must build");
    let t1 = ts(create_secs + 100);
    let (_, text1) = update_note(&site, "@1", t1).expect("first update");
    // The rewritten record is stored and the graph rebuilt from it.
    let site = build_site(&vec![text1]).expect("must rebuild");
    let t2 = ts(create_secs + 200);
    let (_, text2) = update_note(&site, "@1", t2).expect("second update");
    let cn = decode(&text2).expect("must decode");
    assert_eq!(cn.note.update_at, vec![t1, t2]);
    assert_ne!(cn.note.update_at[0], cn.note.update_at[1]);
    let create = cn.note.create_at;
    assert!(create.le_exec(&cn.note.update_at[0]));
    assert!(create.le_exec(&cn.note.update_at[1]));
}
