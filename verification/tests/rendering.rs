//! The renderer: block contents, child order, and determinism.

use notegraph::note::{Note, NoteContent};
use notegraph::render::{hue, render, render_single};
use notegraph::site::build_site;
use notegraph::ts::Timestamp;

fn ts(secs: i64) -> Timestamp {
    Timestamp { secs, nanos: 0, offset_secs: 0 }
}

#[test]
fn render_single_carries_the_note() {
    let note = Note {
        id: 12,
        alternative: Some(String::from("alias12")),
        create_at: ts(1704067200),
        update_at: vec![ts(1704153600)],
        title: Some(String::from("The Title")),
        content: NoteContent::PlainText(vec![String::from("hello world")]),
    };
    let block = render_single(&note, true, "https://example.test");
    assert!(block.starts_with("<div class=\"note current\" style=\"background: hsla("));
    assert!(block.contains("@12 (alias12)"));
    assert!(block.contains("<h1>The Title</h1>"));
    assert!(block.contains("<p>hello world</p>"));
    assert!(block.ends_with("</div>"));
    // The metadata line shows the creation time and the update time in
    // chrono's localized form.
    let created = chrono::DateTime::from_timestamp(1704067200, 0)
        .unwrap()
        .with_timezone(&chrono::FixedOffset::east_opt(0).unwrap())
        .format_localized("%c %z", chrono::Locale::zh_CN)
        .to_string();
    assert!(block.contains(&created));
}

#[test]
fn render_single_child_mode_and_image() {
    let note = Note {
        id: 2,
        alternative: None,
        create_at: ts(1704067200),
        update_at: vec![],
        title: None,
        content: NoteContent::Image(String::from("pics/dog.png")),
    };
    let block = render_single(&note, false, "https://example.test");
    assert!(block.starts_with("<div class=\"note child\""));
    assert!(block.contains("<img src=\"https://example.test/pics/dog.png\">"));
}

#[test]
fn render_single_shows_latest_update() {
    let note = Note {
        id: 9,
        alternative: None,
        create_at: ts(1704067200),
        // The latest update is in the middle of the stored order.
        update_at: vec![ts(1704153600), ts(1704326400), ts(1704240000)],
        title: None,
        content: NoteContent::PlainText(vec![]),
    };
    let block = render_single(&note, true, "");
    let latest = chrono::DateTime::from_timestamp(1704326400, 0)
        .unwrap()
        .with_timezone(&chrono::FixedOffset::east_opt(0).unwrap())
        .format_localized("%c %z", chrono::Locale::zh_CN)
        .to_string();
    assert!(block.contains(&latest));
}

#[test]
fn hue_is_deterministic_and_in_range() {
    assert_eq!(hue(1), hue(1));
    for id in 0..100u32 {
        assert!(hue(id) < 360);
    }
    // Not constant.
    assert!((0..100u32).map(hue).collect::<std::collections::BTreeSet<_>>().len() > 1);
}

#[test]
fn render_lists_children_by_creation_time() {
    // Children created at T1 < T3 < T2, inserted in the order T1, T3, T2;
    // the blocks must come out in the order T1, T2, T3 — ids 2, 4, 3.
    let records = vec![
        String::from("id\n1\ncreate\n2024-01-01T00:00:00+00:00\n"),
        String::from("id\n2\ncreate\n2024-01-02T00:00:00+00:00\nparent\n1\n"),
        String::from("id\n3\ncreate\n2024-01-04T00:00:00+00:00\nparent\n1\n"),
        String::from("id\n4\ncreate\n2024-01-03T00:00:00+00:00\nparent\n1\n"),
    ];
    let site = build_site(&records).expect("must build");
    let page = render(&site, 1, "https://example.test");
    let p1 = page.find("@1</small>").expect("own block");
    let p2 = page.find("@2</small>").expect("child 2");
    let p4 = page.find("@4</small>").expect("child 4");
    let p3 = page.find("@3</small>").expect("child 3");
    assert!(p1 < p2);
    assert!(p2 < p4);
    assert!(p4 < p3);
}

#[test]
fn render_links_children_by_alias_or_id() {
    let records = vec![
        String::from("id\n1\ncreate\n2024-01-01T00:00:00+00:00\n"),
        String::from("id\n2\ncreate\n2024-01-02T00:00:00+00:00\nparent\n1\nalternative\nkid\n"),
        String::from("id\n3\ncreate\n2024-01-03T00:00:00+00:00\nparent\n1\n"),
    ];
    let site = build_site(&records).expect("must build");
    let page = render(&site, 1, "https://example.test");
    assert!(page.contains("<a href=https://example.test/kid "));
    assert!(page.contains("<a href=https://example.test/3 "));
}

#[test]
fn render_two_note_example() {
    let records = vec![
        String::from("id\n1\ncreate\n2024-01-01T00:00:00+00:00\ntitle\nRoot\n"),
        String::from("id\n2\ncreate\n2024-01-02T00:00:00+00:00\nparent\n1\n"),
    ];
    let site = build_site(&records).expect("must build");
    let page = render(&site, 1, "");
    let own = page.find("<div class=\"note current\"").expect("own block");
    let child = page.find("<div class=\"note child\"").expect("child block");
    assert!(own < child);
    assert!(page.contains("<h1>Root</h1>"));
    assert!(page.contains("@2</small>"));
}

#[test]
fn render_is_repeatable_within_a_run() {
    let records = vec![
        String::from("id\n1\ncreate\n2024-01-01T00:00:00+00:00\n"),
        String::from("id\n2\ncreate\n2024-01-02T00:00:00+00:00\nparent\n1\n"),
    ];
    let site = build_site(&records).expect("must build");
    assert_eq!(render(&site, 1, "u"), render(&site, 1, "u"));
}
