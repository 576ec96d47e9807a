//! The record codec: decoding, encoding, and the round trip.

use notegraph::codec::{decode, encode, FormatError};
use notegraph::note::{ConnectedNote, Note, NoteContent};
use notegraph::ts::Timestamp;

fn ts(secs: i64) -> Timestamp {
    Timestamp { secs, nanos: 0, offset_secs: 0 }
}

fn plain_note(id: u32, secs: i64) -> Note {
    Note {
        id,
        alternative: None,
        create_at: ts(secs),
        update_at: vec![],
        title: None,
        content: NoteContent::PlainText(vec![]),
    }
}

fn connected(note: Note) -> ConnectedNote {
    ConnectedNote { note, parent_id: None, previous_ids: vec![], top_level: false }
}

#[test]
fn encode_minimal_record_text() {
    let mut cn = connected(plain_note(1, 1704067200));
    cn.note.title = Some(String::from("Root"));
    let text = encode(&cn);
    assert_eq!(text, "id\n1\ncreate\n2024-01-01T00:00:00+00:00\ntitle\nRoot\n");
}

#[test]
fn encode_full_record_text() {
    let note = Note {
        id: 7,
        alternative: Some(String::from("seven")),
        create_at: ts(1704067200),
        update_at: vec![ts(1704070800), ts(1704074400)],
        title: Some(String::from("A title")),
        content: NoteContent::PlainText(vec![
            String::from("first paragraph"),
            String::from("second paragraph"),
        ]),
    };
    let cn = ConnectedNote {
        note,
        parent_id: Some(1),
        previous_ids: vec![2, 3],
        top_level: true,
    };
    let text = encode(&cn);
    assert_eq!(
        text,
        "top level\nid\n7\nalternative\nseven\ncreate\n2024-01-01T00:00:00+00:00\n\
         update\n2024-01-01T01:00:00+00:00\nupdate\n2024-01-01T02:00:00+00:00\n\
         parent\n1\nprevious\n2\nprevious\n3\ntitle\nA title\n\
         \nfirst paragraph\n\nsecond paragraph\n"
    );
}

#[test]
fn round_trip_full_record() {
    let note = Note {
        id: 42,
        alternative: Some(String::from("answer")),
        create_at: Timestamp { secs: 1704105000, nanos: 500_000_000, offset_secs: 7200 },
        update_at: vec![ts(1704153600), ts(1704240000)],
        title: Some(String::from("Deep Thought")),
        content: NoteContent::PlainText(vec![
            String::from("para one"),
            String::from("para two"),
            String::from("para three"),
        ]),
    };
    let cn = ConnectedNote {
        note,
        parent_id: Some(6),
        previous_ids: vec![9, 8, 7],
        top_level: true,
    };
    let text = encode(&cn);
    let back = decode(&text).expect("round trip must decode");
    assert_eq!(back, cn);
}

#[test]
fn round_trip_image_record() {
    let note = Note {
        id: 3,
        alternative: None,
        create_at: ts(1704067200),
        update_at: vec![],
        title: None,
        content: NoteContent::Image(String::from("pictures/cat.png")),
    };
    let cn = connected(note);
    let text = encode(&cn);
    assert_eq!(text, "id\n3\ncreate\n2024-01-01T00:00:00+00:00\nimage\n\npictures/cat.png\n");
    let back = decode(&text).expect("image record must decode");
    assert_eq!(back, cn);
}

#[test]
fn round_trip_negative_offset() {
    let note = Note {
        id: 5,
        alternative: None,
        // 1996-12-19T16:39:57-08:00, the RFC 3339 example.
        create_at: Timestamp { secs: 851042397, nanos: 0, offset_secs: -28800 },
        update_at: vec![],
        title: None,
        content: NoteContent::PlainText(vec![]),
    };
    let cn = connected(note);
    let text = encode(&cn);
    assert!(text.contains("1996-12-19T16:39:57-08:00"));
    let back = decode(&text).expect("must decode");
    assert_eq!(back, cn);
}

#[test]
fn decode_reads_timestamp_fields() {
    let text = "id\n1\ncreate\n2024-01-01T12:30:00+02:00\n";
    let cn = decode(text).expect("must decode");
    assert_eq!(cn.note.create_at.secs, 1704105000);
    assert_eq!(cn.note.create_at.nanos, 0);
    assert_eq!(cn.note.create_at.offset_secs, 7200);
}

#[test]
fn decode_trims_and_skips_blank_body_lines() {
    let text = "id\n  1 \ncreate\n 2024-01-01T00:00:00+00:00\t\n\n  one  \n\n\n two \n";
    let cn = decode(text).expect("must decode");
    assert_eq!(cn.note.id, 1);
    match cn.note.content {
        NoteContent::PlainText(ps) => {
            assert_eq!(ps, vec![String::from("one"), String::from("two")]);
        },
        NoteContent::Image(_) => panic!("expected plain text"),
    }
}

#[test]
fn decode_top_level_marker() {
    let text = "top level\nid\n1\ncreate\n2024-01-01T00:00:00+00:00\n";
    let cn = decode(text).expect("must decode");
    assert!(cn.top_level);
}

#[test]
fn decode_unknown_key_fails() {
    let text = "id\n1\nbogus\nvalue\ncreate\n2024-01-01T00:00:00+00:00\n";
    assert_eq!(decode(text), Err(FormatError::UnknownKey));
}

#[test]
fn decode_missing_value_fails() {
    assert_eq!(decode("id\n"), Err(FormatError::MissingValue));
    assert_eq!(decode("id\n\nbody\n"), Err(FormatError::MissingValue));
}

#[test]
fn decode_bad_int_fails() {
    assert_eq!(
        decode("id\nnotanumber\ncreate\n2024-01-01T00:00:00+00:00\n"),
        Err(FormatError::BadInt)
    );
    // One past u32::MAX does not fit.
    assert_eq!(
        decode("id\n4294967296\ncreate\n2024-01-01T00:00:00+00:00\n"),
        Err(FormatError::BadInt)
    );
}

#[test]
fn decode_largest_id_fits() {
    let cn = decode("id\n4294967295\ncreate\n2024-01-01T00:00:00+00:00\n").expect("fits");
    assert_eq!(cn.note.id, u32::MAX);
}

#[test]
fn decode_bad_timestamp_fails() {
    assert_eq!(decode("id\n1\ncreate\nyesterday\n"), Err(FormatError::BadTimestamp));
    assert_eq!(
        decode("id\n1\ncreate\n2024-13-01T00:00:00+00:00\n"),
        Err(FormatError::BadTimestamp)
    );
}

#[test]
fn decode_missing_id_fails() {
    assert_eq!(decode("create\n2024-01-01T00:00:00+00:00\n"), Err(FormatError::MissingId));
}

#[test]
fn decode_missing_create_fails() {
    assert_eq!(decode("id\n1\n"), Err(FormatError::MissingCreate));
}

#[test]
fn decode_image_requires_exactly_one_path_line() {
    assert_eq!(
        decode("id\n1\ncreate\n2024-01-01T00:00:00+00:00\nimage\n\n"),
        Err(FormatError::MissingImagePath)
    );
    assert_eq!(
        decode("id\n1\ncreate\n2024-01-01T00:00:00+00:00\nimage\n\na.png\nb.png\n"),
        Err(FormatError::ExtraImageBody)
    );
}

#[test]
fn decode_repeated_single_key_last_wins() {
    let text = "id\n1\nid\n2\ncreate\n2024-01-01T00:00:00+00:00\n";
    let cn = decode(text).expect("must decode");
    assert_eq!(cn.note.id, 2);
}

#[test]
fn decode_collects_updates_and_previous_in_order() {
    let text = "id\n1\ncreate\n2024-01-01T00:00:00+00:00\n\
                update\n2024-01-03T00:00:00+00:00\nupdate\n2024-01-02T00:00:00+00:00\n\
                previous\n9\nprevious\n4\n";
    let cn = decode(text).expect("must decode");
    assert_eq!(cn.note.update_at.len(), 2);
    assert_eq!(cn.note.update_at[0].secs, 1704240000);
    assert_eq!(cn.note.update_at[1].secs, 1704153600);
    assert_eq!(cn.previous_ids, vec![9, 4]);
}

#[test]
fn timestamp_well_formedness() {
    assert!(ts(0).is_wf());
    assert!(ts(1704067200).is_wf());
    // A leap-second representation is not carried.
    assert!(!Timestamp { secs: 0, nanos: 1_500_000_000, offset_secs: 0 }.is_wf());
    // An offset that is not a whole minute is not carried.
    assert!(!Timestamp { secs: 0, nanos: 0, offset_secs: 30 }.is_wf());
    // A date outside the four-digit years is not carried.
    assert!(!Timestamp { secs: 253_402_300_800, nanos: 0, offset_secs: 0 }.is_wf());
}

#[test]
fn timestamp_order_ignores_offset() {
    let a = Timestamp { secs: 100, nanos: 0, offset_secs: 7200 };
    let b = Timestamp { secs: 100, nanos: 1, offset_secs: -7200 };
    assert!(a.le_exec(&b));
    assert!(!b.le_exec(&a));
    assert!(a.le_exec(&a));
}
