//! The resolver: lookup by id, lookup by alias, and the two failure kinds.

use notegraph::site::{build_site, FindError};

fn records() -> Vec<String> {
    vec![
        String::from("id\n5\ncreate\n2024-01-01T00:00:00+00:00\nalternative\nmyalias\n"),
        String::from("id\n6\ncreate\n2024-01-02T00:00:00+00:00\nalternative\nother\n"),
        String::from("id\n7\ncreate\n2024-01-03T00:00:00+00:00\n"),
    ]
}

#[test]
fn find_by_id() {
    let site = build_site(&records()).expect("must build");
    let note = site.find("@5").expect("id 5 must resolve");
    assert_eq!(note.id, 5);
    let note = site.find("@7").expect("id 7 must resolve");
    assert_eq!(note.id, 7);
}

#[test]
fn find_by_alias_exact_match_only() {
    let site = build_site(&records()).expect("must build");
    let note = site.find("myalias").expect("alias must resolve");
    assert_eq!(note.id, 5);
    // No prefix or substring matching.
    assert_eq!(site.find("myali"), Err(FindError::NotFound));
    assert_eq!(site.find("yalias"), Err(FindError::NotFound));
}

#[test]
fn find_bad_id_is_distinct_from_not_found() {
    let site = build_site(&records()).expect("must build");
    assert_eq!(site.find("@notanumber"), Err(FindError::BadId));
    assert_eq!(site.find("missing-alias"), Err(FindError::NotFound));
    assert_ne!(site.find("@notanumber"), site.find("missing-alias"));
}

#[test]
fn find_missing_id_is_not_found() {
    let site = build_site(&records()).expect("must build");
    assert_eq!(site.find("@99"), Err(FindError::NotFound));
}

#[test]
fn find_duplicate_alias_first_match_wins() {
    let records = vec![
        String::from("id\n1\ncreate\n2024-01-01T00:00:00+00:00\nalternative\ntwin\n"),
        String::from("id\n2\ncreate\n2024-01-02T00:00:00+00:00\nalternative\ntwin\n"),
    ];
    let site = build_site(&records).expect("must build");
    let note = site.find("twin").expect("alias must resolve");
    assert_eq!(note.id, 1);
}

#[test]
fn find_empty_key_is_not_found() {
    let site = build_site(&records()).expect("must build");
    assert_eq!(site.find(""), Err(FindError::NotFound));
}
