//! The index builder: decoding a set of records into a graph, referential
//! integrity, duplicate detection, and build determinism.

use notegraph::codec::FormatError;
use notegraph::site::{build_site, IndexError};
use petgraph::visit::EdgeRef;

fn record(header: &str) -> String {
    String::from(header)
}

fn edge_set(site: &notegraph::site::Site) -> Vec<(u32, u32, bool)> {
    let mut edges: Vec<(u32, u32, bool)> = site
        .notes
        .edge_references()
        .map(|e| {
            (
                site.notes[e.source()].id,
                site.notes[e.target()].id,
                matches!(e.weight(), notegraph::graph::Connection::Own),
            )
        })
        .collect();
    edges.sort();
    edges
}

#[test]
fn build_empty_is_ok() {
    let site = build_site(&vec![]).expect("no records is an empty graph, not an error");
    assert_eq!(site.notes.node_count(), 0);
    assert_eq!(site.notes.edge_count(), 0);
}

#[test]
fn build_two_records_end_to_end() {
    let records = vec![
        record("id\n1\ncreate\n2024-01-01T00:00:00+00:00\ntitle\nRoot\n"),
        record("id\n2\ncreate\n2024-01-02T00:00:00+00:00\nparent\n1\n"),
    ];
    let site = build_site(&records).expect("build must succeed");
    assert_eq!(site.notes.node_count(), 2);
    assert_eq!(site.notes.edge_count(), 1);
    assert_eq!(edge_set(&site), vec![(1, 2, true)]);
    let found = site.find("@2").expect("note 2 must resolve");
    assert_eq!(found.id, 2);
}

#[test]
fn build_resolves_forward_references() {
    // The child is listed before its parent; node insertion precedes edges.
    let records = vec![
        record("id\n2\ncreate\n2024-01-02T00:00:00+00:00\nparent\n1\n"),
        record("id\n1\ncreate\n2024-01-01T00:00:00+00:00\n"),
    ];
    let site = build_site(&records).expect("forward reference must resolve");
    assert_eq!(edge_set(&site), vec![(1, 2, true)]);
}

#[test]
fn build_cause_edges_from_previous() {
    let records = vec![
        record("id\n1\ncreate\n2024-01-01T00:00:00+00:00\n"),
        record("id\n2\ncreate\n2024-01-02T00:00:00+00:00\n"),
        record("id\n3\ncreate\n2024-01-03T00:00:00+00:00\nprevious\n1\nprevious\n2\n"),
    ];
    let site = build_site(&records).expect("build must succeed");
    assert_eq!(edge_set(&site), vec![(1, 3, false), (2, 3, false)]);
}

#[test]
fn build_fails_on_dangling_parent() {
    let records = vec![record("id\n1\ncreate\n2024-01-01T00:00:00+00:00\nparent\n7\n")];
    match build_site(&records) {
        Err(e) => assert_eq!(e, IndexError::UnknownId(7)),
        Ok(_) => panic!("a dangling parent must fail the build"),
    }
}

#[test]
fn build_fails_on_dangling_previous() {
    let records = vec![
        record("id\n1\ncreate\n2024-01-01T00:00:00+00:00\n"),
        record("id\n2\ncreate\n2024-01-02T00:00:00+00:00\nprevious\n9\n"),
    ];
    match build_site(&records) {
        Err(e) => assert_eq!(e, IndexError::UnknownId(9)),
        Ok(_) => panic!("a dangling previous must fail the build"),
    }
}

#[test]
fn build_fails_on_duplicate_id() {
    let records = vec![
        record("id\n1\ncreate\n2024-01-01T00:00:00+00:00\n"),
        record("id\n1\ncreate\n2024-01-02T00:00:00+00:00\n"),
    ];
    match build_site(&records) {
        Err(e) => assert_eq!(e, IndexError::DuplicateId(1)),
        Ok(_) => panic!("a duplicate id must fail the build"),
    }
}

#[test]
fn build_fails_fast_on_first_malformed_record() {
    let records = vec![
        record("id\n1\ncreate\n2024-01-01T00:00:00+00:00\n"),
        record("garbage\n"),
        record("id\nalso garbage\n"),
    ];
    match build_site(&records) {
        Err(e) => assert_eq!(e, IndexError::Format(FormatError::UnknownKey)),
        Ok(_) => panic!("a malformed record must fail the build"),
    }
}

#[test]
fn build_is_deterministic_over_record_order() {
    let a = record("id\n1\ncreate\n2024-01-01T00:00:00+00:00\n");
    let b = record("id\n2\ncreate\n2024-01-02T00:00:00+00:00\nparent\n1\nprevious\n3\n");
    let c = record("id\n3\ncreate\n2024-01-03T00:00:00+00:00\nparent\n1\n");
    let one = build_site(&vec![a.clone(), b.clone(), c.clone()]).expect("must build");
    let two = build_site(&vec![c, a, b]).expect("must build");
    assert_eq!(edge_set(&one), edge_set(&two));
}

#[test]
fn build_records_top_level_flags() {
    let records = vec![
        record("top level\nid\n1\ncreate\n2024-01-01T00:00:00+00:00\n"),
        record("id\n2\ncreate\n2024-01-02T00:00:00+00:00\n"),
    ];
    let site = build_site(&records).expect("must build");
    assert_eq!(site.top_levels, vec![1]);
    let cn = site.make_connected(1);
    assert!(cn.top_level);
    let cn2 = site.make_connected(2);
    assert!(!cn2.top_level);
}

#[test]
fn rebuild_from_rewritten_records_preserves_graph() {
    let records = vec![
        record("top level\nid\n1\ncreate\n2024-01-01T00:00:00+00:00\nalternative\nhome\n"),
        record("id\n2\ncreate\n2024-01-02T00:00:00+00:00\nparent\n1\n\nsome text\n"),
        record("id\n3\ncreate\n2024-01-03T00:00:00+00:00\nparent\n1\nprevious\n2\n"),
    ];
    let site = build_site(&records).expect("must build");
    // Rewrite every record from the graph, as the update flow does, and
    // build again: the edges are the single source of truth.
    let rewritten: Vec<String> = site
        .notes
        .node_weights()
        .map(|note| notegraph::codec::encode(&site.make_connected(note.id)))
        .collect();
    let again = build_site(&rewritten).expect("rewritten records must build");
    assert_eq!(again.notes.node_count(), site.notes.node_count());
    assert_eq!(edge_set(&again), edge_set(&site));
    assert_eq!(again.top_levels, site.top_levels);
}

#[test]
fn make_connected_derives_relations_from_edges() {
    let records = vec![
        record("id\n1\ncreate\n2024-01-01T00:00:00+00:00\n"),
        record("id\n2\ncreate\n2024-01-02T00:00:00+00:00\n"),
        record("id\n3\ncreate\n2024-01-03T00:00:00+00:00\nparent\n1\nprevious\n2\nprevious\n1\n"),
    ];
    let site = build_site(&records).expect("must build");
    let cn = site.make_connected(3);
    assert_eq!(cn.note.id, 3);
    assert_eq!(cn.parent_id, Some(1));
    assert_eq!(cn.previous_ids, vec![2, 1]);
    assert!(!cn.top_level);
}
