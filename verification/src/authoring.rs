//! The authoring flows: creating a note and updating one.  Both compute
//! the next state of a record as text; writing it to storage is the
//! caller's business, and the clock reading is handed in, so the functions
//! stay pure.

use vstd::prelude::*;

use crate::codec::{decode_text_spec, encode, encode_text_spec, FormatError};
use crate::note::{ConnectedNote, ConnectedNoteView, ContentView, Note, NoteContent, NoteView};
use crate::site::{FindError, Site};
use crate::ts::Timestamp;

verus! {

/// Why a note could not be created.
#[derive(Clone, Copy, Debug, PartialEq, Eq, Structural)]
pub enum CreateError {
    /// The parent key resolved to no note.
    Find(FindError),
    /// The id space is exhausted: the highest id is already the largest
    /// the id type holds.
    TooManyNotes,
}

/// The largest id among the notes, or zero where there are none.
pub open spec fn max_id(notes: Seq<Note>) -> u32
    decreases notes.len(),
{
    if notes.len() == 0 {
        0
    } else {
        let m = max_id(notes.drop_last());
        if notes.last().id > m {
            notes.last().id
        } else {
            m
        }
    }
}

/// Computes the largest id among the notes.
pub fn max_note_id(site: &Site) -> (r: u32)
    requires
        site.wf(),
    ensures
        r == max_id(site.nodes()),
{
    let n = crate::graph::graph_node_count(&site.notes);
    let mut m: u32 = 0;
    let mut i: usize = 0;
    proof {
        assert(site.nodes().take(0) =~= Seq::<Note>::empty());
    }
    while i < n
        invariant
            i <= n,
            n == site.nodes().len(),
            site.wf(),
            m == max_id(site.nodes().take(i as int)),
        decreases n - i,
    {
        proof {
            assert(site.nodes().take(i as int + 1).drop_last() =~= site.nodes().take(i as int));
            assert(site.nodes().take(i as int + 1).last() == site.nodes()[i as int]);
        }
        let note = crate::graph::graph_node_at(&site.notes, i);
        if note.id > m {
            m = note.id;
        }
        i = i + 1;
    }
    assert(site.nodes().take(n as int) =~= site.nodes());
    m
}

/// The value of a freshly created note: the next id, the creation time,
/// default empty plain-text content, and at most a parent relation.
pub open spec fn new_note_view(id: u32, parent: Option<u32>, now: Timestamp) -> ConnectedNoteView {
    ConnectedNoteView {
        note: NoteView {
            id: id,
            alternative: None,
            create_at: now,
            update_at: Seq::empty(),
            title: None,
            content: ContentView::PlainText(Seq::empty()),
        },
        parent_id: parent,
        previous_ids: Seq::empty(),
        top_level: false,
    }
}

/// Creates a note: assigns the next id — the largest existing id plus one,
/// never reusing — stamps it with the given clock reading, hangs it under
/// the note `belongs_to` names (where given), and writes its record text.
pub fn new_note(site: &Site, belongs_to: Option<&str>, now: Timestamp) -> (r: Result<
    (u32, String),
    CreateError,
>)
    requires
        site.wf(),
        now.wf(),
    ensures
        match r {
            Ok(pair) => {
                &&& max_id(site.nodes()) < u32::MAX
                &&& pair.0 == max_id(site.nodes()) + 1
                &&& match belongs_to {
                    None => decode_text_spec(pair.1@) == Ok::<ConnectedNoteView, FormatError>(
                        new_note_view(pair.0, None, now),
                    ),
                    Some(key) => site.find_spec(key@) is Ok && decode_text_spec(pair.1@) == Ok::<
                        ConnectedNoteView,
                        FormatError,
                    >(
                        new_note_view(
                            pair.0,
                            Some(site.nodes()[site.find_spec(key@).unwrap()].id),
                            now,
                        ),
                    ),
                }
            },
            Err(CreateError::TooManyNotes) => max_id(site.nodes()) == u32::MAX,
            Err(CreateError::Find(e)) => belongs_to is Some && site.find_spec(
                belongs_to.unwrap()@,
            ) == Err::<int, FindError>(e),
        },
{
    let m = max_note_id(site);
    if m == u32::MAX {
        return Err(CreateError::TooManyNotes);
    }
    let id = m + 1;
    let parent_id: Option<u32> = match belongs_to {
        Some(key) => match site.find(key) {
            Ok(parent) => Some(parent.id),
            Err(e) => {
                return Err(CreateError::Find(e));
            },
        },
        None => None,
    };
    let cn = ConnectedNote {
        note: Note {
            id: id,
            alternative: None,
            create_at: now,
            update_at: Vec::new(),
            title: None,
            content: NoteContent::PlainText(Vec::new()),
        },
        parent_id: parent_id,
        previous_ids: Vec::new(),
        top_level: false,
    };
    proof {
        assert(cn@ =~~= new_note_view(id, parent_id, now));
        assert(cn@.wf());
    }
    let text = encode(&cn);
    Ok((id, text))
}

/// The value of a note after one update: one more entry in `update_at`,
/// everything else untouched.
pub open spec fn push_update(v: ConnectedNoteView, now: Timestamp) -> ConnectedNoteView {
    ConnectedNoteView {
        note: NoteView { update_at: v.note.update_at.push(now), ..v.note },
        ..v
    }
}

/// Idempotent update: updating twice appends two entries to `update_at`,
/// in call order; with distinct clock readings the entries are distinct,
/// and with readings at or after the creation time each entry is at or
/// after it too.  Nothing else of the note changes.
pub proof fn lemma_update_appends(v: ConnectedNoteView, t1: Timestamp, t2: Timestamp)
    requires
        t1 != t2,
        v.note.create_at.le(t1),
        v.note.create_at.le(t2),
    ensures
        push_update(push_update(v, t1), t2).note.update_at == v.note.update_at + seq![t1, t2],
        push_update(push_update(v, t1), t2).note.update_at.len() == v.note.update_at.len() + 2,
        ({
            let w = push_update(push_update(v, t1), t2).note.update_at;
            &&& w[w.len() - 2] != w[w.len() - 1]
            &&& v.note.create_at.le(w[w.len() - 2])
            &&& v.note.create_at.le(w[w.len() - 1])
        }),
        push_update(push_update(v, t1), t2).note.id == v.note.id,
        push_update(push_update(v, t1), t2).note.create_at == v.note.create_at,
        push_update(push_update(v, t1), t2).note.content == v.note.content,
        push_update(push_update(v, t1), t2).parent_id == v.parent_id,
        push_update(push_update(v, t1), t2).previous_ids == v.previous_ids,
{
    assert(v.note.update_at.push(t1).push(t2) =~= v.note.update_at + seq![t1, t2]);
}

/// Updates a note: resolves the key, derives the note's authoring form
/// from the current edges, appends the clock reading to `update_at`, and
/// writes the record text back.
pub fn update_note(site: &Site, key: &str, now: Timestamp) -> (r: Result<
    (u32, String),
    FindError,
>)
    requires
        site.wf(),
        now.wf(),
    ensures
        match r {
            Ok(pair) => site.find_spec(key@) is Ok && pair.0 == site.nodes()[site.find_spec(
                key@,
            ).unwrap()].id && decode_text_spec(pair.1@) == Ok::<ConnectedNoteView, FormatError>(
                push_update(site.connected_view(pair.0), now),
            ),
            Err(e) => site.find_spec(key@) == Err::<int, FindError>(e),
        },
{
    let id: u32 = match site.find(key) {
        Ok(note) => note.id,
        Err(e) => {
            return Err(e);
        },
    };
    proof {
        site.lemma_find_spec_in_range(key@);
        let p = site.find_spec(key@).unwrap();
        site.lemma_pos_of(p);
    }
    let mut cn = site.make_connected(id);
    let ghost before = cn@;
    cn.note.update_at.push(now);
    proof {
        assert(cn@ =~~= push_update(before, now));
        assert forall|j: int| 0 <= j < cn@.note.update_at.len() implies (
        #[trigger] cn@.note.update_at[j]).wf() by {
            if j < before.note.update_at.len() {
                assert(before.note.update_at[j].wf());
            }
        }
        assert(cn@.wf());
    }
    let text = encode(&cn);
    Ok((id, text))
}

} // verus!
