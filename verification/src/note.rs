//! The note data model: a content unit with its identity, timestamps and
//! body, and the connected form that carries its relations as plain fields.

use vstd::prelude::*;

use crate::text::value_ok;
use crate::ts::Timestamp;

verus! {

/// The body of a note: either ordered plain-text paragraphs, or the path of
/// an external asset such as an image.
#[derive(Debug, PartialEq, Eq)]
pub enum NoteContent {
    /// Ordered paragraphs of plain text.
    PlainText(Vec<String>),
    /// The path of an external asset, kept as text.
    Image(String),
}

/// One content unit of the knowledge base.
#[derive(Debug, PartialEq, Eq)]
pub struct Note {
    /// Unique positive identifier, assigned once and never reused.
    pub id: u32,
    /// Optional unique human-readable alias.
    pub alternative: Option<String>,
    /// When the note was created; set once, immutable thereafter.
    pub create_at: Timestamp,
    /// When the note was edited, one entry per edit, in call order.
    pub update_at: Vec<Timestamp>,
    /// Optional title.
    pub title: Option<String>,
    /// The body.
    pub content: NoteContent,
}

/// A note together with its relational fields, the authoring form that one
/// text record carries: where it hangs (`parent_id`), what it follows
/// (`previous_ids`) and whether it is a root of its own (`top_level`).
#[derive(Debug, PartialEq, Eq)]
pub struct ConnectedNote {
    /// The stored note itself.
    pub note: Note,
    /// The id of the owning note, where there is one.
    pub parent_id: Option<u32>,
    /// The ids of the causal predecessors, in stored order.
    pub previous_ids: Vec<u32>,
    /// Whether the note is shown as a root regardless of its parent.
    pub top_level: bool,
}

/// The mathematical value of a body.
#[verifier::ext_equal]
pub enum ContentView {
    /// Ordered paragraphs.
    PlainText(Seq<Seq<char>>),
    /// An asset path.
    Image(Seq<char>),
}

/// The mathematical value of a note.
#[verifier::ext_equal]
pub struct NoteView {
    /// Identifier.
    pub id: u32,
    /// Alias, where there is one.
    pub alternative: Option<Seq<char>>,
    /// Creation time.
    pub create_at: Timestamp,
    /// Edit times, in order.
    pub update_at: Seq<Timestamp>,
    /// Title, where there is one.
    pub title: Option<Seq<char>>,
    /// Body.
    pub content: ContentView,
}

/// The mathematical value of a connected note.
#[verifier::ext_equal]
pub struct ConnectedNoteView {
    /// The note.
    pub note: NoteView,
    /// Owning note's id, where there is one.
    pub parent_id: Option<u32>,
    /// Causal predecessors, in order.
    pub previous_ids: Seq<u32>,
    /// Root flag.
    pub top_level: bool,
}

impl View for NoteContent {
    type V = ContentView;

    open spec fn view(&self) -> ContentView {
        match self {
            NoteContent::PlainText(ps) => ContentView::PlainText(ps.deep_view()),
            NoteContent::Image(path) => ContentView::Image(path@),
        }
    }
}

impl View for Note {
    type V = NoteView;

    open spec fn view(&self) -> NoteView {
        NoteView {
            id: self.id,
            alternative: match &self.alternative {
                Some(a) => Some(a@),
                None => None,
            },
            create_at: self.create_at,
            update_at: self.update_at@,
            title: match &self.title {
                Some(t) => Some(t@),
                None => None,
            },
            content: self.content@,
        }
    }
}

impl View for ConnectedNote {
    type V = ConnectedNoteView;

    open spec fn view(&self) -> ConnectedNoteView {
        ConnectedNoteView {
            note: self.note@,
            parent_id: self.parent_id,
            previous_ids: self.previous_ids@,
            top_level: self.top_level,
        }
    }
}

impl DeepView for Note {
    type V = NoteView;

    open spec fn deep_view(&self) -> NoteView {
        self.view()
    }
}

impl DeepView for ConnectedNote {
    type V = ConnectedNoteView;

    open spec fn deep_view(&self) -> ConnectedNoteView {
        self.view()
    }
}

impl ContentView {
    /// The bodies a record can carry back and forth: paragraphs and paths
    /// that are themselves single, trimmed, non-blank lines.
    pub open spec fn wf(self) -> bool {
        match self {
            ContentView::PlainText(ps) => forall|i: int|
                0 <= i < ps.len() ==> value_ok(#[trigger] ps[i]),
            ContentView::Image(path) => value_ok(path),
        }
    }
}

impl NoteView {
    /// The notes a record can carry back and forth: timestamps in the text
    /// form's range, and every free-text field a single, trimmed, non-blank
    /// line.
    pub open spec fn wf(self) -> bool {
        &&& self.create_at.wf()
        &&& forall|i: int| 0 <= i < self.update_at.len() ==> (#[trigger] self.update_at[i]).wf()
        &&& match self.alternative {
            Some(a) => value_ok(a),
            None => true,
        }
        &&& match self.title {
            Some(t) => value_ok(t),
            None => true,
        }
        &&& self.content.wf()
    }
}

impl ConnectedNoteView {
    /// Well-formedness of the connected form: that of the note it carries.
    pub open spec fn wf(self) -> bool {
        self.note.wf()
    }
}

impl NoteContent {
    /// An owned copy whose value is the same.
    pub fn duplicate(&self) -> (r: NoteContent)
        ensures
            r@ == self@,
    {
        match self {
            NoteContent::PlainText(ps) => {
                let mut out: Vec<String> = Vec::new();
                let mut i: usize = 0;
                while i < ps.len()
                    invariant
                        i <= ps@.len(),
                        out@ == ps@.take(i as int),
                    decreases ps@.len() - i,
                {
                    out.push(ps[i].clone());
                    assert(out@ =~= ps@.take(i + 1));
                    i = i + 1;
                }
                assert(out@ =~= ps@);
                assert(out.deep_view() =~~= ps.deep_view());
                NoteContent::PlainText(out)
            },
            NoteContent::Image(path) => NoteContent::Image(path.clone()),
        }
    }
}

impl Note {
    /// An owned copy whose value is the same.
    pub fn duplicate(&self) -> (r: Note)
        ensures
            r@ == self@,
    {
        Note {
            id: self.id,
            alternative: match &self.alternative {
                Some(a) => Some(a.clone()),
                None => None,
            },
            create_at: self.create_at,
            update_at: copy_timestamps(&self.update_at),
            title: match &self.title {
                Some(t) => Some(t.clone()),
                None => None,
            },
            content: self.content.duplicate(),
        }
    }
}

/// Copies a vector of timestamps.
pub fn copy_timestamps(v: &Vec<Timestamp>) -> (r: Vec<Timestamp>)
    ensures
        r@ == v@,
{
    let mut out: Vec<Timestamp> = Vec::new();
    let mut i: usize = 0;
    while i < v.len()
        invariant
            i <= v@.len(),
            out@ == v@.take(i as int),
        decreases v@.len() - i,
    {
        out.push(v[i]);
        assert(out@ =~= v@.take(i + 1));
        i = i + 1;
    }
    assert(out@ =~= v@);
    out
}

} // verus!
