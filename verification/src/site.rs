//! The graph model: the notes, their edges, the id index and the top-level
//! bookkeeping, with the operations the authoring and rendering flows use.

use std::collections::HashMap;

use vstd::prelude::*;

use crate::codec::{decode, decode_text_spec, FormatError};
use crate::graph::{
    graph_add_edge, graph_add_node, graph_edge_count, graph_edges, graph_edges_incoming,
    graph_new, graph_node_at, graph_node_count, graph_nodes, incoming_of, Connection, NoteGraph,
};
use crate::note::{ConnectedNote, ConnectedNoteView, Note};
use crate::text::{parse_u32, parse_u32_spec, str_chars};
use vstd::string::StringExecFns;

verus! {

/// The sources of the `Own` entries of an incoming-edge list, in order.
pub open spec fn own_sources(inc: Seq<(usize, Connection)>) -> Seq<usize>
    decreases inc.len(),
{
    if inc.len() == 0 {
        Seq::empty()
    } else {
        let rest = own_sources(inc.drop_first());
        if inc[0].1 == Connection::Own {
            seq![inc[0].0] + rest
        } else {
            rest
        }
    }
}

/// The sources of the `Cause` entries of an incoming-edge list, in order.
pub open spec fn cause_sources(inc: Seq<(usize, Connection)>) -> Seq<usize>
    decreases inc.len(),
{
    if inc.len() == 0 {
        Seq::empty()
    } else {
        let rest = cause_sources(inc.drop_first());
        if inc[0].1 == Connection::Cause {
            seq![inc[0].0] + rest
        } else {
            rest
        }
    }
}

/// The first position whose note carries this alias, or `-1` where none
/// does.
pub open spec fn alias_pos(notes: Seq<Note>, key: Seq<char>) -> int
    decreases notes.len(),
{
    if notes.len() == 0 {
        -1
    } else if notes[0]@.alternative == Some(key) {
        0
    } else {
        let r = alias_pos(notes.drop_first(), key);
        if r < 0 {
            -1
        } else {
            1 + r
        }
    }
}

/// `alias_pos` points at the first alias match, or reports that none
/// exists.
pub proof fn lemma_alias_pos(notes: Seq<Note>, key: Seq<char>)
    ensures
        alias_pos(notes, key) >= 0 ==> alias_pos(notes, key) < notes.len() && notes[alias_pos(
            notes,
            key,
        )]@.alternative == Some(key) && (forall|q: int|
            0 <= q < alias_pos(notes, key) ==> (#[trigger] notes[q])@.alternative != Some(key)),
        alias_pos(notes, key) < 0 ==> (forall|q: int|
            0 <= q < notes.len() ==> (#[trigger] notes[q])@.alternative != Some(key)),
    decreases notes.len(),
{
    if notes.len() > 0 {
        lemma_alias_pos(notes.drop_first(), key);
        if notes[0]@.alternative != Some(key) {
            let r = alias_pos(notes.drop_first(), key);
            if r >= 0 {
                assert(notes[r + 1] == notes.drop_first()[r]);
                assert forall|q: int| 0 <= q < r + 1 implies (#[trigger] notes[q])@.alternative
                    != Some(key) by {
                    if q > 0 {
                        assert(notes.drop_first()[q - 1]@.alternative != Some(key));
                    }
                }
            } else {
                assert forall|q: int| 0 <= q < notes.len() implies (
                #[trigger] notes[q])@.alternative != Some(key) by {
                    if q > 0 {
                        assert(notes.drop_first()[q - 1]@.alternative != Some(key));
                    }
                }
            }
        }
    }
}

/// Incoming-edge entries point at real nodes where every edge does.
proof fn lemma_incoming_bounded(
    edges: Seq<(usize, usize, Connection)>,
    i: usize,
    bound: nat,
)
    requires
        forall|e: int| 0 <= e < edges.len() ==> (#[trigger] edges[e]).0 < bound,
    ensures
        forall|j: int|
            0 <= j < incoming_of(edges, i).len() ==> (#[trigger] incoming_of(edges, i)[j]).0
                < bound,
    decreases edges.len(),
{
    if edges.len() > 0 {
        assert forall|e: int| 0 <= e < edges.drop_last().len() implies (
        #[trigger] edges.drop_last()[e]).0 < bound by {
            assert(edges.drop_last()[e] == edges[e]);
        }
        lemma_incoming_bounded(edges.drop_last(), i, bound);
        let rest = incoming_of(edges.drop_last(), i);
        assert(edges[edges.len() - 1].0 < bound);
        if edges.last().1 == i {
            assert forall|j: int| 0 <= j < incoming_of(edges, i).len() implies (
            #[trigger] incoming_of(edges, i)[j]).0 < bound by {
                if j < rest.len() {
                    assert(incoming_of(edges, i)[j] == rest[j]);
                }
            }
        }
    }
}

/// Outgoing-edge entries point at real nodes where every edge does.
pub(crate) proof fn lemma_outgoing_bounded(
    edges: Seq<(usize, usize, Connection)>,
    i: usize,
    bound: nat,
)
    requires
        forall|e: int| 0 <= e < edges.len() ==> (#[trigger] edges[e]).1 < bound,
    ensures
        forall|j: int|
            0 <= j < crate::graph::outgoing_of(edges, i).len() ==> (
            #[trigger] crate::graph::outgoing_of(edges, i)[j]).0 < bound,
    decreases edges.len(),
{
    if edges.len() > 0 {
        assert forall|e: int| 0 <= e < edges.drop_last().len() implies (
        #[trigger] edges.drop_last()[e]).1 < bound by {
            assert(edges.drop_last()[e] == edges[e]);
        }
        lemma_outgoing_bounded(edges.drop_last(), i, bound);
        let rest = crate::graph::outgoing_of(edges.drop_last(), i);
        assert(edges[edges.len() - 1].1 < bound);
        if edges.last().0 == i {
            assert forall|j: int| 0 <= j < crate::graph::outgoing_of(edges, i).len() implies (
            #[trigger] crate::graph::outgoing_of(edges, i)[j]).0 < bound by {
                if j < rest.len() {
                    assert(crate::graph::outgoing_of(edges, i)[j] == rest[j]);
                }
            }
        }
    }
}

/// Reverses an incoming-edge list.
pub(crate) fn reverse_pairs(v: &Vec<(usize, Connection)>) -> (r: Vec<(usize, Connection)>)
    ensures
        r@ == v@.reverse(),
{
    let mut r: Vec<(usize, Connection)> = Vec::new();
    let mut i: usize = 0;
    while i < v.len()
        invariant
            i <= v@.len(),
            r@.len() == i,
            forall|j: int| 0 <= j < i ==> r@[j] == v@[v@.len() - 1 - j],
        decreases v@.len() - i,
    {
        r.push(v[v.len() - 1 - i]);
        i = i + 1;
    }
    assert(r@ =~= v@.reverse());
    r
}

/// Why a build of the index failed.
#[derive(Clone, Copy, Debug, PartialEq, Eq, Structural)]
pub enum IndexError {
    /// A record failed to decode.
    Format(FormatError),
    /// Two records carry the same id.
    DuplicateId(u32),
    /// A `parent` or `previous` reference names an id no record carries.
    UnknownId(u32),
    /// The machine's index type cannot hold this many notes or edges.
    TooLarge,
}

/// What decoding every record yields: the notes in record order, or the
/// first failure.
pub open spec fn decode_all(rs: Seq<Seq<char>>) -> Result<Seq<ConnectedNoteView>, FormatError>
    decreases rs.len(),
{
    if rs.len() == 0 {
        Ok(Seq::empty())
    } else {
        match decode_text_spec(rs[0]) {
            Err(e) => Err(e),
            Ok(v) => match decode_all(rs.drop_first()) {
                Err(e) => Err(e),
                Ok(t) => Ok(seq![v] + t),
            },
        }
    }
}

/// A record with this id is among the decoded notes.
pub open spec fn id_present(cns: Seq<ConnectedNoteView>, id: u32) -> bool {
    exists|i: int| 0 <= i < cns.len() && (#[trigger] cns[i]).note.id == id
}

/// Two records carry the same id.
pub open spec fn has_duplicate_id(cns: Seq<ConnectedNoteView>) -> bool {
    exists|i: int, j: int|
        0 <= i < j < cns.len() && (#[trigger] cns[i]).note.id == (#[trigger] cns[j]).note.id
}

/// Two records carry this very id.
pub open spec fn duplicated_id(cns: Seq<ConnectedNoteView>, d: u32) -> bool {
    exists|i: int, j: int|
        0 <= i < j < cns.len() && (#[trigger] cns[i]).note.id == d && (#[trigger] cns[j]).note.id
            == d
}

/// Every `parent` and `previous` reference names a present id.
pub open spec fn refs_ok(cns: Seq<ConnectedNoteView>) -> bool {
    forall|i: int|
        0 <= i < cns.len() ==> {
            &&& match (#[trigger] cns[i]).parent_id {
                Some(p) => id_present(cns, p),
                None => true,
            }
            &&& forall|j: int|
                0 <= j < cns[i].previous_ids.len() ==> id_present(
                    cns,
                    #[trigger] cns[i].previous_ids[j],
                )
        }
}

/// The `Own` edges the records call for, by ids, in record order.
pub open spec fn own_pairs(cns: Seq<ConnectedNoteView>) -> Seq<(u32, u32, Connection)>
    decreases cns.len(),
{
    if cns.len() == 0 {
        Seq::empty()
    } else {
        (match cns[0].parent_id {
            Some(p) => seq![(p, cns[0].note.id, Connection::Own)],
            None => Seq::<(u32, u32, Connection)>::empty(),
        }) + own_pairs(cns.drop_first())
    }
}

/// The `Cause` edges one record calls for, by ids, in stored order.
pub open spec fn cause_pairs_of(cn: ConnectedNoteView) -> Seq<(u32, u32, Connection)> {
    cn.previous_ids.map_values(|q: u32| (q, cn.note.id, Connection::Cause))
}

/// All the `Cause` edges, by ids, in record order.
pub open spec fn cause_pairs(cns: Seq<ConnectedNoteView>) -> Seq<(u32, u32, Connection)>
    decreases cns.len(),
{
    if cns.len() == 0 {
        Seq::empty()
    } else {
        cause_pairs_of(cns[0]) + cause_pairs(cns.drop_first())
    }
}

/// The ids flagged top-level, in record order.
pub open spec fn top_ids(cns: Seq<ConnectedNoteView>) -> Seq<u32>
    decreases cns.len(),
{
    if cns.len() == 0 {
        Seq::empty()
    } else {
        (if cns[0].top_level {
            seq![cns[0].note.id]
        } else {
            Seq::<u32>::empty()
        }) + top_ids(cns.drop_first())
    }
}

/// Decoding records one by one follows `decode_all`: a decoded prefix
/// carries over, and the next record decides.
proof fn lemma_decode_all_prefix(rs: Seq<Seq<char>>, vs: Seq<ConnectedNoteView>)
    requires
        vs.len() <= rs.len(),
        forall|j: int|
            0 <= j < vs.len() ==> decode_text_spec(#[trigger] rs[j]) == Ok::<
                ConnectedNoteView,
                FormatError,
            >(vs[j]),
    ensures
        vs.len() == rs.len() ==> decode_all(rs) == Ok::<Seq<ConnectedNoteView>, FormatError>(vs),
        vs.len() < rs.len() ==> (match decode_text_spec(rs[vs.len() as int]) {
            Err(e) => decode_all(rs) == Err::<Seq<ConnectedNoteView>, FormatError>(e),
            Ok(_) => true,
        }),
    decreases rs.len(),
{
    if vs.len() == 0 {
        if rs.len() == 0 {
            assert(decode_all(rs) == Ok::<Seq<ConnectedNoteView>, FormatError>(Seq::empty()));
            assert(vs =~= Seq::<ConnectedNoteView>::empty());
        }
    } else {
        assert(decode_text_spec(rs[0]) == Ok::<ConnectedNoteView, FormatError>(vs[0]));
        assert forall|j: int| 0 <= j < vs.drop_first().len() implies decode_text_spec(
            #[trigger] rs.drop_first()[j],
        ) == Ok::<ConnectedNoteView, FormatError>(vs.drop_first()[j]) by {
            assert(rs.drop_first()[j] == rs[j + 1]);
            assert(vs.drop_first()[j] == vs[j + 1]);
        }
        lemma_decode_all_prefix(rs.drop_first(), vs.drop_first());
        if vs.len() == rs.len() {
            assert(decode_all(rs.drop_first()) == Ok::<Seq<ConnectedNoteView>, FormatError>(
                vs.drop_first(),
            ));
            assert(seq![vs[0]] + vs.drop_first() =~= vs);
        } else {
            assert(rs.drop_first()[vs.len() - 1] == rs[vs.len() as int]);
        }
    }
}

/// Why a key resolved to no note.
#[derive(Clone, Copy, Debug, PartialEq, Eq, Structural)]
pub enum FindError {
    /// The key selects lookup by id, but its digits are no id.
    BadId,
    /// No note carries the id or alias the key names.
    NotFound,
}

/// The note graph: all notes and edges, an id index, and the set of ids
/// shown as roots.
pub struct Site {
    /// The notes and their relations.
    pub notes: NoteGraph,
    /// Where each id's node stands in the graph.
    pub note_indexes: HashMap<u32, usize>,
    /// The ids flagged as top-level, in load order.
    pub top_levels: Vec<u32>,
}

impl Site {
    /// The notes the site holds, in insertion order.
    pub open spec fn nodes(self) -> Seq<Note> {
        graph_nodes(self.notes)
    }

    /// The edges the site holds, in insertion order, over node positions.
    pub open spec fn edges(self) -> Seq<(usize, usize, Connection)> {
        graph_edges(self.notes)
    }

    /// The edges by the ids of their endpoints, in insertion order.
    pub open spec fn edges_ids(self) -> Seq<(u32, u32, Connection)> {
        self.edges().map_values(
            |t: (usize, usize, Connection)|
                (self.nodes()[t.0 as int].id, self.nodes()[t.1 as int].id, t.2),
        )
    }

    /// Some note carries this id.
    pub open spec fn has_id(self, id: u32) -> bool {
        exists|p: int| 0 <= p < self.nodes().len() && (#[trigger] self.nodes()[p]).id == id
    }

    /// The position of the note carrying this id.
    pub open spec fn pos_of(self, id: u32) -> int {
        choose|p: int| 0 <= p < self.nodes().len() && (#[trigger] self.nodes()[p]).id == id
    }

    /// The site's invariant: every note well formed, ids unique, every edge
    /// endpoint a real node, and the id index exactly the id-to-position
    /// relation.
    pub open spec fn wf(self) -> bool {
        &&& self.nodes().len() <= u32::MAX as usize
        &&& forall|p: int| 0 <= p < self.nodes().len() ==> (#[trigger] self.nodes()[p])@.wf()
        &&& forall|p: int, q: int|
            0 <= p < q < self.nodes().len() ==> (#[trigger] self.nodes()[p]).id != (
            #[trigger] self.nodes()[q]).id
        &&& forall|e: int|
            0 <= e < self.edges().len() ==> (#[trigger] self.edges()[e]).0 < self.nodes().len()
                && self.edges()[e].1 < self.nodes().len()
        &&& forall|p: int|
            0 <= p < self.nodes().len() ==> self.note_indexes@.contains_key(
                (#[trigger] self.nodes()[p]).id,
            ) && self.note_indexes@[self.nodes()[p].id] == p
        &&& forall|id: u32|
            self.note_indexes@.contains_key(id) ==> (#[trigger] self.note_indexes@[id])
                < self.nodes().len() && self.nodes()[self.note_indexes@[id] as int].id == id
    }

    /// A position holding an id is the position of that id.
    pub proof fn lemma_pos_of(self, p: int)
        requires
            self.wf(),
            0 <= p < self.nodes().len(),
        ensures
            self.has_id(self.nodes()[p].id),
            self.pos_of(self.nodes()[p].id) == p,
    {
        let id = self.nodes()[p].id;
        assert(self.has_id(id));
        let q = self.pos_of(id);
        assert(0 <= q < self.nodes().len() && self.nodes()[q].id == id);
        if p != q {
            if p < q {
                assert(self.nodes()[p].id != self.nodes()[q].id);
            } else {
                assert(self.nodes()[q].id != self.nodes()[p].id);
            }
        }
    }

    /// An empty site.
    pub fn new() -> (s: Site)
        ensures
            s.wf(),
            s.nodes() == Seq::<Note>::empty(),
            s.edges() == Seq::<(usize, usize, Connection)>::empty(),
            s.top_levels@ == Seq::<u32>::empty(),
    {
        let s = Site { notes: graph_new(), note_indexes: HashMap::new(), top_levels: Vec::new() };
        proof {
            assert(s.top_levels@ =~= Seq::<u32>::empty());
        }
        s
    }

    /// Inserts a note as a new node and indexes it by id; fails if the id
    /// is already taken, leaving the site unchanged.
    pub fn add_note(&mut self, note: Note) -> (r: Result<u32, IndexError>)
        requires
            old(self).wf(),
            note@.wf(),
            old(self).nodes().len() < u32::MAX as usize,
        ensures
            final(self).wf(),
            match r {
                Ok(id) => id == note.id && !old(self).has_id(note.id) && final(self).nodes()
                    == old(self).nodes().push(note) && final(self).edges() == old(self).edges()
                    && final(self).top_levels@ == old(self).top_levels@,
                Err(e) => e == IndexError::DuplicateId(note.id) && old(self).has_id(note.id)
                    && *final(self) == *old(self),
            },
    {
        let id = note.id;
        if self.note_indexes.contains_key(&id) {
            proof {
                let p = self.note_indexes@[id] as int;
                assert(0 <= p < self.nodes().len() && self.nodes()[p].id == id);
            }
            return Err(IndexError::DuplicateId(id));
        }
        assert(!self.has_id(id)) by {
            if self.has_id(id) {
                let p = choose|p: int|
                    0 <= p < self.nodes().len() && (#[trigger] self.nodes()[p]).id == id;
                assert(self.note_indexes@.contains_key(id));
            }
        }
        let i = graph_add_node(&mut self.notes, note);
        self.note_indexes.insert(id, i);
        let ghost oldn = old(self).nodes();
        proof {
            assert(self.nodes() == oldn.push(note));
            assert forall|p: int| 0 <= p < self.nodes().len() implies (
            #[trigger] self.nodes()[p])@.wf() by {
                if p < oldn.len() {
                    assert(self.nodes()[p] == oldn[p]);
                    assert(oldn[p]@.wf());
                } else {
                    assert(self.nodes()[p] == note);
                }
            }
            assert forall|e: int| 0 <= e < self.edges().len() implies (
            #[trigger] self.edges()[e]).0 < self.nodes().len() && self.edges()[e].1
                < self.nodes().len() by {
                assert(old(self).edges()[e].0 < oldn.len());
                assert(old(self).edges()[e].1 < oldn.len());
            }
            assert forall|p: int| 0 <= p < self.nodes().len() implies self.note_indexes@
                .contains_key((#[trigger] self.nodes()[p]).id) && self.note_indexes@[self.nodes()[
                p
            ].id] == p by {
                if p < oldn.len() {
                    assert(self.nodes()[p] == oldn[p]);
                    assert(oldn[p].id != id);
                } else {
                    assert(self.nodes()[p] == note);
                }
            }
            assert forall|k: u32| self.note_indexes@.contains_key(k) implies (
            #[trigger] self.note_indexes@[k]) < self.nodes().len() && self.nodes()[self
                .note_indexes@[k] as int].id == k by {
                if k != id {
                    assert(old(self).note_indexes@.contains_key(k));
                    assert(self.nodes()[old(self).note_indexes@[k] as int] == oldn[old(
                        self,
                    ).note_indexes@[k] as int]);
                }
            }
            assert forall|p: int, q: int| 0 <= p < q < self.nodes().len() implies (
            #[trigger] self.nodes()[p]).id != (#[trigger] self.nodes()[q]).id by {
                if q == oldn.len() as int {
                    assert(self.nodes()[p] == oldn[p]);
                    if self.nodes()[p].id == id {
                        old(self).lemma_pos_of(p);
                    }
                }
            }
        }
        Ok(id)
    }

    /// Adds one edge between the notes carrying the two ids; fails if
    /// either id is unknown, leaving the site unchanged.
    pub fn add_edge(&mut self, from_id: u32, to_id: u32, kind: Connection) -> (r: Result<
        (),
        IndexError,
    >)
        requires
            old(self).wf(),
            old(self).edges().len() < u32::MAX as usize,
        ensures
            final(self).wf(),
            match r {
                Ok(()) => old(self).has_id(from_id) && old(self).has_id(to_id)
                    && final(self).nodes() == old(self).nodes()
                    && final(self).edges() == old(self).edges().push(
                    (old(self).pos_of(from_id) as usize, old(self).pos_of(to_id) as usize, kind),
                ) && final(self).edges_ids() == old(self).edges_ids().push(
                    (from_id, to_id, kind),
                ) && final(self).top_levels@ == old(self).top_levels@,
                Err(e) => *final(self) == *old(self) && match e {
                    IndexError::UnknownId(id) => !old(self).has_id(id) && (id == from_id || id
                        == to_id),
                    _ => false,
                },
            },
    {
        let a: usize = match self.note_indexes.get(&from_id) {
            Some(p) => *p,
            None => {
                proof {
                    if self.has_id(from_id) {
                        let p = choose|p: int|
                            0 <= p < self.nodes().len() && (#[trigger] self.nodes()[p]).id
                                == from_id;
                        assert(self.note_indexes@.contains_key(from_id));
                    }
                }
                return Err(IndexError::UnknownId(from_id));
            },
        };
        let b: usize = match self.note_indexes.get(&to_id) {
            Some(p) => *p,
            None => {
                proof {
                    if self.has_id(to_id) {
                        let p = choose|p: int|
                            0 <= p < self.nodes().len() && (#[trigger] self.nodes()[p]).id
                                == to_id;
                        assert(self.note_indexes@.contains_key(to_id));
                    }
                }
                return Err(IndexError::UnknownId(to_id));
            },
        };
        proof {
            assert(self.nodes()[a as int].id == from_id);
            assert(self.nodes()[b as int].id == to_id);
            self.lemma_pos_of(a as int);
            self.lemma_pos_of(b as int);
        }
        graph_add_edge(&mut self.notes, a, b, kind);
        proof {
            assert(final(self).edges_ids() =~= old(self).edges_ids().push(
                (from_id, to_id, kind),
            ));
        }
        Ok(())
    }

    /// What a key resolves to: the position of the note it names, or why
    /// it names none.  A leading `@` followed by digits selects by id —
    /// digits that are no id are `BadId`, a missing id is `NotFound`.  Any
    /// other key names the first note whose alias equals it exactly, or
    /// `NotFound`.
    pub open spec fn find_spec(self, key: Seq<char>) -> Result<int, FindError> {
        if key.len() > 0 && key[0] == '@' {
            match parse_u32_spec(key.drop_first()) {
                Some(id) => if self.has_id(id) {
                    Ok(self.pos_of(id))
                } else {
                    Err(FindError::NotFound)
                },
                None => Err(FindError::BadId),
            }
        } else {
            let p = alias_pos(self.nodes(), key);
            if p < 0 {
                Err(FindError::NotFound)
            } else {
                Ok(p)
            }
        }
    }

    /// A key that resolves points at a real note.
    pub proof fn lemma_find_spec_in_range(self, key: Seq<char>)
        requires
            self.wf(),
            self.find_spec(key) is Ok,
        ensures
            0 <= self.find_spec(key).unwrap() < self.nodes().len(),
    {
        if key.len() > 0 && key[0] == '@' {
            let id = parse_u32_spec(key.drop_first()).unwrap();
            let p = choose|p: int|
                0 <= p < self.nodes().len() && (#[trigger] self.nodes()[p]).id == id;
        } else {
            lemma_alias_pos(self.nodes(), key);
        }
    }

    /// Looks a note up by key, exactly as `find_spec` says.
    #[verifier::loop_isolation(false)]
    pub fn find<'a>(&'a self, key: &str) -> (r: Result<&'a Note, FindError>)
        requires
            self.wf(),
        ensures
            match r {
                Ok(note) => self.find_spec(key@) is Ok && *note == self.nodes()[self.find_spec(
                    key@,
                ).unwrap()],
                Err(e) => self.find_spec(key@) == Err::<int, FindError>(e),
            },
    {
        let kc = str_chars(key);
        let n = graph_node_count(&self.notes);
        if kc.len() > 0 && kc[0] == '@' {
            let mut digits: Vec<char> = Vec::new();
            let mut i: usize = 1;
            while i < kc.len()
                invariant
                    1 <= i <= kc@.len(),
                    kc@ == key@,
                    digits@ == key@.subrange(1, i as int),
                decreases kc@.len() - i,
            {
                digits.push(kc[i]);
                assert(digits@ =~= key@.subrange(1, i + 1));
                i = i + 1;
            }
            assert(digits@ =~= key@.drop_first());
            match parse_u32(&digits) {
                None => Err(FindError::BadId),
                Some(id) => {
                    let mut p: usize = 0;
                    while p < n
                        invariant
                            p <= n,
                            n == self.nodes().len(),
                            self.wf(),
                            forall|q: int|
                                0 <= q < p ==> (#[trigger] self.nodes()[q]).id != id,
                        decreases n - p,
                    {
                        let note = graph_node_at(&self.notes, p);
                        if note.id == id {
                            proof {
                                self.lemma_pos_of(p as int);
                            }
                            return Ok(note);
                        }
                        p = p + 1;
                    }
                    assert(!self.has_id(id));
                    Err(FindError::NotFound)
                },
            }
        } else {
            let key_string = String::from_str(key);
            let mut p: usize = 0;
            while p < n
                invariant
                    p <= n,
                    n == self.nodes().len(),
                    self.wf(),
                    key_string@ == key@,
                    forall|q: int|
                        0 <= q < p ==> (#[trigger] self.nodes()[q])@.alternative != Some(key@),
                decreases n - p,
            {
                let note = graph_node_at(&self.notes, p);
                match &note.alternative {
                    Some(a) => {
                        if *a == key_string {
                            proof {
                                assert(self.nodes()[p as int]@.alternative == Some(key@));
                                lemma_alias_pos(self.nodes(), key@);
                                let ap = alias_pos(self.nodes(), key@);
                                if ap < 0 {
                                    assert(false);
                                } else if ap < p as int {
                                    assert(self.nodes()[ap]@.alternative != Some(key@));
                                    assert(false);
                                } else if ap > p as int {
                                    assert(self.nodes()[p as int]@.alternative != Some(key@));
                                    assert(false);
                                }
                            }
                            return Ok(note);
                        }
                    },
                    None => {},
                }
                p = p + 1;
            }
            proof {
                lemma_alias_pos(self.nodes(), key@);
                let ap = alias_pos(self.nodes(), key@);
                if ap >= 0 {
                    assert(self.nodes()[ap]@.alternative != Some(key@));
                    assert(false);
                }
            }
            Err(FindError::NotFound)
        }
    }

    /// The authoring-form view of the note carrying an id, derived from the
    /// current edges: the source of its first incoming `Own` edge (in edge
    /// order) as parent, the sources of its incoming `Cause` edges in edge
    /// order as predecessors, and its membership among the top-level ids.
    pub open spec fn connected_view(self, id: u32) -> ConnectedNoteView {
        let p = self.pos_of(id);
        let inc = incoming_of(self.edges(), p as usize);
        let owns = own_sources(inc);
        let causes = cause_sources(inc);
        ConnectedNoteView {
            note: self.nodes()[p]@,
            parent_id: if owns.len() == 0 {
                None
            } else {
                Some(self.nodes()[owns[0] as int].id)
            },
            previous_ids: causes.map_values(|s: usize| self.nodes()[s as int].id),
            top_level: self.top_levels@.contains(id),
        }
    }

    /// Derives the authoring form of an existing note from the graph's
    /// edges, so that the edges stay the single source of truth when the
    /// note is rewritten.
    pub fn make_connected(&self, id: u32) -> (r: ConnectedNote)
        requires
            self.wf(),
            self.has_id(id),
        ensures
            r@ == self.connected_view(id),
            r@.wf(),
    {
        let p: usize = *self.note_indexes.get(&id).unwrap();
        proof {
            assert(self.nodes()[p as int].id == id);
            self.lemma_pos_of(p as int);
        }
        let rv = graph_edges_incoming(&self.notes, p);
        let inc = reverse_pairs(&rv);
        let ghost inc_s = incoming_of(self.edges(), p);
        proof {
            assert(inc@ =~= inc_s);
            lemma_incoming_bounded(self.edges(), p, self.nodes().len() as nat);
        }
        // The parent: the source of the first incoming `Own` edge.
        let mut first_own: Option<usize> = None;
        let mut k: usize = 0;
        proof {
            assert(inc_s.skip(0) =~= inc_s);
        }
        while k < inc.len()
            invariant
                k <= inc_s.len(),
                inc@ == inc_s,
                self.wf(),
                forall|j: int| 0 <= j < inc_s.len() ==> (#[trigger] inc_s[j]).0
                    < self.nodes().len(),
                match first_own {
                    None => own_sources(inc_s) == own_sources(inc_s.skip(k as int)),
                    Some(src) => own_sources(inc_s).len() > 0 && own_sources(inc_s)[0] == src
                        && src < self.nodes().len(),
                },
            decreases inc_s.len() - k,
        {
            proof {
                assert(inc_s.skip(k as int)[0] == inc_s[k as int]);
                assert(inc_s.skip(k as int).drop_first() =~= inc_s.skip(k as int + 1));
            }
            let entry = inc[k];
            let already: bool = match first_own {
                Some(_) => true,
                None => false,
            };
            if !already {
                match entry.1 {
                    Connection::Own => {
                        first_own = Some(entry.0);
                        proof {
                            assert(own_sources(inc_s.skip(k as int)) == seq![inc_s[k as int].0]
                                + own_sources(inc_s.skip(k as int + 1)));
                            assert(own_sources(inc_s)[0] == inc_s[k as int].0);
                        }
                    },
                    Connection::Cause => {},
                }
            }
            k = k + 1;
        }
        proof {
            if first_own is None {
                assert(inc_s.skip(inc_s.len() as int) =~= Seq::<(usize, Connection)>::empty());
                assert(own_sources(inc_s).len() == 0);
            }
        }
        let parent_id: Option<u32> = match first_own {
            Some(src) => Some(graph_node_at(&self.notes, src).id),
            None => None,
        };
        // The predecessors: the sources of the incoming `Cause` edges.
        let mut previous_ids: Vec<u32> = Vec::new();
        let ghost mut built: Seq<usize> = Seq::empty();
        let mut k2: usize = 0;
        proof {
            assert(cause_sources(inc_s) =~= built + cause_sources(inc_s.skip(0)));
        }
        while k2 < inc.len()
            invariant
                k2 <= inc_s.len(),
                inc@ == inc_s,
                self.wf(),
                forall|j: int| 0 <= j < inc_s.len() ==> (#[trigger] inc_s[j]).0
                    < self.nodes().len(),
                cause_sources(inc_s) == built + cause_sources(inc_s.skip(k2 as int)),
                forall|j: int| 0 <= j < built.len() ==> (#[trigger] built[j]) < self.nodes().len(),
                previous_ids@ == built.map_values(|s: usize| self.nodes()[s as int].id),
            decreases inc_s.len() - k2,
        {
            proof {
                assert(inc_s.skip(k2 as int)[0] == inc_s[k2 as int]);
                assert(inc_s.skip(k2 as int).drop_first() =~= inc_s.skip(k2 as int + 1));
            }
            let entry = inc[k2];
            match entry.1 {
                Connection::Cause => {
                    let src_note = graph_node_at(&self.notes, entry.0);
                    previous_ids.push(src_note.id);
                    proof {
                        assert(cause_sources(inc_s.skip(k2 as int)) == seq![inc_s[k2 as int].0]
                            + cause_sources(inc_s.skip(k2 as int + 1)));
                        assert(built.push(inc_s[k2 as int].0) + cause_sources(
                            inc_s.skip(k2 as int + 1),
                        ) =~= built + cause_sources(inc_s.skip(k2 as int)));
                        assert(built.push(inc_s[k2 as int].0).map_values(
                            |s: usize| self.nodes()[s as int].id,
                        ) =~= built.map_values(|s: usize| self.nodes()[s as int].id).push(
                            self.nodes()[inc_s[k2 as int].0 as int].id,
                        ));
                        built = built.push(inc_s[k2 as int].0);
                    }
                },
                Connection::Own => {},
            }
            k2 = k2 + 1;
        }
        proof {
            assert(inc_s.skip(inc_s.len() as int) =~= Seq::<(usize, Connection)>::empty());
            assert(cause_sources(inc_s) =~= built);
        }
        // The flag: membership among the top-level ids.
        let mut top_level: bool = false;
        let mut k3: usize = 0;
        while k3 < self.top_levels.len()
            invariant
                k3 <= self.top_levels@.len(),
                top_level == exists|j: int| 0 <= j < k3 && self.top_levels@[j] == id,
            decreases self.top_levels@.len() - k3,
        {
            if self.top_levels[k3] == id {
                top_level = true;
            }
            k3 = k3 + 1;
        }
        assert(top_level == self.top_levels@.contains(id));
        let note = graph_node_at(&self.notes, p);
        let r = ConnectedNote {
            note: note.duplicate(),
            parent_id: parent_id,
            previous_ids: previous_ids,
            top_level: top_level,
        };
        assert(r@ =~~= self.connected_view(id));
        r
    }
}

/// Decodes every record, failing fast on the first malformed one.
fn decode_records(records: &Vec<String>) -> (r: Result<Vec<ConnectedNote>, FormatError>)
    ensures
        match r {
            Ok(cns) => decode_all(records.deep_view()) == Ok::<Seq<ConnectedNoteView>, FormatError>(
                cns.deep_view(),
            ) && forall|j: int|
                0 <= j < cns.deep_view().len() ==> (#[trigger] cns.deep_view()[j]).wf(),
            Err(e) => decode_all(records.deep_view()) == Err::<Seq<ConnectedNoteView>, FormatError>(
                e,
            ),
        },
{
    let ghost rds = records.deep_view();
    let mut cns: Vec<ConnectedNote> = Vec::new();
    let mut i: usize = 0;
    while i < records.len()
        invariant
            i <= rds.len(),
            rds == records.deep_view(),
            cns@.len() == i,
            forall|j: int|
                0 <= j < i ==> decode_text_spec(rds[j]) == Ok::<ConnectedNoteView, FormatError>(
                    #[trigger] cns.deep_view()[j],
                ) && cns.deep_view()[j].wf(),
        decreases rds.len() - i,
    {
        proof {
            assert(rds[i as int] == records@[i as int].deep_view());
        }
        match decode(records[i].as_str()) {
            Ok(cn) => {
                let ghost before = cns.deep_view();
                cns.push(cn);
                proof {
                    assert(cns.deep_view() =~~= before.push(cn@));
                }
                i = i + 1;
            },
            Err(e) => {
                proof {
                    lemma_decode_all_prefix(rds, cns.deep_view());
                }
                return Err(e);
            },
        }
    }
    proof {
        lemma_decode_all_prefix(rds, cns.deep_view());
    }
    Ok(cns)
}

/// Inserts every decoded note as a node, in record order, keeping the ids
/// flagged top-level; fails on a duplicate id, before any edge exists.
fn insert_notes(site: &mut Site, cns: &Vec<ConnectedNote>) -> (r: Result<(), IndexError>)
    requires
        old(site).wf(),
        old(site).nodes() == Seq::<Note>::empty(),
        old(site).edges() == Seq::<(usize, usize, Connection)>::empty(),
        old(site).top_levels@ == Seq::<u32>::empty(),
        cns.deep_view().len() < u32::MAX as usize,
        forall|j: int| 0 <= j < cns.deep_view().len() ==> (#[trigger] cns.deep_view()[j]).wf(),
    ensures
        final(site).wf(),
        final(site).edges() == Seq::<(usize, usize, Connection)>::empty(),
        match r {
            Ok(()) => {
                &&& !has_duplicate_id(cns.deep_view())
                &&& final(site).nodes().len() == cns.deep_view().len()
                &&& forall|j: int|
                    0 <= j < cns.deep_view().len() ==> (#[trigger] final(site).nodes()[j])@
                        == cns.deep_view()[j].note
                &&& final(site).top_levels@ == top_ids(cns.deep_view())
            },
            Err(e) => match e {
                IndexError::DuplicateId(d) => duplicated_id(cns.deep_view(), d),
                _ => false,
            },
        },
{
    let ghost cvs = cns.deep_view();
    let mut i: usize = 0;
    proof {
        assert(cvs.skip(0) =~= cvs);
        assert(top_ids(cvs) =~= old(site).top_levels@ + top_ids(cvs.skip(0)));
    }
    while i < cns.len()
        invariant
            i <= cvs.len(),
            cvs == cns.deep_view(),
            cns@.len() == cvs.len(),
            cvs.len() < u32::MAX as usize,
            forall|j: int| 0 <= j < cvs.len() ==> (#[trigger] cvs[j]).wf(),
            site.wf(),
            site.edges() == Seq::<(usize, usize, Connection)>::empty(),
            site.nodes().len() == i,
            forall|j: int| 0 <= j < i ==> (#[trigger] site.nodes()[j])@ == cvs[j].note,
            top_ids(cvs) == site.top_levels@ + top_ids(cvs.skip(i as int)),
        decreases cvs.len() - i,
    {
        proof {
            assert(cvs[i as int] == cns@[i as int]@);
            assert(cvs.skip(i as int)[0] == cvs[i as int]);
            assert(cvs.skip(i as int).drop_first() =~= cvs.skip(i as int + 1));
        }
        let note = cns[i].note.duplicate();
        let ghost pre = *site;
        match site.add_note(note) {
            Ok(_) => {},
            Err(e) => {
                proof {
                    assert(pre.has_id(cvs[i as int].note.id));
                    let j = choose|j: int|
                        0 <= j < pre.nodes().len() && (#[trigger] pre.nodes()[j]).id
                            == cvs[i as int].note.id;
                    assert(cvs[j].note.id == cvs[i as int].note.id);
                    assert(duplicated_id(cvs, cvs[i as int].note.id));
                }
                return Err(e);
            },
        }
        let ghost mid_tops = site.top_levels@;
        if cns[i].top_level {
            let id = cns[i].note.id;
            site.top_levels.push(id);
            proof {
                assert(site.top_levels@ =~= mid_tops.push(id));
                assert(mid_tops.push(id) =~= mid_tops + seq![id]);
                assert(top_ids(cvs.skip(i as int)) == seq![cvs[i as int].note.id] + top_ids(
                    cvs.skip(i as int + 1),
                ));
                assert(site.top_levels@ + top_ids(cvs.skip(i as int + 1)) =~= mid_tops + (seq![
                    cvs[i as int].note.id,
                ] + top_ids(cvs.skip(i as int + 1))));
            }
        } else {
            proof {
                assert(top_ids(cvs.skip(i as int)) =~= Seq::<u32>::empty() + top_ids(
                    cvs.skip(i as int + 1),
                ));
                assert(top_ids(cvs.skip(i as int)) =~= top_ids(cvs.skip(i as int + 1)));
            }
        }
        proof {
            assert forall|j: int| 0 <= j < i + 1 implies (#[trigger] site.nodes()[j])@ == cvs[
                j
            ].note by {
                if j < i {
                    assert(site.nodes()[j] == pre.nodes()[j]);
                }
            }
        }
        i = i + 1;
    }
    proof {
        assert(cvs.skip(cvs.len() as int) =~= Seq::<ConnectedNoteView>::empty());
        assert(site.top_levels@ + Seq::<u32>::empty() =~= site.top_levels@);
        assert(site.top_levels@ =~= top_ids(cvs));
        assert forall|p: int, q: int| 0 <= p < q < cvs.len() implies (#[trigger] cvs[p]).note.id
            != (#[trigger] cvs[q]).note.id by {
            assert(site.nodes()[p]@ == cvs[p].note);
            assert(site.nodes()[q]@ == cvs[q].note);
            assert(site.nodes()[p].id != site.nodes()[q].id);
        }
    }
    Ok(())
}

/// Adds one `Own` edge, parent to child, per `parent` reference, in record
/// order; fails on a reference to an unknown id.
fn add_own_edges(site: &mut Site, cns: &Vec<ConnectedNote>) -> (r: Result<(), IndexError>)
    requires
        old(site).wf(),
        old(site).edges() == Seq::<(usize, usize, Connection)>::empty(),
        old(site).nodes().len() == cns.deep_view().len(),
        forall|j: int|
            0 <= j < cns.deep_view().len() ==> (#[trigger] old(site).nodes()[j])@
                == cns.deep_view()[j].note,
    ensures
        final(site).wf(),
        final(site).nodes() == old(site).nodes(),
        final(site).top_levels@ == old(site).top_levels@,
        match r {
            Ok(()) => final(site).edges_ids() == own_pairs(cns.deep_view()) && (forall|i: int|
                0 <= i < cns.deep_view().len() ==> (match (#[trigger] cns.deep_view()[
                    i
                ]).parent_id {
                    Some(p) => id_present(cns.deep_view(), p),
                    None => true,
                })),
            Err(e) => match e {
                IndexError::UnknownId(id) => !id_present(cns.deep_view(), id) && !refs_ok(
                    cns.deep_view(),
                ),
                IndexError::TooLarge => own_pairs(cns.deep_view()).len() + cause_pairs(
                    cns.deep_view(),
                ).len() >= u32::MAX as int,
                _ => false,
            },
        },
{
    let ghost cvs = cns.deep_view();
    let mut i: usize = 0;
    proof {
        assert(cvs.skip(0) =~= cvs);
        assert(site.edges_ids() =~= Seq::<(u32, u32, Connection)>::empty());
        assert(own_pairs(cvs) =~= site.edges_ids() + own_pairs(cvs.skip(0)));
    }
    while i < cns.len()
        invariant
            i <= cvs.len(),
            cvs == cns.deep_view(),
            cns@.len() == cvs.len(),
            site.wf(),
            site.nodes() == old(site).nodes(),
            site.top_levels@ == old(site).top_levels@,
            site.nodes().len() == cvs.len(),
            forall|j: int| 0 <= j < cvs.len() ==> (#[trigger] site.nodes()[j])@ == cvs[j].note,
            own_pairs(cvs) == site.edges_ids() + own_pairs(cvs.skip(i as int)),
            forall|j: int|
                0 <= j < i ==> (match (#[trigger] cvs[j]).parent_id {
                    Some(p) => id_present(cvs, p),
                    None => true,
                }),
        decreases cvs.len() - i,
    {
        proof {
            assert(cvs[i as int] == cns@[i as int]@);
            assert(cvs.skip(i as int)[0] == cvs[i as int]);
            assert(cvs.skip(i as int).drop_first() =~= cvs.skip(i as int + 1));
        }
        let child_id = cns[i].note.id;
        match &cns[i].parent_id {
            Some(parent_ref) => {
                let parent_id = *parent_ref;
                let ec = graph_edge_count(&site.notes);
                if ec >= u32::MAX as usize {
                    proof {
                        assert(site.edges_ids().len() == site.edges().len());
                        assert(own_pairs(cvs).len() >= site.edges_ids().len());
                        assert(cause_pairs(cvs).len() >= 0);
                    }
                    return Err(IndexError::TooLarge);
                }
                let ghost pre = *site;
                match site.add_edge(parent_id, child_id, Connection::Own) {
                    Ok(()) => {
                        proof {
                            assert(own_pairs(cvs.skip(i as int)) == seq![
                                (parent_id, child_id, Connection::Own),
                            ] + own_pairs(cvs.skip(i as int + 1)));
                            assert(site.edges_ids() + own_pairs(cvs.skip(i as int + 1)) =~= pre
                                .edges_ids() + own_pairs(cvs.skip(i as int)));
                            // The parent id is present among the records.
                            let p = pre.pos_of(parent_id);
                            assert(pre.nodes()[p].id == parent_id);
                            assert(cvs[p].note.id == parent_id);
                            assert(id_present(cvs, parent_id));
                        }
                    },
                    Err(e) => {
                        proof {
                            match e {
                                IndexError::UnknownId(id) => {
                                    assert(!pre.has_id(id));
                                    assert(pre.has_id(child_id)) by {
                                        assert(pre.nodes()[i as int]@ == cvs[i as int].note);
                                    }
                                    assert(id == parent_id);
                                    assert(!id_present(cvs, id)) by {
                                        if id_present(cvs, id) {
                                            let j = choose|j: int|
                                                0 <= j < cvs.len() && (#[trigger] cvs[j]).note.id
                                                    == id;
                                            assert(pre.nodes()[j]@ == cvs[j].note);
                                            assert(pre.has_id(id));
                                        }
                                    }
                                    assert(!refs_ok(cvs)) by {
                                        if refs_ok(cvs) {
                                            assert(match cvs[i as int].parent_id {
                                                Some(p) => id_present(cvs, p),
                                                None => true,
                                            });
                                        }
                                    }
                                },
                                _ => {
                                    assert(false);
                                },
                            }
                        }
                        return Err(e);
                    },
                }
            },
            None => {
                proof {
                    assert(own_pairs(cvs.skip(i as int)) =~= Seq::<
                        (u32, u32, Connection),
                    >::empty() + own_pairs(cvs.skip(i as int + 1)));
                    assert(own_pairs(cvs.skip(i as int)) =~= own_pairs(cvs.skip(i as int + 1)));
                }
            },
        }
        i = i + 1;
    }
    proof {
        assert(cvs.skip(cvs.len() as int) =~= Seq::<ConnectedNoteView>::empty());
        assert(site.edges_ids() + Seq::<(u32, u32, Connection)>::empty() =~= site.edges_ids());
        assert(site.edges_ids() =~= own_pairs(cvs));
    }
    Ok(())
}

/// Adds one `Cause` edge, predecessor to note, per `previous` reference, in
/// record order; fails on a reference to an unknown id.
fn add_cause_edges(site: &mut Site, cns: &Vec<ConnectedNote>) -> (r: Result<(), IndexError>)
    requires
        old(site).wf(),
        old(site).edges_ids() == own_pairs(cns.deep_view()),
        old(site).nodes().len() == cns.deep_view().len(),
        forall|j: int|
            0 <= j < cns.deep_view().len() ==> (#[trigger] old(site).nodes()[j])@
                == cns.deep_view()[j].note,
    ensures
        final(site).wf(),
        final(site).nodes() == old(site).nodes(),
        final(site).top_levels@ == old(site).top_levels@,
        match r {
            Ok(()) => final(site).edges_ids() == own_pairs(cns.deep_view()) + cause_pairs(
                cns.deep_view(),
            ) && (forall|i: int|
                0 <= i < cns.deep_view().len() ==> (forall|j: int|
                    0 <= j < (#[trigger] cns.deep_view()[i]).previous_ids.len() ==> id_present(
                        cns.deep_view(),
                        #[trigger] cns.deep_view()[i].previous_ids[j],
                    ))),
            Err(e) => match e {
                IndexError::UnknownId(id) => !id_present(cns.deep_view(), id) && !refs_ok(
                    cns.deep_view(),
                ),
                IndexError::TooLarge => own_pairs(cns.deep_view()).len() + cause_pairs(
                    cns.deep_view(),
                ).len() >= u32::MAX as int,
                _ => false,
            },
        },
{
    let ghost cvs = cns.deep_view();
    let mut i: usize = 0;
    proof {
        assert(cvs.skip(0) =~= cvs);
        assert(own_pairs(cvs) + cause_pairs(cvs) =~= site.edges_ids() + cause_pairs(cvs.skip(0)));
    }
    while i < cns.len()
        invariant
            i <= cvs.len(),
            cvs == cns.deep_view(),
            cns@.len() == cvs.len(),
            site.wf(),
            site.nodes() == old(site).nodes(),
            site.top_levels@ == old(site).top_levels@,
            site.nodes().len() == cvs.len(),
            forall|j: int| 0 <= j < cvs.len() ==> (#[trigger] site.nodes()[j])@ == cvs[j].note,
            own_pairs(cvs) + cause_pairs(cvs) == site.edges_ids() + cause_pairs(
                cvs.skip(i as int),
            ),
            forall|a: int|
                0 <= a < i ==> (forall|b: int|
                    0 <= b < (#[trigger] cvs[a]).previous_ids.len() ==> id_present(
                        cvs,
                        #[trigger] cvs[a].previous_ids[b],
                    )),
        decreases cvs.len() - i,
    {
        proof {
            assert(cvs[i as int] == cns@[i as int]@);
            assert(cvs.skip(i as int)[0] == cvs[i as int]);
            assert(cvs.skip(i as int).drop_first() =~= cvs.skip(i as int + 1));
            assert(cause_pairs(cvs.skip(i as int)) == cause_pairs_of(cvs[i as int]) + cause_pairs(
                cvs.skip(i as int + 1),
            ));
        }
        let child_id = cns[i].note.id;
        let ghost prev = cvs[i as int].previous_ids;
        let mut k: usize = 0;
        proof {
            assert(cause_pairs_of(cvs[i as int]).skip(0) =~= cause_pairs_of(cvs[i as int]));
            assert(site.edges_ids() + (cause_pairs_of(cvs[i as int]) + cause_pairs(
                cvs.skip(i as int + 1),
            )) =~= site.edges_ids() + cause_pairs_of(cvs[i as int]).skip(0) + cause_pairs(
                cvs.skip(i as int + 1),
            ));
        }
        while k < cns[i].previous_ids.len()
            invariant
                i < cvs.len(),
                k <= prev.len(),
                prev == cvs[i as int].previous_ids,
                child_id == cvs[i as int].note.id,
                cvs == cns.deep_view(),
                cns@.len() == cvs.len(),
                cns@[i as int]@ == cvs[i as int],
                site.wf(),
                site.nodes() == old(site).nodes(),
                site.top_levels@ == old(site).top_levels@,
                site.nodes().len() == cvs.len(),
                forall|j: int| 0 <= j < cvs.len() ==> (#[trigger] site.nodes()[j])@ == cvs[
                    j
                ].note,
                own_pairs(cvs) + cause_pairs(cvs) == site.edges_ids() + cause_pairs_of(
                    cvs[i as int],
                ).skip(k as int) + cause_pairs(cvs.skip(i as int + 1)),
                forall|b: int| 0 <= b < k ==> id_present(cvs, #[trigger] prev[b]),
            decreases prev.len() - k,
        {
            let q = cns[i].previous_ids[k];
            proof {
                assert(cause_pairs_of(cvs[i as int])[k as int] == (
                    prev[k as int],
                    cvs[i as int].note.id,
                    Connection::Cause,
                ));
            }
            let ec = graph_edge_count(&site.notes);
            if ec >= u32::MAX as usize {
                proof {
                    assert(site.edges_ids().len() == site.edges().len());
                    assert((own_pairs(cvs) + cause_pairs(cvs)).len() >= site.edges_ids().len());
                }
                return Err(IndexError::TooLarge);
            }
            let ghost pre = *site;
            match site.add_edge(q, child_id, Connection::Cause) {
                Ok(()) => {
                    proof {
                        assert(cause_pairs_of(cvs[i as int]).skip(k as int).drop_first()
                            =~= cause_pairs_of(cvs[i as int]).skip(k as int + 1));
                        assert(cause_pairs_of(cvs[i as int]).skip(k as int)[0] == (
                            prev[k as int],
                            cvs[i as int].note.id,
                            Connection::Cause,
                        ));
                        assert(q == prev[k as int]);
                        assert(child_id == cvs[i as int].note.id);
                        assert(site.edges_ids() == pre.edges_ids().push(
                            (prev[k as int], cvs[i as int].note.id, Connection::Cause),
                        ));
                        assert(site.edges_ids() + cause_pairs_of(cvs[i as int]).skip(k as int + 1)
                            =~= pre.edges_ids() + cause_pairs_of(cvs[i as int]).skip(k as int));
                        assert(site.edges_ids() + cause_pairs_of(cvs[i as int]).skip(k as int + 1)
                            + cause_pairs(cvs.skip(i as int + 1)) =~= pre.edges_ids()
                            + cause_pairs_of(cvs[i as int]).skip(k as int) + cause_pairs(
                            cvs.skip(i as int + 1),
                        ));
                        let p = pre.pos_of(q);
                        assert(pre.nodes()[p].id == q);
                        assert(cvs[p].note.id == q);
                        assert(id_present(cvs, q));
                    }
                },
                Err(e) => {
                    proof {
                        match e {
                            IndexError::UnknownId(id) => {
                                assert(!pre.has_id(id));
                                assert(pre.has_id(child_id)) by {
                                    assert(pre.nodes()[i as int]@ == cvs[i as int].note);
                                    assert(pre.nodes()[i as int].id == cvs[i as int].note.id);
                                    assert(child_id == cvs[i as int].note.id);
                                }
                                assert(id == q);
                                assert(!id_present(cvs, id)) by {
                                    if id_present(cvs, id) {
                                        let j = choose|j: int|
                                            0 <= j < cvs.len() && (#[trigger] cvs[j]).note.id
                                                == id;
                                        assert(pre.nodes()[j]@ == cvs[j].note);
                                        assert(pre.nodes()[j].id == id);
                                        assert(pre.has_id(id));
                                    }
                                }
                                assert(!refs_ok(cvs)) by {
                                    if refs_ok(cvs) {
                                        assert(forall|b: int|
                                            0 <= b < cvs[i as int].previous_ids.len()
                                                ==> id_present(
                                                cvs,
                                                #[trigger] cvs[i as int].previous_ids[b],
                                            ));
                                        assert(id_present(cvs, prev[k as int]));
                                    }
                                }
                            },
                            _ => {
                                assert(false);
                            },
                        }
                    }
                    return Err(e);
                },
            }
            k = k + 1;
        }
        proof {
            assert(cause_pairs_of(cvs[i as int]).skip(prev.len() as int) =~= Seq::<
                (u32, u32, Connection),
            >::empty());
            assert(site.edges_ids() + Seq::<(u32, u32, Connection)>::empty() + cause_pairs(
                cvs.skip(i as int + 1),
            ) =~= site.edges_ids() + cause_pairs(cvs.skip(i as int + 1)));
        }
        i = i + 1;
    }
    proof {
        assert(cvs.skip(cvs.len() as int) =~= Seq::<ConnectedNoteView>::empty());
        assert(site.edges_ids() + Seq::<(u32, u32, Connection)>::empty() =~= site.edges_ids());
        assert(site.edges_ids() =~= own_pairs(cvs) + cause_pairs(cvs));
    }
    Ok(())
}

/// A triple is among the `Own` pairs exactly where some record calls for
/// that containment.
proof fn lemma_own_pairs_membership(c: Seq<ConnectedNoteView>, t: (u32, u32, Connection))
    ensures
        own_pairs(c).contains(t) <==> (t.2 == Connection::Own && exists|i: int|
            0 <= i < c.len() && (#[trigger] c[i]).parent_id == Some(t.0) && c[i].note.id == t.1),
    decreases c.len(),
{
    if c.len() > 0 {
        lemma_own_pairs_membership(c.drop_first(), t);
        let head = (match c[0].parent_id {
            Some(p) => seq![(p, c[0].note.id, Connection::Own)],
            None => Seq::<(u32, u32, Connection)>::empty(),
        });
        let rest = own_pairs(c.drop_first());
        assert(own_pairs(c) == head + rest);
        if own_pairs(c).contains(t) {
            let k = choose|k: int| 0 <= k < own_pairs(c).len() && own_pairs(c)[k] == t;
            if k < head.len() {
                assert(c[0].parent_id == Some(t.0) && c[0].note.id == t.1 && t.2
                    == Connection::Own);
            } else {
                assert(rest[k - head.len()] == t);
                assert(rest.contains(t));
                let i = choose|i: int|
                    0 <= i < c.drop_first().len() && (#[trigger] c.drop_first()[i]).parent_id
                        == Some(t.0) && c.drop_first()[i].note.id == t.1;
                assert(c[i + 1].parent_id == Some(t.0) && c[i + 1].note.id == t.1);
            }
        }
        if t.2 == Connection::Own && exists|i: int|
            0 <= i < c.len() && (#[trigger] c[i]).parent_id == Some(t.0) && c[i].note.id == t.1 {
            let i = choose|i: int|
                0 <= i < c.len() && (#[trigger] c[i]).parent_id == Some(t.0) && c[i].note.id
                    == t.1;
            if i == 0 {
                assert(own_pairs(c)[0] == t);
            } else {
                assert(c.drop_first()[i - 1] == c[i]);
                assert(rest.contains(t));
                let k = choose|k: int| 0 <= k < rest.len() && rest[k] == t;
                assert(own_pairs(c)[head.len() + k] == t);
            }
        }
    }
}

/// A triple is among the `Cause` pairs exactly where some record calls
/// for that reference.
proof fn lemma_cause_pairs_membership(c: Seq<ConnectedNoteView>, t: (u32, u32, Connection))
    ensures
        cause_pairs(c).contains(t) <==> (t.2 == Connection::Cause && exists|i: int, j: int|
            0 <= i < c.len() && 0 <= j < c[i].previous_ids.len() && #[trigger] c[i].previous_ids[j] == t.0 && c[i].note.id == t.1),
    decreases c.len(),
{
    if c.len() > 0 {
        lemma_cause_pairs_membership(c.drop_first(), t);
        let head = cause_pairs_of(c[0]);
        let rest = cause_pairs(c.drop_first());
        assert(cause_pairs(c) == head + rest);
        if cause_pairs(c).contains(t) {
            let k = choose|k: int| 0 <= k < cause_pairs(c).len() && cause_pairs(c)[k] == t;
            if k < head.len() {
                assert(head[k] == (c[0].previous_ids[k], c[0].note.id, Connection::Cause));
                assert(c[0].previous_ids[k] == t.0 && c[0].note.id == t.1 && t.2
                    == Connection::Cause);
            } else {
                assert(rest[k - head.len()] == t);
                assert(rest.contains(t));
                let (i, j): (int, int) = choose|i: int, j: int|
                    0 <= i < c.drop_first().len() && 0 <= j < c.drop_first()[i].previous_ids.len() && #[trigger] c.drop_first()[i].previous_ids[j] == t.0 && c.drop_first()[i].note.id == t.1;
                assert(c[i + 1].previous_ids[j] == t.0 && c[i + 1].note.id == t.1);
            }
        }
        if t.2 == Connection::Cause && exists|i: int, j: int|
            0 <= i < c.len() && 0 <= j < c[i].previous_ids.len() && #[trigger] c[i].previous_ids[j] == t.0 && c[i].note.id == t.1 {
            let (i, j): (int, int) = choose|i: int, j: int|
                0 <= i < c.len() && 0 <= j < c[i].previous_ids.len() && #[trigger] c[i].previous_ids[j] == t.0 && c[i].note.id == t.1;
            if i == 0 {
                assert(head[j] == (c[0].previous_ids[j], c[0].note.id, Connection::Cause));
                assert(cause_pairs(c)[j] == t);
            } else {
                assert(c.drop_first()[i - 1] == c[i]);
                assert(c.drop_first()[i - 1].previous_ids[j] == t.0);
                assert(rest.contains(t));
                let k = choose|k: int| 0 <= k < rest.len() && rest[k] == t;
                assert(cause_pairs(c)[head.len() + k] == t);
            }
        }
    }
}

/// Build determinism: two runs over record sets that are rearrangements
/// of one another call for identical edge sets — whatever order the
/// records are enumerated in, the same relations come out.
pub proof fn lemma_build_deterministic(c1: Seq<ConnectedNoteView>, c2: Seq<ConnectedNoteView>)
    requires
        c1.to_multiset() == c2.to_multiset(),
    ensures
        (own_pairs(c1) + cause_pairs(c1)).to_set() == (own_pairs(c2) + cause_pairs(c2)).to_set(),
{
    broadcast use vstd::seq_lib::group_to_multiset_ensures;

    assert forall|t: (u32, u32, Connection)|
        (own_pairs(c1) + cause_pairs(c1)).contains(t) == (own_pairs(c2) + cause_pairs(
            c2,
        )).contains(t) by {
        lemma_own_pairs_membership(c1, t);
        lemma_own_pairs_membership(c2, t);
        lemma_cause_pairs_membership(c1, t);
        lemma_cause_pairs_membership(c2, t);
        lemma_concat_contains(own_pairs(c1), cause_pairs(c1), t);
        lemma_concat_contains(own_pairs(c2), cause_pairs(c2), t);
        if t.2 == Connection::Own {
            if exists|i: int|
                0 <= i < c1.len() && (#[trigger] c1[i]).parent_id == Some(t.0) && c1[i].note.id
                    == t.1 {
                let i = choose|i: int|
                    0 <= i < c1.len() && (#[trigger] c1[i]).parent_id == Some(t.0) && c1[
                        i
                    ].note.id == t.1;
                assert(c1.contains(c1[i]));
                assert(c1.to_multiset().count(c1[i]) > 0);
                assert(c2.to_multiset().count(c1[i]) > 0);
                assert(c2.contains(c1[i]));
                let k = choose|k: int| 0 <= k < c2.len() && c2[k] == c1[i];
            }
            if exists|i: int|
                0 <= i < c2.len() && (#[trigger] c2[i]).parent_id == Some(t.0) && c2[i].note.id
                    == t.1 {
                let i = choose|i: int|
                    0 <= i < c2.len() && (#[trigger] c2[i]).parent_id == Some(t.0) && c2[
                        i
                    ].note.id == t.1;
                assert(c2.contains(c2[i]));
                assert(c2.to_multiset().count(c2[i]) > 0);
                assert(c1.to_multiset().count(c2[i]) > 0);
                assert(c1.contains(c2[i]));
                let k = choose|k: int| 0 <= k < c1.len() && c1[k] == c2[i];
            }
        } else if t.2 == Connection::Cause {
            if exists|i: int, j: int|
                0 <= i < c1.len() && 0 <= j < c1[i].previous_ids.len() && #[trigger] c1[i].previous_ids[j] == t.0 && c1[i].note.id == t.1 {
                let (i, j): (int, int) = choose|i: int, j: int|
                    0 <= i < c1.len() && 0 <= j < c1[i].previous_ids.len() && #[trigger] c1[i].previous_ids[j] == t.0 && c1[i].note.id == t.1;
                assert(c1.contains(c1[i]));
                assert(c1.to_multiset().count(c1[i]) > 0);
                assert(c2.to_multiset().count(c1[i]) > 0);
                assert(c2.contains(c1[i]));
                let k = choose|k: int| 0 <= k < c2.len() && c2[k] == c1[i];
                assert(c2[k].previous_ids[j] == t.0);
            }
            if exists|i: int, j: int|
                0 <= i < c2.len() && 0 <= j < c2[i].previous_ids.len() && #[trigger] c2[i].previous_ids[j] == t.0 && c2[i].note.id == t.1 {
                let (i, j): (int, int) = choose|i: int, j: int|
                    0 <= i < c2.len() && 0 <= j < c2[i].previous_ids.len() && #[trigger] c2[i].previous_ids[j] == t.0 && c2[i].note.id == t.1;
                assert(c2.contains(c2[i]));
                assert(c2.to_multiset().count(c2[i]) > 0);
                assert(c1.to_multiset().count(c2[i]) > 0);
                assert(c1.contains(c2[i]));
                let k = choose|k: int| 0 <= k < c1.len() && c1[k] == c2[i];
                assert(c1[k].previous_ids[j] == t.0);
            }
        }
    }
    assert((own_pairs(c1) + cause_pairs(c1)).to_set() =~= (own_pairs(c2) + cause_pairs(
        c2,
    )).to_set());
}

/// An element stands in a concatenation exactly where it stands in one of
/// the parts.
proof fn lemma_concat_contains(
    a: Seq<(u32, u32, Connection)>,
    b: Seq<(u32, u32, Connection)>,
    t: (u32, u32, Connection),
)
    ensures
        (a + b).contains(t) <==> a.contains(t) || b.contains(t),
{
    if (a + b).contains(t) {
        let k = choose|k: int| 0 <= k < (a + b).len() && (a + b)[k] == t;
        if k < a.len() {
            assert(a[k] == t);
        } else {
            assert(b[k - a.len()] == t);
        }
    }
    if a.contains(t) {
        let k = choose|k: int| 0 <= k < a.len() && a[k] == t;
        assert((a + b)[k] == t);
    }
    if b.contains(t) {
        let k = choose|k: int| 0 <= k < b.len() && b[k] == t;
        assert((a + b)[a.len() + k] == t);
    }
}

/// Where decoding every record succeeded, each position holds its own
/// record's note.
proof fn lemma_decode_all_elementwise(rs: Seq<Seq<char>>)
    requires
        decode_all(rs) is Ok,
    ensures
        decode_all(rs).unwrap().len() == rs.len(),
        forall|i: int|
            0 <= i < rs.len() ==> decode_text_spec(#[trigger] rs[i]) == Ok::<
                ConnectedNoteView,
                FormatError,
            >(decode_all(rs).unwrap()[i]),
    decreases rs.len(),
{
    if rs.len() > 0 {
        lemma_decode_all_elementwise(rs.drop_first());
        let tail = decode_all(rs.drop_first()).unwrap();
        assert forall|i: int| 0 <= i < rs.len() implies decode_text_spec(#[trigger] rs[i]) == Ok::<
            ConnectedNoteView,
            FormatError,
        >(decode_all(rs).unwrap()[i]) by {
            if i > 0 {
                assert(rs.drop_first()[i - 1] == rs[i]);
                assert(decode_all(rs).unwrap()[i] == tail[i - 1]);
            }
        }
    }
}

/// Mapping a function over rearranged entries rearranges the results.
proof fn lemma_map_multiset<A, B>(f: spec_fn(A) -> B, r1: Seq<A>, r2: Seq<A>)
    requires
        r1.to_multiset() == r2.to_multiset(),
    ensures
        r1.map_values(f).to_multiset() == r2.map_values(f).to_multiset(),
    decreases r1.len(),
{
    broadcast use vstd::seq_lib::group_to_multiset_ensures;
    broadcast use vstd::multiset::group_multiset_axioms;

    if r1.len() == 0 {
        assert(r2.to_multiset().len() == 0);
        assert(r2.len() == 0);
        assert(r1.map_values(f) =~= r2.map_values(f));
    } else {
        let x = r1[0];
        assert(r1.contains(x));
        assert(r1.to_multiset().count(x) > 0);
        assert(r2.to_multiset().count(x) > 0);
        assert(r2.contains(x));
        let k = choose|k: int| 0 <= k < r2.len() && r2[k] == x;
        let t1 = r1.remove(0);
        let t2 = r2.remove(k);
        vstd::seq_lib::to_multiset_remove(r1, 0);
        vstd::seq_lib::to_multiset_remove(r2, k);
        assert(t1.to_multiset() =~= t2.to_multiset());
        lemma_map_multiset(f, t1, t2);
        assert(r1.map_values(f).remove(0) =~= t1.map_values(f));
        assert(r2.map_values(f).remove(k) =~= t2.map_values(f));
        vstd::seq_lib::to_multiset_remove(r1.map_values(f), 0);
        vstd::seq_lib::to_multiset_remove(r2.map_values(f), k);
        let m1 = r1.map_values(f).to_multiset();
        let m2 = r2.map_values(f).to_multiset();
        assert(r1.map_values(f)[0] == f(x));
        assert(r2.map_values(f)[k] == f(x));
        assert(m1.remove(f(x)) =~= m2.remove(f(x)));
        assert(r1.map_values(f).contains(f(x)));
        assert(m1.count(f(x)) > 0);
        assert(r2.map_values(f).contains(f(x)));
        assert(m2.count(f(x)) > 0);
        assert(m1 =~= m2) by {
            assert forall|b: B| m1.count(b) == m2.count(b) by {
                if b == f(x) {
                    assert(m1.remove(f(x)).count(b) == m2.remove(f(x)).count(b));
                } else {
                    assert(m1.remove(f(x)).count(b) == m2.remove(f(x)).count(b));
                }
            }
        }
    }
}

/// A rearranged record set decodes to the rearranged notes.
pub proof fn lemma_decode_all_permutation(r1: Seq<Seq<char>>, r2: Seq<Seq<char>>)
    requires
        r1.to_multiset() == r2.to_multiset(),
        decode_all(r1) is Ok,
        decode_all(r2) is Ok,
    ensures
        decode_all(r1).unwrap().to_multiset() == decode_all(r2).unwrap().to_multiset(),
{
    broadcast use vstd::seq_lib::group_to_multiset_ensures;

    let f = |t: Seq<char>| decode_text_spec(t).unwrap();
    lemma_decode_all_elementwise(r1);
    lemma_decode_all_elementwise(r2);
    assert(decode_all(r1).unwrap() =~= r1.map_values(f));
    assert(decode_all(r2).unwrap() =~= r2.map_values(f));
    lemma_map_multiset(f, r1, r2);
}

/// Build determinism, from the records down: two record sets that hold the
/// same records, in whatever order, call for identical edge sets.
pub proof fn lemma_build_deterministic_records(r1: Seq<Seq<char>>, r2: Seq<Seq<char>>)
    requires
        r1.to_multiset() == r2.to_multiset(),
        decode_all(r1) is Ok,
        decode_all(r2) is Ok,
    ensures
        ({
            let c1 = decode_all(r1).unwrap();
            let c2 = decode_all(r2).unwrap();
            (own_pairs(c1) + cause_pairs(c1)).to_set() == (own_pairs(c2) + cause_pairs(
                c2,
            )).to_set()
        }),
{
    lemma_decode_all_permutation(r1, r2);
    lemma_build_deterministic(decode_all(r1).unwrap(), decode_all(r2).unwrap());
}

/// Builds the site from record texts: decodes every record, failing fast
/// on the first malformed one; inserts every note before any edge, so that
/// forward references resolve; then adds one `Own` edge per `parent`
/// reference and one `Cause` edge per `previous` reference, in record
/// order.  A reference to an id no record carries, like a duplicate id, is
/// fatal to the whole build.  An empty record set yields the empty site.
pub fn build_site(records: &Vec<String>) -> (r: Result<Site, IndexError>)
    ensures
        match r {
            Ok(site) => site.wf() && match decode_all(records.deep_view()) {
                Ok(cns) => {
                    &&& !has_duplicate_id(cns)
                    &&& refs_ok(cns)
                    &&& site.nodes().len() == cns.len()
                    &&& forall|j: int|
                        0 <= j < cns.len() ==> (#[trigger] site.nodes()[j])@ == cns[j].note
                    &&& site.edges_ids() == own_pairs(cns) + cause_pairs(cns)
                    &&& site.top_levels@ == top_ids(cns)
                },
                Err(_) => false,
            },
            Err(IndexError::Format(e)) => decode_all(records.deep_view()) == Err::<
                Seq<ConnectedNoteView>,
                FormatError,
            >(e),
            Err(IndexError::DuplicateId(d)) => match decode_all(records.deep_view()) {
                Ok(cns) => duplicated_id(cns, d),
                Err(_) => false,
            },
            Err(IndexError::UnknownId(id)) => match decode_all(records.deep_view()) {
                Ok(cns) => !has_duplicate_id(cns) && !id_present(cns, id) && !refs_ok(cns),
                Err(_) => false,
            },
            Err(IndexError::TooLarge) => match decode_all(records.deep_view()) {
                Ok(cns) => cns.len() >= u32::MAX as usize || own_pairs(cns).len() + cause_pairs(
                    cns,
                ).len() >= u32::MAX as int,
                Err(_) => false,
            },
        },
{
    let cns = match decode_records(records) {
        Ok(c) => c,
        Err(e) => {
            return Err(IndexError::Format(e));
        },
    };
    if cns.len() >= u32::MAX as usize {
        return Err(IndexError::TooLarge);
    }
    let mut site = Site::new();
    match insert_notes(&mut site, &cns) {
        Ok(()) => {},
        Err(e) => {
            return Err(e);
        },
    }
    match add_own_edges(&mut site, &cns) {
        Ok(()) => {},
        Err(e) => {
            return Err(e);
        },
    }
    match add_cause_edges(&mut site, &cns) {
        Ok(()) => {},
        Err(e) => {
            return Err(e);
        },
    }
    Ok(site)
}

} // verus!
