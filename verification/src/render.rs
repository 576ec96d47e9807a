//! The renderer: the markup fragment for a note and its owned children.
//!
//! Rendering is a pure function of the graph.  A note's own block carries
//! its identity, optional title, creation time and latest update time, a
//! display hue derived from its id through a fixed hash (cosmetic only),
//! and its body; the blocks of its owned children follow, sorted by their
//! creation time ascending, each wrapped in a link to the child's own page.

use vstd::multiset::Multiset;
use vstd::prelude::*;
use vstd::string::StringExecFns;

use crate::graph::{graph_node_at, Connection};
use crate::note::{ContentView, Note, NoteContent, NoteView};
use crate::site::Site;
use crate::text::{chars_to_string, dec_chars, u32_to_chars};
use crate::ts::{format_display, local_display_of, Timestamp};

verus! {

/// The display hue of a note: its id sent through a fixed multiplicative
/// hash onto 0..360.  Cosmetic only; nothing else depends on it.
pub open spec fn hue_of(id: u32) -> u32 {
    (((id as nat) * 2654435761) % 4294967296 % 360) as u32
}

/// Computes the display hue.
pub fn hue(id: u32) -> (r: u32)
    ensures
        r == hue_of(id),
{
    let wide: u64 = (id as u64) * 2654435761u64;
    let r: u64 = wide % 4294967296u64 % 360u64;
    proof {
        assert((id as nat) * 2654435761 == (id as u64) * 2654435761 as nat) by (nonlinear_arith);
    }
    r as u32
}

/// The latest of a non-empty run of timestamps; on ties the later entry
/// wins, as the original iteration did.
pub open spec fn latest_of(s: Seq<Timestamp>) -> Timestamp
    decreases s.len(),
{
    if s.len() <= 1 {
        s[0]
    } else {
        let m = latest_of(s.drop_last());
        if m.le(s.last()) {
            s.last()
        } else {
            m
        }
    }
}

/// Picks the latest update time.
pub fn latest_update(s: &Vec<Timestamp>) -> (r: Timestamp)
    requires
        s@.len() > 0,
    ensures
        r == latest_of(s@),
{
    let mut cur: Timestamp = s[0];
    let mut i: usize = 1;
    proof {
        assert(s@.take(1)[0] == s@[0]);
    }
    while i < s.len()
        invariant
            1 <= i <= s@.len(),
            cur == latest_of(s@.take(i as int)),
        decreases s@.len() - i,
    {
        proof {
            assert(s@.take(i as int + 1).drop_last() =~= s@.take(i as int));
            assert(s@.take(i as int + 1).last() == s@[i as int]);
        }
        if cur.le_exec(&s[i]) {
            cur = s[i];
        }
        i = i + 1;
    }
    assert(s@.take(s@.len() as int) =~= s@);
    cur
}

/// The markup of a note's own block.
pub open spec fn self_block_spec(nv: NoteView, current: bool, url: Seq<char>) -> Seq<char> {
    let id_div = "<div class=\"note-id\"><small>@"@ + dec_chars(nv.id as nat) + (
    match nv.alternative {
        Some(a) => " ("@ + a + ")"@,
        None => Seq::<char>::empty(),
    }) + "</small></div>"@;
    let title_h = (match nv.title {
        Some(t) => "<h1>"@ + t + "</h1>"@,
        None => Seq::<char>::empty(),
    });
    let updated = if nv.update_at.len() == 0 {
        Seq::<char>::empty()
    } else {
        let u = latest_of(nv.update_at);
        " / "@ + local_display_of(u.secs, u.nanos, u.offset_secs)
    };
    let c = nv.create_at;
    let metadata = "<p class=\"metadata sans-serif\">"@ + local_display_of(
        c.secs,
        c.nanos,
        c.offset_secs,
    ) + updated + "</p>"@;
    let body = (match nv.content {
        ContentView::PlainText(ps) => paragraph_blocks(ps),
        ContentView::Image(path) => "<img src=\""@ + url + "/"@ + path + "\">"@,
    });
    "<div class=\"note "@ + (if current {
        "current"@
    } else {
        "child"@
    }) + "\" style=\"background: hsla("@ + dec_chars(hue_of(nv.id) as nat)
        + " 100 99 / 0.8);\">"@ + id_div + title_h + metadata + "<hr>"@ + body + "</div>"@
}

/// The markup of the paragraphs, one `p` element each.
pub open spec fn paragraph_blocks(ps: Seq<Seq<char>>) -> Seq<char>
    decreases ps.len(),
{
    if ps.len() == 0 {
        Seq::empty()
    } else {
        "<p>"@ + ps[0] + "</p>"@ + paragraph_blocks(ps.drop_first())
    }
}

/// Writes the own block of one note.
#[verifier::loop_isolation(false)]
#[verifier::rlimit(100)]
pub fn render_single(note: &Note, current: bool, site_url: &str) -> (r: String)
    requires
        note@.wf(),
    ensures
        r@ == self_block_spec(note@, current, site_url@),
{
    let ghost nv = note@;
    let mut s = String::new();
    s.append("<div class=\"note ");
    if current {
        s.append("current");
    } else {
        s.append("child");
    }
    s.append("\" style=\"background: hsla(");
    let h = hue(note.id);
    s.append(chars_to_string(&u32_to_chars(h)).as_str());
    s.append(" 100 99 / 0.8);\">");
    let ghost g1 = "<div class=\"note "@ + (if current {
        "current"@
    } else {
        "child"@
    }) + "\" style=\"background: hsla("@ + dec_chars(hue_of(nv.id) as nat)
        + " 100 99 / 0.8);\">"@;
    proof {
        assert(s@ =~= g1);
    }
    s.append("<div class=\"note-id\"><small>@");
    s.append(chars_to_string(&u32_to_chars(note.id)).as_str());
    match &note.alternative {
        Some(a) => {
            s.append(" (");
            s.append(a.as_str());
            s.append(")");
        },
        None => {},
    }
    s.append("</small></div>");
    let ghost idv = "<div class=\"note-id\"><small>@"@ + dec_chars(nv.id as nat) + (
    match nv.alternative {
        Some(a) => " ("@ + a + ")"@,
        None => Seq::<char>::empty(),
    }) + "</small></div>"@;
    proof {
        assert(s@ =~= g1 + idv);
    }
    match &note.title {
        Some(t) => {
            s.append("<h1>");
            s.append(t.as_str());
            s.append("</h1>");
        },
        None => {},
    }
    let ghost th = (match nv.title {
        Some(t) => "<h1>"@ + t + "</h1>"@,
        None => Seq::<char>::empty(),
    });
    proof {
        assert(s@ =~= g1 + idv + th);
    }
    s.append("<p class=\"metadata sans-serif\">");
    s.append(format_display(&note.create_at).as_str());
    if note.update_at.len() > 0 {
        s.append(" / ");
        let u = latest_update(&note.update_at);
        proof {
            assert forall|j: int| 0 <= j < note.update_at@.len() implies (
            #[trigger] note.update_at@[j]).wf() by {
                assert(nv.update_at[j].wf());
            }
            lemma_latest_wf(note.update_at@);
        }
        s.append(format_display(&u).as_str());
    }
    s.append("</p>");
    let ghost md = "<p class=\"metadata sans-serif\">"@ + local_display_of(
        nv.create_at.secs,
        nv.create_at.nanos,
        nv.create_at.offset_secs,
    ) + (if nv.update_at.len() == 0 {
        Seq::<char>::empty()
    } else {
        " / "@ + local_display_of(
            latest_of(nv.update_at).secs,
            latest_of(nv.update_at).nanos,
            latest_of(nv.update_at).offset_secs,
        )
    }) + "</p>"@;
    proof {
        assert(s@ =~= g1 + idv + th + md);
    }
    s.append("<hr>");
    let ghost g2 = g1 + idv + th + md + "<hr>"@;
    proof {
        assert(s@ =~= g2);
    }
    match &note.content {
        NoteContent::PlainText(ps) => {
            let ghost pv = ps.deep_view();
            let ghost sofar = s@;
            proof {
                assert(sofar == g2);
            }
            let mut k: usize = 0;
            proof {
                assert(pv.skip(0) =~= pv);
                assert(s@ + paragraph_blocks(pv) =~= sofar + paragraph_blocks(pv.skip(0)));
            }
            while k < ps.len()
                invariant
                    k <= pv.len(),
                    pv == ps.deep_view(),
                    sofar + paragraph_blocks(pv) == s@ + paragraph_blocks(pv.skip(k as int)),
                decreases pv.len() - k,
            {
                let ghost before = s@;
                s.append("<p>");
                s.append(ps[k].as_str());
                s.append("</p>");
                proof {
                    assert(pv[k as int] == ps@[k as int]@);
                    assert(pv.skip(k as int).drop_first() =~= pv.skip(k as int + 1));
                    assert(paragraph_blocks(pv.skip(k as int)) == "<p>"@ + pv[k as int] + "</p>"@
                        + paragraph_blocks(pv.skip(k as int + 1)));
                    assert(s@ =~= before + ("<p>"@ + pv[k as int] + "</p>"@));
                    assert(s@ + paragraph_blocks(pv.skip(k as int + 1)) =~= before
                        + paragraph_blocks(pv.skip(k as int)));
                }
                k = k + 1;
            }
            proof {
                assert(pv.skip(pv.len() as int) =~= Seq::<Seq<char>>::empty());
                assert(paragraph_blocks(Seq::<Seq<char>>::empty()) =~= Seq::<char>::empty());
                assert(s@ + Seq::<char>::empty() =~= s@);
                assert(s@ =~= g2 + paragraph_blocks(pv));
            }
        },
        NoteContent::Image(path) => {
            s.append("<img src=\"");
            s.append(site_url);
            s.append("/");
            s.append(path.as_str());
            s.append("\">");
            proof {
                assert(s@ =~= g2 + ("<img src=\""@ + site_url@ + "/"@ + path@ + "\">"@));
            }
        },
    }
    s.append("</div>");
    proof {
        assert(s@ =~= self_block_spec(nv, current, site_url@));
    }
    s
}

/// The creation time of the note at a position.
pub open spec fn create_of(notes: Seq<Note>, p: usize) -> Timestamp {
    notes[p as int].create_at
}

/// Positions in creation-time order, ascending.
pub open spec fn sorted_by_create(notes: Seq<Note>, s: Seq<usize>) -> bool {
    forall|i: int, j: int|
        0 <= i < j < s.len() ==> create_of(notes, #[trigger] s[i]).le(
            create_of(notes, #[trigger] s[j]),
        )
}

/// Inserts a position into a sorted run: after every entry at or before
/// its creation time, before the first strictly later one.
pub open spec fn ins_child(notes: Seq<Note>, sorted: Seq<usize>, x: usize) -> Seq<usize>
    decreases sorted.len(),
{
    if sorted.len() == 0 {
        seq![x]
    } else if create_of(notes, sorted[0]).le(create_of(notes, x)) {
        seq![sorted[0]] + ins_child(notes, sorted.drop_first(), x)
    } else {
        seq![x] + sorted
    }
}

/// The positions sorted by creation time, ascending; entries with equal
/// times keep their relative order.
pub open spec fn sort_children(notes: Seq<Note>, s: Seq<usize>) -> Seq<usize>
    decreases s.len(),
{
    if s.len() == 0 {
        Seq::empty()
    } else {
        ins_child(notes, sort_children(notes, s.drop_last()), s.last())
    }
}

/// Inserting keeps the run sorted, adds exactly the new position, and
/// invents no entry.
proof fn lemma_ins_child(notes: Seq<Note>, sorted: Seq<usize>, x: usize)
    requires
        sorted_by_create(notes, sorted),
    ensures
        sorted_by_create(notes, ins_child(notes, sorted, x)),
        ins_child(notes, sorted, x).to_multiset() == sorted.to_multiset().insert(x),
        ins_child(notes, sorted, x).len() == sorted.len() + 1,
        forall|k: int|
            0 <= k < ins_child(notes, sorted, x).len() ==> (#[trigger] ins_child(
                notes,
                sorted,
                x,
            )[k]) == x || sorted.contains(ins_child(notes, sorted, x)[k]),
    decreases sorted.len(),
{
    broadcast use vstd::seq_lib::group_seq_lib_default;
    broadcast use vstd::multiset::group_multiset_axioms;
    broadcast use vstd::seq_lib::group_to_multiset_ensures;

    let r = ins_child(notes, sorted, x);
    if sorted.len() == 0 {
        assert(r =~= sorted.push(x));
        vstd::seq_lib::to_multiset_build(sorted, x);
    } else if create_of(notes, sorted[0]).le(create_of(notes, x)) {
        let s0 = sorted[0];
        let tail = sorted.drop_first();
        assert forall|i: int, j: int| 0 <= i < j < tail.len() implies create_of(
            notes,
            #[trigger] tail[i],
        ).le(create_of(notes, #[trigger] tail[j])) by {
            assert(tail[i] == sorted[i + 1]);
            assert(tail[j] == sorted[j + 1]);
        }
        lemma_ins_child(notes, tail, x);
        let rt = ins_child(notes, tail, x);
        assert(r == seq![s0] + rt);
        // Every entry of the result after the head is at or after the head.
        assert forall|i: int, j: int| 0 <= i < j < r.len() implies create_of(
            notes,
            #[trigger] r[i],
        ).le(create_of(notes, #[trigger] r[j])) by {
            if i == 0 {
                assert(r[j] == rt[j - 1]);
                if rt[j - 1] == x {
                } else {
                    assert(tail.contains(rt[j - 1]));
                    let m = choose|m: int| 0 <= m < tail.len() && tail[m] == rt[j - 1];
                    assert(tail[m] == sorted[m + 1]);
                    assert(create_of(notes, sorted[0]).le(create_of(notes, sorted[m + 1])));
                }
            } else {
                assert(r[i] == rt[i - 1]);
                assert(r[j] == rt[j - 1]);
            }
        }
        assert(r.to_multiset() =~= sorted.to_multiset().insert(x)) by {
            vstd::seq_lib::lemma_multiset_commutative(seq![s0], rt);
            vstd::seq_lib::lemma_multiset_commutative(seq![s0], tail);
            assert(seq![s0] + tail =~= sorted);
            assert(r.to_multiset() =~= seq![s0].to_multiset().add(
                tail.to_multiset().insert(x),
            ));
            assert(seq![s0].to_multiset().add(tail.to_multiset().insert(x)) =~= (
            seq![s0].to_multiset().add(tail.to_multiset())).insert(x));
        }
        assert forall|k: int| 0 <= k < r.len() implies (#[trigger] r[k]) == x || sorted.contains(
            r[k],
        ) by {
            if k == 0 {
                assert(sorted[0] == r[0]);
            } else {
                assert(r[k] == rt[k - 1]);
                if rt[k - 1] != x {
                    assert(tail.contains(rt[k - 1]));
                    let m = choose|m: int| 0 <= m < tail.len() && tail[m] == rt[k - 1];
                    assert(sorted[m + 1] == rt[k - 1]);
                }
            }
        }
    } else {
        assert(r == seq![x] + sorted);
        assert forall|i: int, j: int| 0 <= i < j < r.len() implies create_of(
            notes,
            #[trigger] r[i],
        ).le(create_of(notes, #[trigger] r[j])) by {
            if i == 0 {
                assert(r[j] == sorted[j - 1]);
                if j == 1 {
                } else {
                    assert(create_of(notes, sorted[0]).le(create_of(notes, sorted[j - 1])));
                }
            } else {
                assert(r[i] == sorted[i - 1]);
                assert(r[j] == sorted[j - 1]);
            }
        }
        assert(r.to_multiset() =~= sorted.to_multiset().insert(x)) by {
            vstd::seq_lib::lemma_multiset_commutative(seq![x], sorted);
            assert(seq![x] =~= Seq::<usize>::empty().push(x));
            vstd::seq_lib::to_multiset_build(Seq::<usize>::empty(), x);
            assert(Seq::<usize>::empty().to_multiset() =~= Multiset::<usize>::empty());
            assert(seq![x].to_multiset() =~= Multiset::<usize>::empty().insert(x));
        }
        assert forall|k: int| 0 <= k < r.len() implies (#[trigger] r[k]) == x || sorted.contains(
            r[k],
        ) by {
            if k > 0 {
                assert(sorted[k - 1] == r[k]);
            }
        }
    }
}

/// Rendering order: the sorted children are exactly the children — the
/// same positions, the same number of times — ordered by creation time
/// ascending, whatever order the edges came in.
pub proof fn lemma_sort_children(notes: Seq<Note>, s: Seq<usize>)
    ensures
        sort_children(notes, s).to_multiset() == s.to_multiset(),
        sort_children(notes, s).len() == s.len(),
        sorted_by_create(notes, sort_children(notes, s)),
        forall|k: int|
            0 <= k < sort_children(notes, s).len() ==> s.contains(
                #[trigger] sort_children(notes, s)[k],
            ),
    decreases s.len(),
{
    broadcast use vstd::seq_lib::group_seq_lib_default;
    broadcast use vstd::multiset::group_multiset_axioms;
    broadcast use vstd::seq_lib::group_to_multiset_ensures;

    if s.len() == 0 {
        assert(sort_children(notes, s) =~= s);
    } else {
        let front = s.drop_last();
        lemma_sort_children(notes, front);
        let sf = sort_children(notes, front);
        lemma_ins_child(notes, sf, s.last());
        let r = sort_children(notes, s);
        assert(r == ins_child(notes, sf, s.last()));
        assert(r.to_multiset() =~= s.to_multiset()) by {
            assert(r.to_multiset() == sf.to_multiset().insert(s.last()));
            assert(front.push(s.last()) =~= s);
            vstd::seq_lib::to_multiset_build(front, s.last());
        }
        assert forall|k: int| 0 <= k < r.len() implies s.contains(#[trigger] r[k]) by {
            if r[k] == s.last() {
                assert(s[s.len() - 1] == s.last());
            } else {
                assert(sf.contains(r[k]));
                let m = choose|m: int| 0 <= m < sf.len() && sf[m] == r[k];
                assert(front.contains(sf[m]));
                let m2 = choose|m2: int| 0 <= m2 < front.len() && front[m2] == sf[m];
                assert(s[m2] == r[k]);
            }
        }
    }
}

/// Inserting at the scanned position matches `ins_child`.
proof fn lemma_ins_child_at(notes: Seq<Note>, sorted: Seq<usize>, x: usize, idx: int)
    requires
        0 <= idx <= sorted.len(),
        forall|j: int|
            0 <= j < idx ==> create_of(notes, #[trigger] sorted[j]).le(create_of(notes, x)),
        idx < sorted.len() ==> !create_of(notes, sorted[idx]).le(create_of(notes, x)),
    ensures
        ins_child(notes, sorted, x) == sorted.insert(idx, x),
    decreases idx,
{
    if idx == 0 {
        if sorted.len() == 0 {
            assert(ins_child(notes, sorted, x) =~= sorted.insert(0, x));
        } else {
            assert(ins_child(notes, sorted, x) =~= sorted.insert(0, x));
        }
    } else {
        let tail = sorted.drop_first();
        assert(create_of(notes, sorted[0]).le(create_of(notes, x)));
        assert forall|j: int| 0 <= j < idx - 1 implies create_of(notes, #[trigger] tail[j]).le(
            create_of(notes, x),
        ) by {
            assert(tail[j] == sorted[j + 1]);
        }
        if idx - 1 < tail.len() {
            assert(tail[idx - 1] == sorted[idx]);
        }
        lemma_ins_child_at(notes, tail, x, idx - 1);
        assert(seq![sorted[0]] + tail.insert(idx - 1, x) =~= sorted.insert(idx, x));
    }
}

/// Sorts child positions by creation time, ascending and stable.
fn sort_child_positions(site: &Site, kids: &Vec<usize>) -> (r: Vec<usize>)
    requires
        site.wf(),
        forall|j: int| 0 <= j < kids@.len() ==> (#[trigger] kids@[j]) < site.nodes().len(),
    ensures
        r@ == sort_children(site.nodes(), kids@),
        forall|j: int| 0 <= j < r@.len() ==> (#[trigger] r@[j]) < site.nodes().len(),
{
    let ghost notes = site.nodes();
    let mut out: Vec<usize> = Vec::new();
    let mut i: usize = 0;
    proof {
        assert(kids@.take(0) =~= Seq::<usize>::empty());
    }
    while i < kids.len()
        invariant
            i <= kids@.len(),
            site.wf(),
            notes == site.nodes(),
            forall|j: int| 0 <= j < kids@.len() ==> (#[trigger] kids@[j]) < notes.len(),
            out@ == sort_children(notes, kids@.take(i as int)),
            forall|j: int| 0 <= j < out@.len() ==> (#[trigger] out@[j]) < notes.len(),
            sorted_by_create(notes, out@),
        decreases kids@.len() - i,
    {
        let x = kids[i];
        let x_note = graph_node_at(&site.notes, x);
        let x_create = x_note.create_at;
        let mut idx: usize = 0;
        let mut searching: bool = true;
        while searching && idx < out.len()
            invariant
                idx <= out@.len(),
                site.wf(),
                notes == site.nodes(),
                x < notes.len(),
                x_create == create_of(notes, x),
                forall|j: int| 0 <= j < out@.len() ==> (#[trigger] out@[j]) < notes.len(),
                forall|j: int|
                    0 <= j < idx ==> create_of(notes, #[trigger] out@[j]).le(
                        create_of(notes, x),
                    ),
                !searching ==> idx < out@.len() && !create_of(notes, out@[idx as int]).le(
                    create_of(notes, x),
                ),
            decreases out@.len() - idx, (if searching {
                1int
            } else {
                0int
            }),
        {
            let entry_note = graph_node_at(&site.notes, out[idx]);
            if entry_note.create_at.le_exec(&x_create) {
                idx = idx + 1;
            } else {
                searching = false;
            }
        }
        proof {
            lemma_ins_child_at(notes, out@, x, idx as int);
            assert(kids@.take(i as int + 1).drop_last() =~= kids@.take(i as int));
            assert(kids@.take(i as int + 1).last() == kids@[i as int]);
            lemma_ins_child(notes, out@, x);
        }
        out.insert(idx, x);
        proof {
            assert forall|j: int| 0 <= j < out@.len() implies (#[trigger] out@[j]) < notes.len()
                by {
                assert(out@ == ins_child(notes, sort_children(notes, kids@.take(i as int)), x));
            }
        }
        i = i + 1;
    }
    assert(kids@.take(kids@.len() as int) =~= kids@);
    out
}

/// The markup of the child blocks, in order: each child's block wrapped in
/// a link to its own page, addressed by alias if present, else by id.
pub open spec fn child_blocks(notes: Seq<Note>, kids: Seq<usize>, url: Seq<char>) -> Seq<char>
    decreases kids.len(),
{
    if kids.len() == 0 {
        Seq::empty()
    } else {
        let nv = notes[kids[0] as int]@;
        "<a href="@ + url + "/"@ + (match nv.alternative {
            Some(a) => a,
            None => dec_chars(nv.id as nat),
        }) + " style=\"color: inherit; text-decoration: inherit;\">"@ + self_block_spec(
            nv,
            false,
            url,
        ) + "</a>"@ + child_blocks(notes, kids.drop_first(), url)
    }
}

/// The markup for a note and its owned children: the note's own block,
/// then one child block per note reachable over an outgoing `Own` edge,
/// sorted by the children's creation times ascending.
pub open spec fn render_spec(s: Site, id: u32, url: Seq<char>) -> Seq<char> {
    let p = s.pos_of(id);
    let kids = sort_children(
        s.nodes(),
        crate::site::own_sources(crate::graph::outgoing_of(s.edges(), p as usize)),
    );
    self_block_spec(s.nodes()[p]@, true, url) + child_blocks(s.nodes(), kids, url)
}

/// Writes the markup for a note and its owned children.  Reads the graph
/// only: any asset copying belongs to the caller.
#[verifier::loop_isolation(false)]
#[verifier::rlimit(60)]
pub fn render(site: &Site, id: u32, site_url: &str) -> (r: String)
    requires
        site.wf(),
        site.has_id(id),
    ensures
        r@ == render_spec(*site, id, site_url@),
{
    let p: usize = *site.note_indexes.get(&id).unwrap();
    proof {
        assert(site.nodes()[p as int].id == id);
        site.lemma_pos_of(p as int);
    }
    let rv = crate::graph::graph_edges_outgoing(&site.notes, p);
    let out_list = crate::site::reverse_pairs(&rv);
    let ghost out_s = crate::graph::outgoing_of(site.edges(), p);
    proof {
        assert(out_list@ =~= out_s);
        crate::site::lemma_outgoing_bounded(site.edges(), p, site.nodes().len() as nat);
    }
    // Collect the targets of the outgoing `Own` edges, in edge order.
    let mut kids: Vec<usize> = Vec::new();
    let ghost mut built: Seq<usize> = Seq::empty();
    let mut k: usize = 0;
    proof {
        assert(out_s.skip(0) =~= out_s);
        assert(crate::site::own_sources(out_s) =~= built + crate::site::own_sources(
            out_s.skip(0),
        ));
    }
    while k < out_list.len()
        invariant
            k <= out_s.len(),
            out_list@ == out_s,
            forall|j: int| 0 <= j < out_s.len() ==> (#[trigger] out_s[j]).0
                < site.nodes().len(),
            crate::site::own_sources(out_s) == built + crate::site::own_sources(
                out_s.skip(k as int),
            ),
            kids@ == built,
            forall|j: int| 0 <= j < built.len() ==> (#[trigger] built[j]) < site.nodes().len(),
        decreases out_s.len() - k,
    {
        proof {
            assert(out_s.skip(k as int)[0] == out_s[k as int]);
            assert(out_s.skip(k as int).drop_first() =~= out_s.skip(k as int + 1));
        }
        let entry = out_list[k];
        match entry.1 {
            Connection::Own => {
                kids.push(entry.0);
                proof {
                    assert(crate::site::own_sources(out_s.skip(k as int)) == seq![
                        out_s[k as int].0,
                    ] + crate::site::own_sources(out_s.skip(k as int + 1)));
                    assert(built.push(out_s[k as int].0) + crate::site::own_sources(
                        out_s.skip(k as int + 1),
                    ) =~= built + crate::site::own_sources(out_s.skip(k as int)));
                    built = built.push(out_s[k as int].0);
                }
            },
            Connection::Cause => {},
        }
        k = k + 1;
    }
    proof {
        assert(out_s.skip(out_s.len() as int) =~= Seq::<(usize, Connection)>::empty());
        assert(crate::site::own_sources(out_s) =~= built);
    }
    let sorted = sort_child_positions(site, &kids);
    let self_note = graph_node_at(&site.notes, p);
    let mut s = render_single(self_note, true, site_url);
    let ghost head = self_block_spec(site.nodes()[p as int]@, true, site_url@);
    let ghost kid_s = sorted@;
    let mut k2: usize = 0;
    proof {
        assert(kid_s.skip(0) =~= kid_s);
        assert(head + child_blocks(site.nodes(), kid_s, site_url@) =~= s@ + child_blocks(
            site.nodes(),
            kid_s.skip(0),
            site_url@,
        ));
    }
    while k2 < sorted.len()
        invariant
            k2 <= kid_s.len(),
            kid_s == sorted@,
            forall|j: int| 0 <= j < kid_s.len() ==> (#[trigger] kid_s[j])
                < site.nodes().len(),
            head + child_blocks(site.nodes(), kid_s, site_url@) == s@ + child_blocks(
                site.nodes(),
                kid_s.skip(k2 as int),
                site_url@,
            ),
        decreases kid_s.len() - k2,
    {
        proof {
            assert(kid_s.skip(k2 as int)[0] == kid_s[k2 as int]);
            assert(kid_s.skip(k2 as int).drop_first() =~= kid_s.skip(k2 as int + 1));
        }
        let ghost before = s@;
        let child = graph_node_at(&site.notes, sorted[k2]);
        let ghost cv = site.nodes()[kid_s[k2 as int] as int]@;
        s.append("<a href=");
        s.append(site_url);
        s.append("/");
        match &child.alternative {
            Some(a) => {
                s.append(a.as_str());
            },
            None => {
                s.append(chars_to_string(&u32_to_chars(child.id)).as_str());
            },
        }
        s.append(" style=\"color: inherit; text-decoration: inherit;\">");
        let block = render_single(child, false, site_url);
        s.append(block.as_str());
        s.append("</a>");
        proof {
            let piece = "<a href="@ + site_url@ + "/"@ + (match cv.alternative {
                Some(a) => a,
                None => dec_chars(cv.id as nat),
            }) + " style=\"color: inherit; text-decoration: inherit;\">"@ + self_block_spec(
                cv,
                false,
                site_url@,
            ) + "</a>"@;
            assert(s@ =~= before + piece);
            assert(child_blocks(site.nodes(), kid_s.skip(k2 as int), site_url@) == piece
                + child_blocks(site.nodes(), kid_s.skip(k2 as int + 1), site_url@));
            assert(s@ + child_blocks(site.nodes(), kid_s.skip(k2 as int + 1), site_url@)
                =~= before + child_blocks(site.nodes(), kid_s.skip(k2 as int), site_url@));
        }
        k2 = k2 + 1;
    }
    proof {
        assert(kid_s.skip(kid_s.len() as int) =~= Seq::<usize>::empty());
        assert(child_blocks(site.nodes(), Seq::<usize>::empty(), site_url@) =~= Seq::<
            char,
        >::empty());
        assert(s@ + Seq::<char>::empty() =~= s@);
        assert(s@ =~= render_spec(*site, id, site_url@));
    }
    s
}

/// The latest of well-formed timestamps is well formed.
proof fn lemma_latest_wf(s: Seq<Timestamp>)
    requires
        s.len() > 0,
        forall|j: int| 0 <= j < s.len() ==> (#[trigger] s[j]).wf(),
    ensures
        latest_of(s).wf(),
    decreases s.len(),
{
    if s.len() > 1 {
        assert forall|j: int| 0 <= j < s.drop_last().len() implies (
        #[trigger] s.drop_last()[j]).wf() by {
            assert(s.drop_last()[j] == s[j]);
        }
        lemma_latest_wf(s.drop_last());
    }
}

} // verus!
