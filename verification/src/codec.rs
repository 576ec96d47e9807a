//! The record codec: one note record as text, and back.
//!
//! A record is a header of `key` / `value` line pairs — with two standalone
//! marker lines, `top level` and `image`, that take no value — ended by a
//! blank line, followed by a body of paragraphs (or, after the `image`
//! marker, the single asset path).  `decode_text_spec` says exactly what
//! reading a text yields; `decode` and `encode` are proved against it, and
//! encoding then decoding gives the note back unchanged.

use vstd::prelude::*;

use crate::note::{ConnectedNote, ConnectedNoteView, ContentView, Note, NoteContent, NoteView};
use crate::text::{
    chars_eq_str, chars_to_string, dec_chars, join_lines, join_to_string, line_split, nl_free,
    parse_u32, parse_u32_spec, split_lines, str_chars, trim_chars, trimmed, u32_to_chars,
    value_ok,
};
use crate::text::{lemma_line_split_nl_free, lemma_trimmed_value, trim_front};
use crate::ts::{format_rfc3339, parse_rfc3339, rfc3339_of, rfc3339_parse, Timestamp};

verus! {

/// Why one record failed to decode.
#[derive(Clone, Copy, Debug, PartialEq, Eq, Structural)]
pub enum FormatError {
    /// A header line is not a recognized key or marker.
    UnknownKey,
    /// A key line is not followed by a non-blank value line.
    MissingValue,
    /// An `id`, `parent` or `previous` value is not a number that fits.
    BadInt,
    /// A `create` or `update` value is not a date-time the codec accepts.
    BadTimestamp,
    /// The required `id` key never appeared.
    MissingId,
    /// The required `create` key never appeared.
    MissingCreate,
    /// The `image` marker appeared but the body holds no path line.
    MissingImagePath,
    /// The `image` marker appeared but the body holds more than one line.
    ExtraImageBody,
}

/// What the header has said so far, while its lines are read.
pub struct HeaderAcc {
    /// The `id` value, once seen.
    pub id: Option<u32>,
    /// The `alternative` value, once seen.
    pub alternative: Option<Seq<char>>,
    /// The `create` value, once seen.
    pub create_at: Option<Timestamp>,
    /// The `update` values, in encounter order.
    pub update_at: Seq<Timestamp>,
    /// The `title` value, once seen.
    pub title: Option<Seq<char>>,
    /// The `parent` value, once seen.
    pub parent_id: Option<u32>,
    /// The `previous` values, in encounter order.
    pub previous_ids: Seq<u32>,
    /// Whether the `top level` marker has been seen.
    pub top_level: bool,
    /// Whether the `image` marker has been seen.
    pub image: bool,
}

/// The state before any header line is read.
pub open spec fn empty_acc() -> HeaderAcc {
    HeaderAcc {
        id: None,
        alternative: None,
        create_at: None,
        update_at: Seq::empty(),
        title: None,
        parent_id: None,
        previous_ids: Seq::empty(),
        top_level: false,
        image: false,
    }
}

impl HeaderAcc {
    /// The state with the `id` value set.
    pub open spec fn with_id(self, n: u32) -> HeaderAcc {
        HeaderAcc { id: Some(n), ..self }
    }

    /// The state with the `alternative` value set.
    pub open spec fn with_alternative(self, a: Seq<char>) -> HeaderAcc {
        HeaderAcc { alternative: Some(a), ..self }
    }

    /// The state with the `create` value set.
    pub open spec fn with_create(self, t: Timestamp) -> HeaderAcc {
        HeaderAcc { create_at: Some(t), ..self }
    }

    /// The state with one more `update` value.
    pub open spec fn with_update(self, t: Timestamp) -> HeaderAcc {
        HeaderAcc { update_at: self.update_at.push(t), ..self }
    }

    /// The state with the `title` value set.
    pub open spec fn with_title(self, t: Seq<char>) -> HeaderAcc {
        HeaderAcc { title: Some(t), ..self }
    }

    /// The state with the `parent` value set.
    pub open spec fn with_parent(self, n: u32) -> HeaderAcc {
        HeaderAcc { parent_id: Some(n), ..self }
    }

    /// The state with one more `previous` value.
    pub open spec fn with_previous(self, n: u32) -> HeaderAcc {
        HeaderAcc { previous_ids: self.previous_ids.push(n), ..self }
    }

    /// The state with the `top level` marker seen.
    pub open spec fn with_top_level(self) -> HeaderAcc {
        HeaderAcc { top_level: true, ..self }
    }

    /// The state with the `image` marker seen.
    pub open spec fn with_image(self) -> HeaderAcc {
        HeaderAcc { image: true, ..self }
    }
}

/// The header keys that take a value line.
pub open spec fn recognized_key(line: Seq<char>) -> bool {
    ||| line == "id"@
    ||| line == "alternative"@
    ||| line == "create"@
    ||| line == "update"@
    ||| line == "title"@
    ||| line == "parent"@
    ||| line == "previous"@
}

/// Reads header lines from the front of `ls` into `acc` until the blank
/// line (or the end), and hands back the final state and the body lines.
pub open spec fn decode_header(ls: Seq<Seq<char>>, acc: HeaderAcc) -> Result<
    (HeaderAcc, Seq<Seq<char>>),
    FormatError,
>
    decreases ls.len(),
{
    if ls.len() == 0 {
        Ok((acc, Seq::empty()))
    } else {
        let line = trimmed(ls[0]);
        if line.len() == 0 {
            Ok((acc, ls.drop_first()))
        } else if line == "top level"@ {
            decode_header(ls.drop_first(), acc.with_top_level())
        } else if line == "image"@ {
            decode_header(ls.drop_first(), acc.with_image())
        } else if !recognized_key(line) {
            Err(FormatError::UnknownKey)
        } else if ls.len() == 1 || trimmed(ls[1]).len() == 0 {
            Err(FormatError::MissingValue)
        } else {
            let value = trimmed(ls[1]);
            let rest = ls.skip(2);
            if line == "id"@ {
                match parse_u32_spec(value) {
                    Some(n) => decode_header(rest, acc.with_id(n)),
                    None => Err(FormatError::BadInt),
                }
            } else if line == "alternative"@ {
                decode_header(rest, acc.with_alternative(value))
            } else if line == "create"@ {
                match rfc3339_parse(value) {
                    Some(t) => if t.wf() {
                        decode_header(rest, acc.with_create(t))
                    } else {
                        Err(FormatError::BadTimestamp)
                    },
                    None => Err(FormatError::BadTimestamp),
                }
            } else if line == "update"@ {
                match rfc3339_parse(value) {
                    Some(t) => if t.wf() {
                        decode_header(rest, acc.with_update(t))
                    } else {
                        Err(FormatError::BadTimestamp)
                    },
                    None => Err(FormatError::BadTimestamp),
                }
            } else if line == "title"@ {
                decode_header(rest, acc.with_title(value))
            } else if line == "parent"@ {
                match parse_u32_spec(value) {
                    Some(n) => decode_header(rest, acc.with_parent(n)),
                    None => Err(FormatError::BadInt),
                }
            } else {
                match parse_u32_spec(value) {
                    Some(n) => decode_header(rest, acc.with_previous(n)),
                    None => Err(FormatError::BadInt),
                }
            }
        }
    }
}

/// The paragraphs of the body: each line trimmed, blank lines dropped.
pub open spec fn body_paragraphs(ls: Seq<Seq<char>>) -> Seq<Seq<char>>
    decreases ls.len(),
{
    if ls.len() == 0 {
        Seq::empty()
    } else {
        let t = trimmed(ls[0]);
        let rest = body_paragraphs(ls.drop_first());
        if t.len() == 0 {
            rest
        } else {
            seq![t] + rest
        }
    }
}

/// The note a finished header and body stand for.
pub open spec fn assemble(acc: HeaderAcc, content: ContentView) -> ConnectedNoteView {
    ConnectedNoteView {
        note: NoteView {
            id: acc.id.unwrap(),
            alternative: acc.alternative,
            create_at: acc.create_at.unwrap(),
            update_at: acc.update_at,
            title: acc.title,
            content,
        },
        parent_id: acc.parent_id,
        previous_ids: acc.previous_ids,
        top_level: acc.top_level,
    }
}

/// Checks the required keys and reads the body under the chosen content
/// variant.
pub open spec fn finish_decode(acc: HeaderAcc, body: Seq<Seq<char>>) -> Result<
    ConnectedNoteView,
    FormatError,
> {
    if acc.id is None {
        Err(FormatError::MissingId)
    } else if acc.create_at is None {
        Err(FormatError::MissingCreate)
    } else {
        let ps = body_paragraphs(body);
        if acc.image {
            if ps.len() == 0 {
                Err(FormatError::MissingImagePath)
            } else if ps.len() > 1 {
                Err(FormatError::ExtraImageBody)
            } else {
                Ok(assemble(acc, ContentView::Image(ps[0])))
            }
        } else {
            Ok(assemble(acc, ContentView::PlainText(ps)))
        }
    }
}

/// What decoding a sequence of lines yields.
pub open spec fn decode_lines_spec(ls: Seq<Seq<char>>) -> Result<ConnectedNoteView, FormatError> {
    match decode_header(ls, empty_acc()) {
        Ok(pair) => finish_decode(pair.0, pair.1),
        Err(e) => Err(e),
    }
}

/// What decoding a record text yields: the lines of the text, decoded.
pub open spec fn decode_text_spec(s: Seq<char>) -> Result<ConnectedNoteView, FormatError> {
    decode_lines_spec(line_split(s))
}

/// The RFC 3339 line a timestamp is written as.
pub open spec fn ts_text(t: Timestamp) -> Seq<char> {
    rfc3339_of(t.secs, t.nanos, t.offset_secs)
}

/// The written form of a timestamp reads back to the same value.
pub open spec fn parse_back(t: Timestamp) -> bool {
    rfc3339_parse(ts_text(t)) == Some(t)
}

/// The `update` key/value line pairs, in stored order.
pub open spec fn update_lines(ts: Seq<Timestamp>) -> Seq<Seq<char>>
    decreases ts.len(),
{
    if ts.len() == 0 {
        Seq::empty()
    } else {
        seq!["update"@, ts_text(ts[0])] + update_lines(ts.drop_first())
    }
}

/// The `previous` key/value line pairs, in stored order.
pub open spec fn previous_lines(ids: Seq<u32>) -> Seq<Seq<char>>
    decreases ids.len(),
{
    if ids.len() == 0 {
        Seq::empty()
    } else {
        seq!["previous"@, dec_chars(ids[0] as nat)] + previous_lines(ids.drop_first())
    }
}

/// The body lines of plain text: one blank line, then the paragraph, for
/// each paragraph in turn.
pub open spec fn para_lines(ps: Seq<Seq<char>>) -> Seq<Seq<char>>
    decreases ps.len(),
{
    if ps.len() == 0 {
        Seq::empty()
    } else {
        seq![Seq::<char>::empty(), ps[0]] + para_lines(ps.drop_first())
    }
}

/// The header lines of a note: the `top level` marker where flagged, then
/// `id`, `alternative`, `create`, the `update` entries, `parent`, the
/// `previous` entries and `title`, each a key line over a value line,
/// absent optional keys omitted.
pub open spec fn header_lines(v: ConnectedNoteView) -> Seq<Seq<char>> {
    (if v.top_level {
        seq!["top level"@]
    } else {
        Seq::<Seq<char>>::empty()
    }) + seq!["id"@, dec_chars(v.note.id as nat)] + (match v.note.alternative {
        Some(a) => seq!["alternative"@, a],
        None => Seq::<Seq<char>>::empty(),
    }) + seq!["create"@, ts_text(v.note.create_at)] + update_lines(v.note.update_at) + (
    match v.parent_id {
        Some(p) => seq!["parent"@, dec_chars(p as nat)],
        None => Seq::<Seq<char>>::empty(),
    }) + previous_lines(v.previous_ids) + (match v.note.title {
        Some(t) => seq!["title"@, t],
        None => Seq::<Seq<char>>::empty(),
    })
}

/// All the lines of a record: the header, then the body under the note's
/// content variant.
pub open spec fn encode_lines(v: ConnectedNoteView) -> Seq<Seq<char>> {
    match v.note.content {
        ContentView::PlainText(ps) => header_lines(v) + para_lines(ps),
        ContentView::Image(path) => header_lines(v) + seq![
            "image"@,
            Seq::<char>::empty(),
            path,
        ],
    }
}

/// The record text of a note: its lines, each closed by a newline.
pub open spec fn encode_text_spec(v: ConnectedNoteView) -> Seq<char> {
    join_lines(encode_lines(v))
}

/// The key and marker literals are values — non-blank single trimmed lines
/// — and mutually distinct.
proof fn lemma_key_facts()
    ensures
        value_ok("id"@),
        value_ok("alternative"@),
        value_ok("create"@),
        value_ok("update"@),
        value_ok("title"@),
        value_ok("parent"@),
        value_ok("previous"@),
        value_ok("top level"@),
        value_ok("image"@),
        "id"@ != "top level"@ && "id"@ != "image"@,
        "alternative"@ != "top level"@ && "alternative"@ != "image"@ && "alternative"@ != "id"@,
        "create"@ != "top level"@ && "create"@ != "image"@ && "create"@ != "id"@ && "create"@
            != "alternative"@,
        "update"@ != "top level"@ && "update"@ != "image"@ && "update"@ != "id"@ && "update"@
            != "alternative"@ && "update"@ != "create"@,
        "title"@ != "top level"@ && "title"@ != "image"@ && "title"@ != "id"@ && "title"@
            != "alternative"@ && "title"@ != "create"@ && "title"@ != "update"@,
        "parent"@ != "top level"@ && "parent"@ != "image"@ && "parent"@ != "id"@ && "parent"@
            != "alternative"@ && "parent"@ != "create"@ && "parent"@ != "update"@ && "parent"@
            != "title"@,
        "previous"@ != "top level"@ && "previous"@ != "image"@ && "previous"@ != "id"@
            && "previous"@ != "alternative"@ && "previous"@ != "create"@ && "previous"@
            != "update"@ && "previous"@ != "title"@ && "previous"@ != "parent"@,
        "top level"@ != "image"@,
        recognized_key("id"@),
        recognized_key("alternative"@),
        recognized_key("create"@),
        recognized_key("update"@),
        recognized_key("title"@),
        recognized_key("parent"@),
        recognized_key("previous"@),
{
    reveal_strlit("id");
    reveal_strlit("alternative");
    reveal_strlit("create");
    reveal_strlit("update");
    reveal_strlit("title");
    reveal_strlit("parent");
    reveal_strlit("previous");
    reveal_strlit("top level");
    reveal_strlit("image");
}

/// One `id` pair at the front of the header.
proof fn lemma_step_id(rest: Seq<Seq<char>>, acc: HeaderAcc, n: u32)
    ensures
        decode_header(seq!["id"@, dec_chars(n as nat)] + rest, acc) == decode_header(
            rest,
            acc.with_id(n),
        ),
{
    lemma_key_facts();
    crate::text::lemma_value_trimmed("id"@);
    crate::text::lemma_numeral_value_ok(n as nat);
    crate::text::lemma_value_trimmed(dec_chars(n as nat));
    crate::text::lemma_parse_dec_chars(n);
    let l = seq!["id"@, dec_chars(n as nat)] + rest;
    assert(l[0] == "id"@);
    assert(l[1] == dec_chars(n as nat));
    assert(l.skip(2) =~= rest);
}

/// One `alternative` pair at the front of the header.
proof fn lemma_step_alternative(rest: Seq<Seq<char>>, acc: HeaderAcc, a: Seq<char>)
    requires
        value_ok(a),
    ensures
        decode_header(seq!["alternative"@, a] + rest, acc) == decode_header(
            rest,
            acc.with_alternative(a),
        ),
{
    lemma_key_facts();
    crate::text::lemma_value_trimmed("alternative"@);
    crate::text::lemma_value_trimmed(a);
    let l = seq!["alternative"@, a] + rest;
    assert(l[0] == "alternative"@);
    assert(l[1] == a);
    assert(l.skip(2) =~= rest);
}

/// One `create` pair at the front of the header.
proof fn lemma_step_create(rest: Seq<Seq<char>>, acc: HeaderAcc, t: Timestamp)
    requires
        t.wf(),
        parse_back(t),
        value_ok(ts_text(t)),
    ensures
        decode_header(seq!["create"@, ts_text(t)] + rest, acc) == decode_header(
            rest,
            acc.with_create(t),
        ),
{
    lemma_key_facts();
    crate::text::lemma_value_trimmed("create"@);
    crate::text::lemma_value_trimmed(ts_text(t));
    let l = seq!["create"@, ts_text(t)] + rest;
    assert(l[0] == "create"@);
    assert(l[1] == ts_text(t));
    assert(l.skip(2) =~= rest);
}

/// One `parent` pair at the front of the header.
proof fn lemma_step_parent(rest: Seq<Seq<char>>, acc: HeaderAcc, n: u32)
    ensures
        decode_header(seq!["parent"@, dec_chars(n as nat)] + rest, acc) == decode_header(
            rest,
            acc.with_parent(n),
        ),
{
    lemma_key_facts();
    crate::text::lemma_value_trimmed("parent"@);
    crate::text::lemma_numeral_value_ok(n as nat);
    crate::text::lemma_value_trimmed(dec_chars(n as nat));
    crate::text::lemma_parse_dec_chars(n);
    let l = seq!["parent"@, dec_chars(n as nat)] + rest;
    assert(l[0] == "parent"@);
    assert(l[1] == dec_chars(n as nat));
    assert(l.skip(2) =~= rest);
}

/// One `title` pair at the front of the header.
proof fn lemma_step_title(rest: Seq<Seq<char>>, acc: HeaderAcc, t: Seq<char>)
    requires
        value_ok(t),
    ensures
        decode_header(seq!["title"@, t] + rest, acc) == decode_header(rest, acc.with_title(t)),
{
    lemma_key_facts();
    crate::text::lemma_value_trimmed("title"@);
    crate::text::lemma_value_trimmed(t);
    let l = seq!["title"@, t] + rest;
    assert(l[0] == "title"@);
    assert(l[1] == t);
    assert(l.skip(2) =~= rest);
}

/// The `top level` marker at the front of the header.
proof fn lemma_step_top_level(rest: Seq<Seq<char>>, acc: HeaderAcc)
    ensures
        decode_header(seq!["top level"@] + rest, acc) == decode_header(
            rest,
            acc.with_top_level(),
        ),
{
    lemma_key_facts();
    crate::text::lemma_value_trimmed("top level"@);
    let l = seq!["top level"@] + rest;
    assert(l[0] == "top level"@);
    assert(l.drop_first() =~= rest);
}

/// The `image` marker at the front of the header.
proof fn lemma_step_image(rest: Seq<Seq<char>>, acc: HeaderAcc)
    ensures
        decode_header(seq!["image"@] + rest, acc) == decode_header(rest, acc.with_image()),
{
    lemma_key_facts();
    crate::text::lemma_value_trimmed("image"@);
    let l = seq!["image"@] + rest;
    assert(l[0] == "image"@);
    assert(l.drop_first() =~= rest);
}

/// The run of `update` pairs at the front of the header.
proof fn lemma_header_updates(ts: Seq<Timestamp>, rest: Seq<Seq<char>>, acc: HeaderAcc)
    requires
        forall|j: int|
            0 <= j < ts.len() ==> (#[trigger] ts[j]).wf() && parse_back(ts[j]) && value_ok(
                ts_text(ts[j]),
            ),
    ensures
        decode_header(update_lines(ts) + rest, acc) == decode_header(
            rest,
            HeaderAcc { update_at: acc.update_at + ts, ..acc },
        ),
    decreases ts.len(),
{
    if ts.len() == 0 {
        assert(update_lines(ts) + rest =~= rest);
        assert(acc.update_at + ts =~= acc.update_at);
        assert(HeaderAcc { update_at: acc.update_at + ts, ..acc } == acc);
    } else {
        lemma_key_facts();
        crate::text::lemma_value_trimmed("update"@);
        let t0 = ts[0];
        crate::text::lemma_value_trimmed(ts_text(t0));
        let l = update_lines(ts) + rest;
        assert(l =~= seq!["update"@, ts_text(t0)] + (update_lines(ts.drop_first()) + rest));
        assert(l[0] == "update"@);
        assert(l[1] == ts_text(t0));
        assert(l.skip(2) =~= update_lines(ts.drop_first()) + rest);
        assert(decode_header(l, acc) == decode_header(l.skip(2), acc.with_update(t0)));
        assert forall|j: int| 0 <= j < ts.drop_first().len() implies (#[trigger] ts.drop_first()[
            j
        ]).wf() && parse_back(ts.drop_first()[j]) && value_ok(ts_text(ts.drop_first()[j])) by {
            assert(ts.drop_first()[j] == ts[j + 1]);
        }
        lemma_header_updates(ts.drop_first(), rest, acc.with_update(t0));
        assert(acc.update_at.push(t0) + ts.drop_first() =~= acc.update_at + ts);
        assert(HeaderAcc { update_at: acc.update_at.push(t0) + ts.drop_first(), ..acc }
            == HeaderAcc { update_at: acc.update_at + ts, ..acc });
    }
}

/// The run of `previous` pairs at the front of the header.
proof fn lemma_header_previous(ids: Seq<u32>, rest: Seq<Seq<char>>, acc: HeaderAcc)
    ensures
        decode_header(previous_lines(ids) + rest, acc) == decode_header(
            rest,
            HeaderAcc { previous_ids: acc.previous_ids + ids, ..acc },
        ),
    decreases ids.len(),
{
    if ids.len() == 0 {
        assert(previous_lines(ids) + rest =~= rest);
        assert(acc.previous_ids + ids =~= acc.previous_ids);
        assert(HeaderAcc { previous_ids: acc.previous_ids + ids, ..acc } == acc);
    } else {
        lemma_key_facts();
        crate::text::lemma_value_trimmed("previous"@);
        let n0 = ids[0];
        crate::text::lemma_numeral_value_ok(n0 as nat);
        crate::text::lemma_value_trimmed(dec_chars(n0 as nat));
        crate::text::lemma_parse_dec_chars(n0);
        let l = previous_lines(ids) + rest;
        assert(l =~= seq!["previous"@, dec_chars(n0 as nat)] + (previous_lines(ids.drop_first())
            + rest));
        assert(l[0] == "previous"@);
        assert(l[1] == dec_chars(n0 as nat));
        assert(l.skip(2) =~= previous_lines(ids.drop_first()) + rest);
        assert(decode_header(l, acc) == decode_header(l.skip(2), acc.with_previous(n0)));
        lemma_header_previous(ids.drop_first(), rest, acc.with_previous(n0));
        assert(acc.previous_ids.push(n0) + ids.drop_first() =~= acc.previous_ids + ids);
        assert(HeaderAcc { previous_ids: acc.previous_ids.push(n0) + ids.drop_first(), ..acc }
            == HeaderAcc { previous_ids: acc.previous_ids + ids, ..acc });
    }
}

/// The paragraphs read back from the body lines the encoder writes.
proof fn lemma_body_paras(ps: Seq<Seq<char>>)
    requires
        forall|i: int| 0 <= i < ps.len() ==> value_ok(#[trigger] ps[i]),
    ensures
        body_paragraphs(para_lines(ps) + seq![Seq::<char>::empty()]) == ps,
    decreases ps.len(),
{
    assert(trim_front(Seq::<char>::empty()) =~= Seq::<char>::empty());
    assert(trimmed(Seq::<char>::empty()) =~= Seq::<char>::empty());
    assert(body_paragraphs(Seq::<Seq<char>>::empty()) =~= Seq::<Seq<char>>::empty());
    if ps.len() == 0 {
        let b = para_lines(ps) + seq![Seq::<char>::empty()];
        assert(b =~= seq![Seq::<char>::empty()]);
        assert(b[0] =~= Seq::<char>::empty());
        assert(trimmed(b[0]).len() == 0);
        assert(b.drop_first() =~= Seq::<Seq<char>>::empty());
        assert(body_paragraphs(b) == body_paragraphs(b.drop_first()));
        assert(body_paragraphs(b) =~= ps);
    } else {
        let p0 = ps[0];
        crate::text::lemma_value_trimmed(p0);
        let b = para_lines(ps) + seq![Seq::<char>::empty()];
        let b1 = para_lines(ps.drop_first()) + seq![Seq::<char>::empty()];
        assert(b =~= seq![Seq::<char>::empty(), p0] + b1);
        assert(b[0] =~= Seq::<char>::empty());
        assert(trimmed(b[0]).len() == 0);
        assert(b.drop_first() =~= seq![p0] + b1);
        assert(body_paragraphs(b) == body_paragraphs(seq![p0] + b1));
        assert((seq![p0] + b1)[0] == p0);
        assert(trimmed(p0) == p0);
        assert((seq![p0] + b1).drop_first() =~= b1);
        assert(body_paragraphs(seq![p0] + b1) == seq![p0] + body_paragraphs(b1));
        lemma_body_paras(ps.drop_first());
        assert(seq![p0] + ps.drop_first() =~= ps);
        assert(body_paragraphs(b) =~= ps);
    }
}

/// Lines free of newlines stay so under concatenation.
proof fn lemma_nl_free_concat(a: Seq<Seq<char>>, b: Seq<Seq<char>>)
    requires
        forall|i: int| 0 <= i < a.len() ==> nl_free(#[trigger] a[i]),
        forall|i: int| 0 <= i < b.len() ==> nl_free(#[trigger] b[i]),
    ensures
        forall|i: int| 0 <= i < (a + b).len() ==> nl_free(#[trigger] (a + b)[i]),
{
    assert forall|i: int| 0 <= i < (a + b).len() implies nl_free((a + b)[i]) by {
        if i < a.len() {
            assert((a + b)[i] == a[i]);
        } else {
            assert((a + b)[i] == b[i - a.len()]);
        }
    }
}

/// The `update` pairs hold no newline.
proof fn lemma_update_lines_nl_free(ts: Seq<Timestamp>)
    requires
        forall|j: int| 0 <= j < ts.len() ==> value_ok(ts_text(#[trigger] ts[j])),
    ensures
        forall|i: int| 0 <= i < update_lines(ts).len() ==> nl_free(#[trigger] update_lines(ts)[i]),
    decreases ts.len(),
{
    if ts.len() > 0 {
        lemma_key_facts();
        assert forall|j: int| 0 <= j < ts.drop_first().len() implies value_ok(
            ts_text(#[trigger] ts.drop_first()[j]),
        ) by {
            assert(ts.drop_first()[j] == ts[j + 1]);
        }
        lemma_update_lines_nl_free(ts.drop_first());
        lemma_nl_free_concat(seq!["update"@, ts_text(ts[0])], update_lines(ts.drop_first()));
    }
}

/// The `previous` pairs hold no newline.
proof fn lemma_previous_lines_nl_free(ids: Seq<u32>)
    ensures
        forall|i: int|
            0 <= i < previous_lines(ids).len() ==> nl_free(#[trigger] previous_lines(ids)[i]),
    decreases ids.len(),
{
    if ids.len() > 0 {
        lemma_key_facts();
        crate::text::lemma_numeral_value_ok(ids[0] as nat);
        lemma_previous_lines_nl_free(ids.drop_first());
        lemma_nl_free_concat(
            seq!["previous"@, dec_chars(ids[0] as nat)],
            previous_lines(ids.drop_first()),
        );
    }
}

/// The body lines of plain text hold no newline.
proof fn lemma_para_lines_nl_free(ps: Seq<Seq<char>>)
    requires
        forall|i: int| 0 <= i < ps.len() ==> value_ok(#[trigger] ps[i]),
    ensures
        forall|i: int| 0 <= i < para_lines(ps).len() ==> nl_free(#[trigger] para_lines(ps)[i]),
    decreases ps.len(),
{
    if ps.len() > 0 {
        assert forall|j: int| 0 <= j < ps.drop_first().len() implies value_ok(
            #[trigger] ps.drop_first()[j],
        ) by {
            assert(ps.drop_first()[j] == ps[j + 1]);
        }
        lemma_para_lines_nl_free(ps.drop_first());
        lemma_nl_free_concat(seq![Seq::<char>::empty(), ps[0]], para_lines(ps.drop_first()));
    }
}

/// The lines after the header in a record's text, the closing empty line
/// included.
spec fn tail_lines(v: ConnectedNoteView) -> Seq<Seq<char>> {
    match v.note.content {
        ContentView::PlainText(ps) => para_lines(ps) + seq![Seq::<char>::empty()],
        ContentView::Image(path) => seq![
            "image"@,
            Seq::<char>::empty(),
            path,
            Seq::<char>::empty(),
        ],
    }
}

/// The record's lines regrouped from the right, tail first.
spec fn r7_lines(v: ConnectedNoteView) -> Seq<Seq<char>> {
    match v.note.title {
        Some(t) => seq!["title"@, t] + tail_lines(v),
        None => tail_lines(v),
    }
}

/// The lines from the `previous` entries on.
spec fn r6_lines(v: ConnectedNoteView) -> Seq<Seq<char>> {
    previous_lines(v.previous_ids) + r7_lines(v)
}

/// The lines from the `parent` pair on.
spec fn r5_lines(v: ConnectedNoteView) -> Seq<Seq<char>> {
    match v.parent_id {
        Some(p) => seq!["parent"@, dec_chars(p as nat)] + r6_lines(v),
        None => r6_lines(v),
    }
}

/// The lines from the `update` entries on.
spec fn r4_lines(v: ConnectedNoteView) -> Seq<Seq<char>> {
    update_lines(v.note.update_at) + r5_lines(v)
}

/// The lines from the `create` pair on.
spec fn r3_lines(v: ConnectedNoteView) -> Seq<Seq<char>> {
    seq!["create"@, ts_text(v.note.create_at)] + r4_lines(v)
}

/// The lines from the `alternative` pair on.
spec fn r2_lines(v: ConnectedNoteView) -> Seq<Seq<char>> {
    match v.note.alternative {
        Some(a) => seq!["alternative"@, a] + r3_lines(v),
        None => r3_lines(v),
    }
}

/// The lines from the `id` pair on.
spec fn r1_lines(v: ConnectedNoteView) -> Seq<Seq<char>> {
    seq!["id"@, dec_chars(v.note.id as nat)] + r2_lines(v)
}

/// All the record's lines, regrouped from the right.
spec fn r0_lines(v: ConnectedNoteView) -> Seq<Seq<char>> {
    if v.top_level {
        seq!["top level"@] + r1_lines(v)
    } else {
        r1_lines(v)
    }
}

/// The header state after the whole header of a note has been read.
spec fn final_acc(v: ConnectedNoteView) -> HeaderAcc {
    HeaderAcc {
        id: Some(v.note.id),
        alternative: v.note.alternative,
        create_at: Some(v.note.create_at),
        update_at: v.note.update_at,
        title: v.note.title,
        parent_id: v.parent_id,
        previous_ids: v.previous_ids,
        top_level: v.top_level,
        image: false,
    }
}

/// The encoder's lines, with the final empty line, are the right-grouped
/// form.
#[verifier::rlimit(100)]
proof fn lemma_encode_lines_regroup(v: ConnectedNoteView)
    ensures
        encode_lines(v).push(Seq::<char>::empty()) =~= r0_lines(v),
{
    let e = Seq::<char>::empty();
    let t = tail_lines(v);
    let h = header_lines(v);
    match v.note.content {
        ContentView::PlainText(ps) => {
            assert((h + para_lines(ps)).push(e) =~= h + (para_lines(ps) + seq![e]));
        },
        ContentView::Image(path) => {
            assert((h + seq!["image"@, e, path]).push(e) =~= h + seq!["image"@, e, path, e]);
        },
    }
    assert(encode_lines(v).push(e) == h + t);
    let b1 = (if v.top_level {
        seq!["top level"@]
    } else {
        Seq::<Seq<char>>::empty()
    });
    let s2 = seq!["id"@, dec_chars(v.note.id as nat)];
    let b3 = (match v.note.alternative {
        Some(a) => seq!["alternative"@, a],
        None => Seq::<Seq<char>>::empty(),
    });
    let s4 = seq!["create"@, ts_text(v.note.create_at)];
    let u5 = update_lines(v.note.update_at);
    let b6 = (match v.parent_id {
        Some(p) => seq!["parent"@, dec_chars(p as nat)],
        None => Seq::<Seq<char>>::empty(),
    });
    let p7 = previous_lines(v.previous_ids);
    let b8 = (match v.note.title {
        Some(tt) => seq!["title"@, tt],
        None => Seq::<Seq<char>>::empty(),
    });
    assert(h == ((((((b1 + s2) + b3) + s4) + u5) + b6) + p7) + b8);
    assert(h + t =~= (((((((b1 + s2) + b3) + s4) + u5) + b6) + p7)) + (b8 + t));
    assert(b8 + t =~= r7_lines(v));
    assert((((((((b1 + s2) + b3) + s4) + u5) + b6) + p7)) + r7_lines(v) =~= ((((((b1 + s2) + b3)
        + s4) + u5) + b6)) + (p7 + r7_lines(v)));
    assert(p7 + r7_lines(v) == r6_lines(v));
    assert(((((((b1 + s2) + b3) + s4) + u5) + b6)) + r6_lines(v) =~= (((((b1 + s2) + b3) + s4)
        + u5)) + (b6 + r6_lines(v)));
    assert(b6 + r6_lines(v) =~= r5_lines(v));
    assert((((((b1 + s2) + b3) + s4) + u5)) + r5_lines(v) =~= ((((b1 + s2) + b3) + s4)) + (u5
        + r5_lines(v)));
    assert(u5 + r5_lines(v) == r4_lines(v));
    assert(((((b1 + s2) + b3) + s4)) + r4_lines(v) =~= (((b1 + s2) + b3)) + (s4 + r4_lines(v)));
    assert(s4 + r4_lines(v) == r3_lines(v));
    assert((((b1 + s2) + b3)) + r3_lines(v) =~= ((b1 + s2)) + (b3 + r3_lines(v)));
    assert(b3 + r3_lines(v) =~= r2_lines(v));
    assert(((b1 + s2)) + r2_lines(v) =~= b1 + (s2 + r2_lines(v)));
    assert(s2 + r2_lines(v) == r1_lines(v));
    assert(b1 + r1_lines(v) =~= r0_lines(v));
}

/// Every line the encoder writes is free of newlines.
#[verifier::rlimit(100)]
proof fn lemma_encode_lines_nl_free(v: ConnectedNoteView)
    requires
        v.wf(),
        value_ok(ts_text(v.note.create_at)),
        forall|j: int| 0 <= j < v.note.update_at.len() ==> value_ok(
            ts_text(#[trigger] v.note.update_at[j]),
        ),
    ensures
        forall|i: int| 0 <= i < encode_lines(v).len() ==> nl_free(#[trigger] encode_lines(v)[i]),
{
    lemma_key_facts();
    lemma_encode_lines_regroup(v);
    let e = Seq::<char>::empty();
    crate::text::lemma_numeral_value_ok(v.note.id as nat);
    lemma_update_lines_nl_free(v.note.update_at);
    lemma_previous_lines_nl_free(v.previous_ids);
    match v.note.content {
        ContentView::PlainText(ps) => {
            lemma_para_lines_nl_free(ps);
            lemma_nl_free_concat(para_lines(ps), seq![e]);
        },
        ContentView::Image(path) => {},
    }
    assert forall|i: int| 0 <= i < tail_lines(v).len() implies nl_free(
        #[trigger] tail_lines(v)[i],
    ) by {
        match v.note.content {
            ContentView::PlainText(ps) => {
                assert(tail_lines(v) == para_lines(ps) + seq![e]);
            },
            ContentView::Image(path) => {},
        }
    }
    match v.note.title {
        Some(t) => {
            lemma_nl_free_concat(seq!["title"@, t], tail_lines(v));
        },
        None => {},
    }
    lemma_nl_free_concat(previous_lines(v.previous_ids), r7_lines(v));
    match v.parent_id {
        Some(p) => {
            crate::text::lemma_numeral_value_ok(p as nat);
            lemma_nl_free_concat(seq!["parent"@, dec_chars(p as nat)], r6_lines(v));
        },
        None => {},
    }
    lemma_nl_free_concat(update_lines(v.note.update_at), r5_lines(v));
    lemma_nl_free_concat(seq!["create"@, ts_text(v.note.create_at)], r4_lines(v));
    match v.note.alternative {
        Some(a) => {
            lemma_nl_free_concat(seq!["alternative"@, a], r3_lines(v));
        },
        None => {},
    }
    lemma_nl_free_concat(seq!["id"@, dec_chars(v.note.id as nat)], r2_lines(v));
    if v.top_level {
        lemma_nl_free_concat(seq!["top level"@], r1_lines(v));
    }
    assert forall|i: int| 0 <= i < encode_lines(v).len() implies nl_free(
        #[trigger] encode_lines(v)[i],
    ) by {
        assert(encode_lines(v)[i] == r0_lines(v)[i]);
    }
}

/// Reading the encoder's header leaves exactly the note's fields in the
/// state, and the tail to go.
#[verifier::rlimit(100)]
proof fn lemma_decode_encode_header(v: ConnectedNoteView)
    requires
        v.wf(),
        parse_back(v.note.create_at),
        value_ok(ts_text(v.note.create_at)),
        forall|j: int|
            0 <= j < v.note.update_at.len() ==> parse_back(#[trigger] v.note.update_at[j])
                && value_ok(ts_text(v.note.update_at[j])),
    ensures
        decode_header(r0_lines(v), empty_acc()) == decode_header(tail_lines(v), final_acc(v)),
{
    let a0 = empty_acc();
    let a1 = if v.top_level {
        a0.with_top_level()
    } else {
        a0
    };
    if v.top_level {
        lemma_step_top_level(r1_lines(v), a0);
    }
    assert(decode_header(r0_lines(v), a0) == decode_header(r1_lines(v), a1));
    lemma_step_id(r2_lines(v), a1, v.note.id);
    let a2 = a1.with_id(v.note.id);
    let a3 = match v.note.alternative {
        Some(a) => a2.with_alternative(a),
        None => a2,
    };
    match v.note.alternative {
        Some(a) => {
            lemma_step_alternative(r3_lines(v), a2, a);
        },
        None => {},
    }
    assert(decode_header(r2_lines(v), a2) == decode_header(r3_lines(v), a3));
    lemma_step_create(r4_lines(v), a3, v.note.create_at);
    let a4 = a3.with_create(v.note.create_at);
    lemma_header_updates(v.note.update_at, r5_lines(v), a4);
    let a5 = HeaderAcc { update_at: v.note.update_at, ..a4 };
    assert(a4.update_at + v.note.update_at =~= v.note.update_at);
    assert(HeaderAcc { update_at: a4.update_at + v.note.update_at, ..a4 } == a5);
    assert(decode_header(r4_lines(v), a4) == decode_header(r5_lines(v), a5));
    let a6 = match v.parent_id {
        Some(p) => a5.with_parent(p),
        None => a5,
    };
    match v.parent_id {
        Some(p) => {
            lemma_step_parent(r6_lines(v), a5, p);
        },
        None => {},
    }
    assert(decode_header(r5_lines(v), a5) == decode_header(r6_lines(v), a6));
    lemma_header_previous(v.previous_ids, r7_lines(v), a6);
    let a7 = HeaderAcc { previous_ids: v.previous_ids, ..a6 };
    assert(a6.previous_ids + v.previous_ids =~= v.previous_ids);
    assert(HeaderAcc { previous_ids: a6.previous_ids + v.previous_ids, ..a6 } == a7);
    assert(decode_header(r6_lines(v), a6) == decode_header(r7_lines(v), a7));
    let a8 = match v.note.title {
        Some(t) => a7.with_title(t),
        None => a7,
    };
    match v.note.title {
        Some(t) => {
            lemma_step_title(tail_lines(v), a7, t);
        },
        None => {},
    }
    assert(decode_header(r7_lines(v), a7) == decode_header(tail_lines(v), a8));
    assert(a8 == final_acc(v));
}

/// Reading the encoder's tail yields the note's body, and the whole read
/// finishes at the note itself.
#[verifier::rlimit(100)]
proof fn lemma_decode_encode_tail(v: ConnectedNoteView)
    requires
        v.wf(),
    ensures
        (match decode_header(tail_lines(v), final_acc(v)) {
            Ok(pair) => finish_decode(pair.0, pair.1) == Ok::<ConnectedNoteView, FormatError>(v),
            Err(e) => false,
        }),
{
    lemma_key_facts();
    let e = Seq::<char>::empty();
    let a8 = final_acc(v);
    assert(trim_front(e) =~= e);
    assert(trimmed(e) =~= e);
    let tail = tail_lines(v);
    match v.note.content {
        ContentView::PlainText(ps) => {
            assert(tail == para_lines(ps) + seq![e]);
            assert(tail.len() > 0);
            assert(trimmed(tail[0]).len() == 0);
            assert(decode_header(tail, a8) == Ok::<(HeaderAcc, Seq<Seq<char>>), FormatError>(
                (a8, tail.drop_first()),
            ));
            lemma_body_paras(ps);
            assert(body_paragraphs(tail) == ps);
            assert(body_paragraphs(tail) == body_paragraphs(tail.drop_first()));
            assert(finish_decode(a8, tail.drop_first()) == Ok::<ConnectedNoteView, FormatError>(
                assemble(a8, ContentView::PlainText(ps)),
            ));
            assert(assemble(a8, ContentView::PlainText(ps)) == v);
        },
        ContentView::Image(path) => {
            assert(tail =~= seq!["image"@] + seq![e, path, e]);
            lemma_step_image(seq![e, path, e], a8);
            let a9 = a8.with_image();
            assert(decode_header(tail, a8) == decode_header(seq![e, path, e], a9));
            assert(trimmed(seq![e, path, e][0]).len() == 0);
            assert(seq![e, path, e].drop_first() =~= seq![path, e]);
            assert(decode_header(seq![e, path, e], a9) == Ok::<
                (HeaderAcc, Seq<Seq<char>>),
                FormatError,
            >((a9, seq![path, e])));
            crate::text::lemma_value_trimmed(path);
            assert(seq![path, e].drop_first() =~= seq![e]);
            assert(seq![e].drop_first() =~= Seq::<Seq<char>>::empty());
            assert(body_paragraphs(Seq::<Seq<char>>::empty()) =~= Seq::<Seq<char>>::empty());
            assert(body_paragraphs(seq![e]) =~= Seq::<Seq<char>>::empty());
            assert(body_paragraphs(seq![path, e]) =~= seq![path]);
            assert(finish_decode(a9, seq![path, e]) == Ok::<ConnectedNoteView, FormatError>(
                assemble(a9, ContentView::Image(path)),
            ));
            assert(assemble(a9, ContentView::Image(path)) == v);
        },
    }
}

/// Decoding what the encoder writes yields the note back: the lines of a
/// well-formed note (with the final empty line that the closing newline
/// opens) decode to that very note, and every line is newline-free.
proof fn lemma_decode_encode(v: ConnectedNoteView)
    requires
        v.wf(),
        parse_back(v.note.create_at),
        value_ok(ts_text(v.note.create_at)),
        forall|j: int|
            0 <= j < v.note.update_at.len() ==> parse_back(#[trigger] v.note.update_at[j])
                && value_ok(ts_text(v.note.update_at[j])),
    ensures
        forall|i: int| 0 <= i < encode_lines(v).len() ==> nl_free(#[trigger] encode_lines(v)[i]),
        decode_lines_spec(encode_lines(v).push(Seq::<char>::empty())) == Ok::<
            ConnectedNoteView,
            FormatError,
        >(v),
{
    lemma_encode_lines_nl_free(v);
    lemma_encode_lines_regroup(v);
    lemma_decode_encode_header(v);
    lemma_decode_encode_tail(v);
}

/// The value of an optional owned string.
pub open spec fn opt_view(o: Option<String>) -> Option<Seq<char>> {
    match o {
        Some(s) => Some(s@),
        None => None,
    }
}

/// The header state these working values stand for.
pub open spec fn acc_of(
    id: Option<u32>,
    alternative: Option<String>,
    create_at: Option<Timestamp>,
    update_at: Seq<Timestamp>,
    title: Option<String>,
    parent_id: Option<u32>,
    previous_ids: Seq<u32>,
    top_level: bool,
    image: bool,
) -> HeaderAcc {
    HeaderAcc {
        id: id,
        alternative: opt_view(alternative),
        create_at: create_at,
        update_at: update_at,
        title: opt_view(title),
        parent_id: parent_id,
        previous_ids: previous_ids,
        top_level: top_level,
        image: image,
    }
}

/// Decodes the lines of one record.  Fails exactly where
/// `decode_lines_spec` says, and a decoded note is well formed: every field
/// it stores can be carried back to text.
fn decode_lines(lines: &Vec<Vec<char>>) -> (r: Result<ConnectedNote, FormatError>)
    requires
        forall|i: int|
            0 <= i < lines.deep_view().len() ==> nl_free(#[trigger] lines.deep_view()[i]),
    ensures
        match r {
            Ok(cn) => decode_lines_spec(lines.deep_view()) == Ok::<ConnectedNoteView, FormatError>(
                cn@,
            ) && cn@.wf(),
            Err(e) => decode_lines_spec(lines.deep_view()) == Err::<ConnectedNoteView, FormatError>(
                e,
            ),
        },
{
    let ghost ls = lines.deep_view();
    let n: usize = lines.len();
    let mut id: Option<u32> = None;
    let mut alternative: Option<String> = None;
    let mut create_at: Option<Timestamp> = None;
    let mut update_at: Vec<Timestamp> = Vec::new();
    let mut title: Option<String> = None;
    let mut parent_id: Option<u32> = None;
    let mut previous_ids: Vec<u32> = Vec::new();
    let mut top_level: bool = false;
    let mut image: bool = false;
    let mut i: usize = 0;
    let mut body_start: usize = n;
    let mut done: bool = false;
    proof {
        assert(ls.skip(0) =~= ls);
    }
    while !done
        invariant
            n == ls.len(),
            ls == lines.deep_view(),
            forall|k: int| 0 <= k < ls.len() ==> nl_free(#[trigger] ls[k]),
            match create_at {
                Some(t) => t.wf(),
                None => true,
            },
            forall|j: int| 0 <= j < update_at@.len() ==> (#[trigger] update_at@[j]).wf(),
            match alternative {
                Some(ref a) => value_ok(a@),
                None => true,
            },
            match title {
                Some(ref t) => value_ok(t@),
                None => true,
            },
            !done ==> i <= n && body_start == n && decode_header(ls, empty_acc())
                == decode_header(
                ls.skip(i as int),
                acc_of(
                    id,
                    alternative,
                    create_at,
                    update_at@,
                    title,
                    parent_id,
                    previous_ids@,
                    top_level,
                    image,
                ),
            ),
            done ==> body_start <= n && decode_header(ls, empty_acc()) == Ok::<
                (HeaderAcc, Seq<Seq<char>>),
                FormatError,
            >(
                (
                    acc_of(
                        id,
                        alternative,
                        create_at,
                        update_at@,
                        title,
                        parent_id,
                        previous_ids@,
                        top_level,
                        image,
                    ),
                    ls.skip(body_start as int),
                ),
            ),
        decreases n - i, (if done { 0int } else { 1int }),
    {
        let ghost acc = acc_of(
            id,
            alternative,
            create_at,
            update_at@,
            title,
            parent_id,
            previous_ids@,
            top_level,
            image,
        );
        if i == n {
            proof {
                assert(ls.skip(i as int) =~= Seq::<Seq<char>>::empty());
                assert(decode_header(ls.skip(i as int), acc) == Ok::<
                    (HeaderAcc, Seq<Seq<char>>),
                    FormatError,
                >((acc, Seq::<Seq<char>>::empty())));
                assert(ls.skip(body_start as int) =~= Seq::<Seq<char>>::empty());
            }
            done = true;
            continue;
        }
        proof {
            assert(ls[i as int] == lines@[i as int].deep_view());
            assert(lines@[i as int].deep_view() =~= lines@[i as int]@);
            assert(ls.skip(i as int)[0] == ls[i as int]);
            assert(ls.skip(i as int).drop_first() =~= ls.skip(i as int + 1));
        }
        let tl = trim_chars(&lines[i]);
        if tl.len() == 0 {
            body_start = i + 1;
            done = true;
            continue;
        }
        if chars_eq_str(&tl, "top level") {
            proof {
                assert(decode_header(ls.skip(i as int), acc) == decode_header(
                    ls.skip(i as int + 1),
                    acc.with_top_level(),
                ));
            }
            top_level = true;
            i = i + 1;
            continue;
        }
        if chars_eq_str(&tl, "image") {
            proof {
                assert(decode_header(ls.skip(i as int), acc) == decode_header(
                    ls.skip(i as int + 1),
                    acc.with_image(),
                ));
            }
            image = true;
            i = i + 1;
            continue;
        }
        let is_id = chars_eq_str(&tl, "id");
        let is_alternative = chars_eq_str(&tl, "alternative");
        let is_create = chars_eq_str(&tl, "create");
        let is_update = chars_eq_str(&tl, "update");
        let is_title = chars_eq_str(&tl, "title");
        let is_parent = chars_eq_str(&tl, "parent");
        let is_previous = chars_eq_str(&tl, "previous");
        if !(is_id || is_alternative || is_create || is_update || is_title || is_parent
            || is_previous) {
            assert(!recognized_key(trimmed(ls[i as int])));
            return Err(FormatError::UnknownKey);
        }
        if i + 1 == n {
            assert(ls.skip(i as int).len() == 1);
            return Err(FormatError::MissingValue);
        }
        proof {
            assert(ls[i as int + 1] == lines@[i as int + 1].deep_view());
            assert(lines@[i as int + 1].deep_view() =~= lines@[i as int + 1]@);
            assert(ls.skip(i as int)[1] == ls[i as int + 1]);
            assert(ls.skip(i as int).len() != 1);
        }
        let vl = trim_chars(&lines[i + 1]);
        if vl.len() == 0 {
            return Err(FormatError::MissingValue);
        }
        proof {
            assert(ls.skip(i as int).skip(2) =~= ls.skip(i as int + 2));
            lemma_trimmed_value(ls[i as int + 1]);
        }
        if is_id {
            match parse_u32(&vl) {
                Some(v) => {
                    proof {
                        assert(decode_header(ls.skip(i as int), acc) == decode_header(
                            ls.skip(i as int + 2),
                            acc.with_id(v),
                        ));
                    }
                    id = Some(v);
                },
                None => {
                    return Err(FormatError::BadInt);
                },
            }
        } else if is_alternative {
            proof {
                assert(decode_header(ls.skip(i as int), acc) == decode_header(
                    ls.skip(i as int + 2),
                    acc.with_alternative(vl@),
                ));
            }
            alternative = Some(chars_to_string(&vl));
        } else if is_create {
            let value = chars_to_string(&vl);
            match parse_rfc3339(value.as_str()) {
                Some(t) => {
                    if !t.is_wf() {
                        return Err(FormatError::BadTimestamp);
                    }
                    proof {
                        assert(decode_header(ls.skip(i as int), acc) == decode_header(
                            ls.skip(i as int + 2),
                            acc.with_create(t),
                        ));
                    }
                    create_at = Some(t);
                },
                None => {
                    return Err(FormatError::BadTimestamp);
                },
            }
        } else if is_update {
            let value = chars_to_string(&vl);
            match parse_rfc3339(value.as_str()) {
                Some(t) => {
                    if !t.is_wf() {
                        return Err(FormatError::BadTimestamp);
                    }
                    proof {
                        assert(decode_header(ls.skip(i as int), acc) == decode_header(
                            ls.skip(i as int + 2),
                            acc.with_update(t),
                        ));
                    }
                    update_at.push(t);
                },
                None => {
                    return Err(FormatError::BadTimestamp);
                },
            }
        } else if is_title {
            proof {
                assert(decode_header(ls.skip(i as int), acc) == decode_header(
                    ls.skip(i as int + 2),
                    acc.with_title(vl@),
                ));
            }
            title = Some(chars_to_string(&vl));
        } else if is_parent {
            match parse_u32(&vl) {
                Some(v) => {
                    proof {
                        assert(decode_header(ls.skip(i as int), acc) == decode_header(
                            ls.skip(i as int + 2),
                            acc.with_parent(v),
                        ));
                    }
                    parent_id = Some(v);
                },
                None => {
                    return Err(FormatError::BadInt);
                },
            }
        } else {
            match parse_u32(&vl) {
                Some(v) => {
                    proof {
                        assert(decode_header(ls.skip(i as int), acc) == decode_header(
                            ls.skip(i as int + 2),
                            acc.with_previous(v),
                        ));
                    }
                    previous_ids.push(v);
                },
                None => {
                    return Err(FormatError::BadInt);
                },
            }
        }
        i = i + 2;
    }
    let ghost acc = acc_of(
        id,
        alternative,
        create_at,
        update_at@,
        title,
        parent_id,
        previous_ids@,
        top_level,
        image,
    );
    assert(decode_lines_spec(ls) == finish_decode(acc, ls.skip(body_start as int)));
    let idv: u32 = match id {
        Some(v) => v,
        None => {
            return Err(FormatError::MissingId);
        },
    };
    let create: Timestamp = match create_at {
        Some(t) => t,
        None => {
            return Err(FormatError::MissingCreate);
        },
    };
    let mut paras: Vec<String> = Vec::new();
    let mut j: usize = body_start;
    proof {
        assert(paras.deep_view() =~~= Seq::<Seq<char>>::empty());
        assert(paras.deep_view() + body_paragraphs(ls.skip(j as int)) =~~= body_paragraphs(
            ls.skip(j as int),
        ));
    }
    while j < n
        invariant
            body_start <= j <= n,
            n == ls.len(),
            ls == lines.deep_view(),
            forall|k: int| 0 <= k < ls.len() ==> nl_free(#[trigger] ls[k]),
            body_paragraphs(ls.skip(body_start as int)) == paras.deep_view() + body_paragraphs(
                ls.skip(j as int),
            ),
            forall|k: int| 0 <= k < paras.deep_view().len() ==> value_ok(
                #[trigger] paras.deep_view()[k],
            ),
        decreases n - j,
    {
        proof {
            assert(ls[j as int] == lines@[j as int].deep_view());
            assert(lines@[j as int].deep_view() =~= lines@[j as int]@);
            assert(ls.skip(j as int)[0] == ls[j as int]);
            assert(ls.skip(j as int).drop_first() =~= ls.skip(j as int + 1));
        }
        let tl = trim_chars(&lines[j]);
        if tl.len() > 0 {
            proof {
                lemma_trimmed_value(ls[j as int]);
            }
            let ghost before = paras.deep_view();
            paras.push(chars_to_string(&tl));
            proof {
                assert(paras.deep_view() =~~= before.push(trimmed(ls[j as int])));
                assert(before.push(trimmed(ls[j as int])) =~~= before + seq![
                    trimmed(ls[j as int]),
                ]);
                assert(paras.deep_view() + body_paragraphs(ls.skip(j as int + 1)) =~~= before + (
                seq![trimmed(ls[j as int])] + body_paragraphs(ls.skip(j as int + 1))));
            }
        }
        j = j + 1;
    }
    proof {
        assert(ls.skip(n as int) =~= Seq::<Seq<char>>::empty());
        assert(body_paragraphs(Seq::<Seq<char>>::empty()) =~~= Seq::<Seq<char>>::empty());
        assert(paras.deep_view() =~~= body_paragraphs(ls.skip(body_start as int)));
    }
    let content: NoteContent = if image {
        if paras.len() == 0 {
            return Err(FormatError::MissingImagePath);
        }
        if paras.len() > 1 {
            return Err(FormatError::ExtraImageBody);
        }
        let path = paras.remove(0);
        assert(path@ == body_paragraphs(ls.skip(body_start as int))[0]);
        NoteContent::Image(path)
    } else {
        NoteContent::PlainText(paras)
    };
    let cn = ConnectedNote {
        note: Note {
            id: idv,
            alternative: alternative,
            create_at: create,
            update_at: update_at,
            title: title,
            content: content,
        },
        parent_id: parent_id,
        previous_ids: previous_ids,
        top_level: top_level,
    };
    assert(cn@ == assemble(acc, cn.note.content@));
    Ok(cn)
}

/// Writes the record text of a note.  The second clause is the round-trip
/// law: decoding what was written yields the note back, every field — the
/// order of the `update` entries and the `previous` ids included.
#[verifier::loop_isolation(false)]
#[verifier::rlimit(60)]
pub fn encode(cn: &ConnectedNote) -> (r: String)
    requires
        cn@.wf(),
    ensures
        r@ == encode_text_spec(cn@),
        decode_text_spec(r@) == Ok::<ConnectedNoteView, FormatError>(cn@),
{
    let ghost v = cn@;
    let mut lines: Vec<Vec<char>> = Vec::new();
    if cn.top_level {
        lines.push(str_chars("top level"));
    }
    let ghost h1 = (if v.top_level {
        seq!["top level"@]
    } else {
        Seq::<Seq<char>>::empty()
    });
    proof {
        assert(lines.deep_view() =~~= h1);
    }
    lines.push(str_chars("id"));
    lines.push(u32_to_chars(cn.note.id));
    let ghost h2 = h1 + seq!["id"@, dec_chars(v.note.id as nat)];
    proof {
        assert(lines.deep_view() =~~= h2);
    }
    match &cn.note.alternative {
        Some(a) => {
            lines.push(str_chars("alternative"));
            lines.push(str_chars(a.as_str()));
        },
        None => {},
    }
    let ghost h3 = h2 + (match v.note.alternative {
        Some(a) => seq!["alternative"@, a],
        None => Seq::<Seq<char>>::empty(),
    });
    proof {
        assert(lines.deep_view() =~~= h3);
    }
    lines.push(str_chars("create"));
    let create_line = format_rfc3339(&cn.note.create_at);
    lines.push(str_chars(create_line.as_str()));
    let ghost h4 = h3 + seq!["create"@, ts_text(v.note.create_at)];
    proof {
        assert(lines.deep_view() =~~= h4);
    }
    let mut k: usize = 0;
    proof {
        assert(v.note.update_at.skip(0) =~= v.note.update_at);
    }
    while k < cn.note.update_at.len()
        invariant
            k <= v.note.update_at.len(),
            h4 + update_lines(v.note.update_at) == lines.deep_view() + update_lines(
                v.note.update_at.skip(k as int),
            ),
            forall|j: int|
                0 <= j < k ==> parse_back(#[trigger] v.note.update_at[j]) && value_ok(
                    ts_text(v.note.update_at[j]),
                ),
        decreases v.note.update_at.len() - k,
    {
        let ghost before = lines.deep_view();
        let ghost us = v.note.update_at;
        lines.push(str_chars("update"));
        let line = format_rfc3339(&cn.note.update_at[k]);
        lines.push(str_chars(line.as_str()));
        proof {
            assert(us.skip(k as int).drop_first() =~= us.skip(k as int + 1));
            assert(update_lines(us.skip(k as int)) == seq!["update"@, ts_text(us[k as int])]
                + update_lines(us.skip(k as int + 1)));
            assert(lines.deep_view() =~~= before + seq!["update"@, ts_text(us[k as int])]);
            assert((before + seq!["update"@, ts_text(us[k as int])]) + update_lines(
                us.skip(k as int + 1),
            ) =~~= before + (seq!["update"@, ts_text(us[k as int])] + update_lines(
                us.skip(k as int + 1),
            )));
        }
        k = k + 1;
    }
    let ghost h5 = h4 + update_lines(v.note.update_at);
    proof {
        assert(v.note.update_at.skip(v.note.update_at.len() as int) =~= Seq::<Timestamp>::empty());
        assert(update_lines(Seq::<Timestamp>::empty()) =~~= Seq::<Seq<char>>::empty());
        assert(lines.deep_view() + Seq::<Seq<char>>::empty() =~~= lines.deep_view());
        assert(lines.deep_view() =~~= h5);
    }
    match &cn.parent_id {
        Some(p) => {
            lines.push(str_chars("parent"));
            lines.push(u32_to_chars(*p));
        },
        None => {},
    }
    let ghost h6 = h5 + (match v.parent_id {
        Some(p) => seq!["parent"@, dec_chars(p as nat)],
        None => Seq::<Seq<char>>::empty(),
    });
    proof {
        assert(lines.deep_view() =~~= h6);
    }
    let mut k2: usize = 0;
    proof {
        assert(v.previous_ids.skip(0) =~= v.previous_ids);
    }
    while k2 < cn.previous_ids.len()
        invariant
            k2 <= v.previous_ids.len(),
            h6 + previous_lines(v.previous_ids) == lines.deep_view() + previous_lines(
                v.previous_ids.skip(k2 as int),
            ),
        decreases v.previous_ids.len() - k2,
    {
        let ghost before = lines.deep_view();
        let ghost ids = v.previous_ids;
        lines.push(str_chars("previous"));
        lines.push(u32_to_chars(cn.previous_ids[k2]));
        proof {
            assert(ids.skip(k2 as int).drop_first() =~= ids.skip(k2 as int + 1));
            assert(previous_lines(ids.skip(k2 as int)) == seq![
                "previous"@,
                dec_chars(ids[k2 as int] as nat),
            ] + previous_lines(ids.skip(k2 as int + 1)));
            assert(lines.deep_view() =~~= before + seq![
                "previous"@,
                dec_chars(ids[k2 as int] as nat),
            ]);
            assert((before + seq!["previous"@, dec_chars(ids[k2 as int] as nat)])
                + previous_lines(ids.skip(k2 as int + 1)) =~~= before + (seq![
                "previous"@,
                dec_chars(ids[k2 as int] as nat),
            ] + previous_lines(ids.skip(k2 as int + 1))));
        }
        k2 = k2 + 1;
    }
    let ghost h7 = h6 + previous_lines(v.previous_ids);
    proof {
        assert(v.previous_ids.skip(v.previous_ids.len() as int) =~= Seq::<u32>::empty());
        assert(previous_lines(Seq::<u32>::empty()) =~~= Seq::<Seq<char>>::empty());
        assert(lines.deep_view() + Seq::<Seq<char>>::empty() =~~= lines.deep_view());
        assert(lines.deep_view() =~~= h7);
    }
    match &cn.note.title {
        Some(t) => {
            lines.push(str_chars("title"));
            lines.push(str_chars(t.as_str()));
        },
        None => {},
    }
    let ghost h8 = h7 + (match v.note.title {
        Some(t) => seq!["title"@, t],
        None => Seq::<Seq<char>>::empty(),
    });
    proof {
        assert(lines.deep_view() =~~= h8);
        assert(h8 =~~= header_lines(v));
    }
    match &cn.note.content {
        NoteContent::PlainText(ps) => {
            let ghost pv = ps.deep_view();
            let mut k3: usize = 0;
            proof {
                assert(pv.skip(0) =~= pv);
            }
            while k3 < ps.len()
                invariant
                    k3 <= pv.len(),
                    pv == ps.deep_view(),
                    h8 + para_lines(pv) == lines.deep_view() + para_lines(pv.skip(k3 as int)),
                decreases pv.len() - k3,
            {
                let ghost before = lines.deep_view();
                let blank: Vec<char> = Vec::new();
                lines.push(blank);
                lines.push(str_chars(ps[k3].as_str()));
                proof {
                    assert(pv[k3 as int] == ps@[k3 as int]@);
                    assert(pv.skip(k3 as int).drop_first() =~= pv.skip(k3 as int + 1));
                    assert(para_lines(pv.skip(k3 as int)) == seq![
                        Seq::<char>::empty(),
                        pv[k3 as int],
                    ] + para_lines(pv.skip(k3 as int + 1)));
                    assert(lines.deep_view() =~~= before + seq![
                        Seq::<char>::empty(),
                        pv[k3 as int],
                    ]);
                    assert((before + seq![Seq::<char>::empty(), pv[k3 as int]]) + para_lines(
                        pv.skip(k3 as int + 1),
                    ) =~~= before + (seq![Seq::<char>::empty(), pv[k3 as int]] + para_lines(
                        pv.skip(k3 as int + 1),
                    )));
                }
                k3 = k3 + 1;
            }
            proof {
                assert(pv.skip(pv.len() as int) =~= Seq::<Seq<char>>::empty());
                assert(para_lines(Seq::<Seq<char>>::empty()) =~~= Seq::<Seq<char>>::empty());
                assert(lines.deep_view() + Seq::<Seq<char>>::empty() =~~= lines.deep_view());
                assert(lines.deep_view() =~~= h8 + para_lines(pv));
                assert(lines.deep_view() =~~= encode_lines(v));
            }
        },
        NoteContent::Image(path) => {
            lines.push(str_chars("image"));
            let blank: Vec<char> = Vec::new();
            lines.push(blank);
            lines.push(str_chars(path.as_str()));
            proof {
                assert(lines.deep_view() =~~= encode_lines(v));
            }
        },
    }
    let r = join_to_string(&lines);
    proof {
        lemma_decode_encode(v);
        crate::text::lemma_split_join(encode_lines(v));
        assert(line_split(r@) == encode_lines(v).push(Seq::<char>::empty()));
    }
    r
}

/// Decodes one record text.  Fails exactly where `decode_text_spec` says;
/// a decoded note is well formed.
pub fn decode(s: &str) -> (r: Result<ConnectedNote, FormatError>)
    ensures
        match r {
            Ok(cn) => decode_text_spec(s@) == Ok::<ConnectedNoteView, FormatError>(cn@)
                && cn@.wf(),
            Err(e) => decode_text_spec(s@) == Err::<ConnectedNoteView, FormatError>(e),
        },
{
    let chars = str_chars(s);
    let lines = split_lines(&chars);
    proof {
        lemma_line_split_nl_free(s@);
    }
    decode_lines(&lines)
}

} // verus!
