//! Translation of local edits into protocol change descriptors, and the
//! per-document version counter whose values stamp each emitted change.
use vstd::prelude::*;

use crate::position::Encoding;
use crate::text::Edit;
use crate::text::ProtocolPosition;
use crate::text::Text;
use crate::text::edit_in_range;
use crate::text::spec_apply_edit;
use crate::text::spec_protocol_character;

verus! {

/// One protocol change descriptor: replace the half-open range
/// `[start, end)` by `text`. A line break in `text` is stored canonically as
/// a single break character; `wire_text` renders the two-character terminator
/// the protocol carries.
pub struct ChangeDescriptor {
    pub start: ProtocolPosition,
    pub end: ProtocolPosition,
    pub text: Vec<char>,
}

/// The (line, character) pair, in protocol code units, where the descriptor's
/// range starts: the start is computed from the pre-edit location.
pub open spec fn spec_edit_start(doc: Seq<Seq<char>>, e: Edit, enc: Encoding) -> (int, int) {
    match e {
        Edit::InsertChar { row, col, .. } => (
            row as int,
            spec_protocol_character(doc, row as int, col as int, enc),
        ),
        Edit::DeleteChar { row, col } => (
            row as int,
            spec_protocol_character(doc, row as int, col as int, enc),
        ),
        Edit::SplitLine { row, col } => (
            row as int,
            spec_protocol_character(doc, row as int, col as int, enc),
        ),
        Edit::MergeLine { row } => (
            row as int,
            spec_protocol_character(doc, row as int, doc[row as int].len() as int, enc),
        ),
        Edit::InsertStr { row, col, .. } => (
            row as int,
            spec_protocol_character(doc, row as int, col as int, enc),
        ),
        Edit::RemoveStr { row, start, .. } => (
            row as int,
            spec_protocol_character(doc, row as int, start as int, enc),
        ),
    }
}

/// Where the descriptor's range ends. A pure insertion ends where it starts;
/// deleting one character ends one unit later; an edit that adds or removes a
/// line break ends at the start of the next line; removing a substring ends
/// just past it.
pub open spec fn spec_edit_end(doc: Seq<Seq<char>>, e: Edit, enc: Encoding) -> (int, int) {
    match e {
        Edit::InsertChar { row, col, .. } => spec_edit_start(doc, e, enc),
        Edit::DeleteChar { row, col } => (
            row as int,
            spec_protocol_character(doc, row as int, col as int, enc) + 1,
        ),
        Edit::SplitLine { row, .. } => (row + 1, 0),
        Edit::MergeLine { row } => (row + 1, 0),
        Edit::InsertStr { row, col, .. } => spec_edit_start(doc, e, enc),
        Edit::RemoveStr { row, start, len } => (
            row as int,
            spec_protocol_character(doc, row as int, start + len, enc),
        ),
    }
}

/// The descriptor's replacement text, in canonical form.
pub open spec fn spec_edit_text(e: Edit) -> Seq<char> {
    match e {
        Edit::InsertChar { ch, .. } => seq![ch],
        Edit::DeleteChar { .. } => Seq::empty(),
        Edit::SplitLine { .. } => seq!['\n'],
        Edit::MergeLine { .. } => Seq::empty(),
        Edit::InsertStr { text, .. } => text@,
        Edit::RemoveStr { .. } => Seq::empty(),
    }
}

/// All four coordinates of the descriptor fit the protocol's 32-bit fields.
pub open spec fn spec_translation_fits(doc: Seq<Seq<char>>, e: Edit, enc: Encoding) -> bool {
    let s = spec_edit_start(doc, e, enc);
    let t = spec_edit_end(doc, e, enc);
    s.0 <= u32::MAX && s.1 <= u32::MAX && t.0 <= u32::MAX && t.1 <= u32::MAX
}

/// Map an in-range edit to its protocol change descriptor, per the fixed
/// translation table: start from the pre-edit location; for pure insertions
/// start == end; for deletions both ends from the pre-edit locations. `None`
/// only when a coordinate does not fit the protocol's 32-bit fields.
pub fn translate(text: &Text, e: &Edit, enc: Encoding) -> (r: Option<ChangeDescriptor>)
    requires
        text.wf(),
        edit_in_range(text@, *e),
    ensures
        r is Some <==> spec_translation_fits(text@, *e, enc),
        r is Some ==> {
            let s = spec_edit_start(text@, *e, enc);
            let t = spec_edit_end(text@, *e, enc);
            &&& r->0.start.line == s.0
            &&& r->0.start.character == s.1
            &&& r->0.end.line == t.0
            &&& r->0.end.character == t.1
            &&& r->0.text@ == spec_edit_text(*e)
        },
{
    match e {
        Edit::InsertChar { row, col, ch } => {
            match text.to_protocol_position(*row, *col, enc) {
                Some(p) => {
                    let mut t: Vec<char> = Vec::new();
                    t.push(*ch);
                    proof {
                        assert(t@ =~= spec_edit_text(*e));
                    }
                    Some(ChangeDescriptor { start: p, end: p, text: t })
                },
                None => None,
            }
        },
        Edit::DeleteChar { row, col } => {
            match text.to_protocol_position(*row, *col, enc) {
                Some(p) => {
                    if p.character == u32::MAX {
                        None
                    } else {
                        Some(
                            ChangeDescriptor {
                                start: p,
                                end: ProtocolPosition {
                                    line: p.line,
                                    character: p.character + 1,
                                },
                                text: Vec::new(),
                            },
                        )
                    }
                },
                None => None,
            }
        },
        Edit::SplitLine { row, col } => {
            match text.to_protocol_position(*row, *col, enc) {
                Some(p) => {
                    if p.line == u32::MAX {
                        None
                    } else {
                        let mut t: Vec<char> = Vec::new();
                        t.push('\n');
                        proof {
                            assert(t@ =~= spec_edit_text(*e));
                        }
                        Some(
                            ChangeDescriptor {
                                start: p,
                                end: ProtocolPosition { line: p.line + 1, character: 0 },
                                text: t,
                            },
                        )
                    }
                },
                None => None,
            }
        },
        Edit::MergeLine { row } => {
            let end_col = text.line_len(*row);
            match text.to_protocol_position(*row, end_col, enc) {
                Some(p) => {
                    if p.line == u32::MAX {
                        None
                    } else {
                        Some(
                            ChangeDescriptor {
                                start: p,
                                end: ProtocolPosition { line: p.line + 1, character: 0 },
                                text: Vec::new(),
                            },
                        )
                    }
                },
                None => None,
            }
        },
        Edit::InsertStr { row, col, text: s } => {
            match text.to_protocol_position(*row, *col, enc) {
                Some(p) => {
                    let mut t: Vec<char> = Vec::new();
                    let mut k: usize = 0;
                    while k < s.len()
                        invariant
                            0 <= k <= s@.len(),
                            t@ =~= s@.take(k as int),
                        decreases s@.len() - k,
                    {
                        t.push(s[k]);
                        k = k + 1;
                    }
                    proof {
                        assert(t@ =~= s@);
                    }
                    Some(ChangeDescriptor { start: p, end: p, text: t })
                },
                None => None,
            }
        },
        Edit::RemoveStr { row, start, len } => {
            let line_n = text.line_len(*row);
            proof {
                assert(*start + *len <= line_n);
            }
            match text.to_protocol_position(*row, *start, enc) {
                Some(p) => {
                    match text.to_protocol_position(*row, *start + *len, enc) {
                        Some(q) => Some(ChangeDescriptor { start: p, end: q, text: Vec::new() }),
                        None => None,
                    }
                },
                None => None,
            }
        },
    }
}

impl ChangeDescriptor {
    /// The replacement text as the protocol carries it: each canonical break
    /// becomes the two-character line terminator, other characters unchanged.
    pub fn wire_text(&self) -> (r: Vec<char>)
        ensures
            r@ == spec_wire_text(self.text@),
    {
        let mut r: Vec<char> = Vec::new();
        let mut k: usize = 0;
        proof {
            assert(self.text@.take(0) =~= Seq::<char>::empty());
            assert(spec_wire_text(Seq::<char>::empty()) =~= Seq::<char>::empty());
        }
        while k < self.text.len()
            invariant
                0 <= k <= self.text@.len(),
                r@ =~= spec_wire_text(self.text@.take(k as int)),
            decreases self.text@.len() - k,
        {
            let c = self.text[k];
            proof {
                lemma_wire_text_push(self.text@.take(k as int), self.text@[k as int]);
                assert(self.text@.take(k as int).push(self.text@[k as int]) =~= self.text@.take(
                    k + 1,
                ));
            }
            if c == '\n' {
                r.push('\r');
                r.push('\n');
            } else {
                r.push(c);
            }
            k = k + 1;
        }
        proof {
            assert(self.text@.take(self.text@.len() as int) =~= self.text@);
        }
        r
    }
}

/// Canonical text rendered for the wire: breaks expand to the two-character
/// terminator.
pub open spec fn spec_wire_text(s: Seq<char>) -> Seq<char>
    decreases s.len(),
{
    if s.len() == 0 {
        Seq::empty()
    } else if s[0] == '\n' {
        seq!['\r', '\n'] + spec_wire_text(s.drop_first())
    } else {
        seq![s[0]] + spec_wire_text(s.drop_first())
    }
}

proof fn lemma_wire_text_push(s: Seq<char>, c: char)
    ensures
        c == '\n' ==> spec_wire_text(s.push(c)) =~= spec_wire_text(s) + seq!['\r', '\n'],
        c != '\n' ==> spec_wire_text(s.push(c)) =~= spec_wire_text(s) + seq![c],
    decreases s.len(),
{
    let sp = s.push(c);
    if s.len() == 0 {
        assert(sp.len() == 1);
        assert(sp[0] == c);
        assert(sp.drop_first() =~= Seq::<char>::empty());
        assert(spec_wire_text(Seq::<char>::empty()) == Seq::<char>::empty());
        if c == '\n' {
            assert(spec_wire_text(sp) == seq!['\r', '\n'] + spec_wire_text(sp.drop_first()));
            assert(spec_wire_text(sp) =~= spec_wire_text(s) + seq!['\r', '\n']);
        } else {
            assert(spec_wire_text(sp) == seq![c] + spec_wire_text(sp.drop_first()));
            assert(spec_wire_text(sp) =~= spec_wire_text(s) + seq![c]);
        }
    } else {
        assert(sp[0] == s[0]);
        assert(sp.drop_first() =~= s.drop_first().push(c));
        lemma_wire_text_push(s.drop_first(), c);
        let piece = if s[0] == '\n' {
            seq!['\r', '\n']
        } else {
            seq![s[0]]
        };
        assert(spec_wire_text(sp) == piece + spec_wire_text(s.drop_first().push(c)));
        assert(spec_wire_text(s) == piece + spec_wire_text(s.drop_first()));
        if c == '\n' {
            assert(spec_wire_text(sp) =~= spec_wire_text(s) + seq!['\r', '\n']);
        } else {
            assert(spec_wire_text(sp) =~= spec_wire_text(s) + seq![c]);
        }
    }
}

/// How an independent receiver of a change descriptor decodes one protocol
/// position against its own copy of the text: a line past the end clamps to
/// the end of the document; within a line, the unit offset must land on a
/// character boundary.
pub open spec fn spec_decode_position(
    doc: Seq<Seq<char>>,
    l: int,
    u: int,
    enc: Encoding,
) -> Option<(int, int)> {
    if l >= doc.len() {
        Some((doc.len() as int, 0))
    } else {
        match crate::position::spec_decode_col(doc[l], u, enc) {
            Some(c) => Some((l, c)),
            None => None,
        }
    }
}

/// Replacing the region between two decoded character locations by the given
/// segments (a replacement text already split on line breaks).
pub open spec fn spec_splice(
    doc: Seq<Seq<char>>,
    l1: int,
    c1: int,
    l2: int,
    c2: int,
    segs: Seq<Seq<char>>,
) -> Seq<Seq<char>>
    recommends
        segs.len() >= 1,
{
    let startline = crate::text::line_or_empty(doc, l1).take(c1);
    let rows0 = crate::text::cons_first(startline, segs);
    if l2 < doc.len() {
        let rows = rows0.update(rows0.len() - 1, rows0.last() + doc[l2].skip(c2));
        doc.take(l1) + rows + doc.skip(l2 + 1)
    } else {
        let rows = if rows0.last().len() == 0 {
            rows0.drop_last()
        } else {
            rows0
        };
        doc.take(l1) + rows
    }
}

/// What an independent receiver's text becomes on one change descriptor:
/// both positions decoded against its own text, the replacement split on line
/// breaks, and the region between them replaced. `None` when a position does
/// not decode or the range is inverted.
pub open spec fn spec_replay(
    doc: Seq<Seq<char>>,
    start_l: int,
    start_u: int,
    end_l: int,
    end_u: int,
    text: Seq<char>,
    enc: Encoding,
) -> Option<Seq<Seq<char>>> {
    match (spec_decode_position(doc, start_l, start_u, enc), spec_decode_position(
        doc,
        end_l,
        end_u,
        enc,
    )) {
        (Some(s), Some(t)) => if s.0 < t.0 || (s.0 == t.0 && s.1 <= t.1) {
            Some(spec_splice(doc, s.0, s.1, t.0, t.1, crate::text::spec_split_rest(text)))
        } else {
            None
        },
        _ => None,
    }
}

/// The edits whose descriptor replays to the same text the local mutation
/// produces. Deleting a character that spans more than one code unit does
/// not: the descriptor's range ends one unit after its start, which then
/// covers only part of the character. Splitting a line anywhere but past the
/// last line does not either: the emitted range reaches to the start of the
/// next line, so the receiver keeps one line where the local buffer gains
/// one.
pub open spec fn spec_replay_faithful(doc: Seq<Seq<char>>, e: Edit, enc: Encoding) -> bool {
    match e {
        Edit::DeleteChar { row, col } => crate::position::spec_unit_width(
            doc[row as int][col as int],
            enc,
        ) == 1,
        Edit::SplitLine { row, .. } => row == doc.len(),
        _ => true,
    }
}

/// A replacement text without line breaks is one single segment.
proof fn lemma_split_rest_no_break(t: Seq<char>)
    requires
        crate::text::line_wf(t),
    ensures
        crate::text::spec_split_rest(t) =~= seq![t],
    decreases t.len(),
{
    if t.len() == 0 {
        assert(crate::text::spec_split_rest(t) == seq![Seq::<char>::empty()]);
        assert(t =~= Seq::<char>::empty());
    } else {
        assert(t[0] != '\n');
        lemma_split_rest_no_break(t.drop_first());
        assert(crate::text::spec_split_rest(t) == crate::text::cons_first(
            seq![t[0]],
            crate::text::spec_split_rest(t.drop_first()),
        ));
        assert(crate::text::cons_first(seq![t[0]], seq![t.drop_first()]) =~= seq![
            seq![t[0]] + t.drop_first(),
        ]);
        assert(seq![t[0]] + t.drop_first() =~= t);
    }
}

/// For every edit its table entry replays faithfully: applying the emitted
/// descriptor to an identical independent copy of the pre-edit text yields
/// exactly the locally mutated text. Deleting a multi-unit character and
/// splitting a line before the end of the document are the exceptions, left
/// out by `spec_replay_faithful`.
#[verifier::rlimit(60)]
#[verifier::spinoff_prover]
pub proof fn lemma_replay_step(doc: Seq<Seq<char>>, e: Edit, enc: Encoding)
    requires
        crate::text::lines_wf(doc),
        edit_in_range(doc, e),
        spec_replay_faithful(doc, e, enc),
    ensures
        ({
            let s = spec_edit_start(doc, e, enc);
            let t = spec_edit_end(doc, e, enc);
            spec_replay(doc, s.0, s.1, t.0, t.1, spec_edit_text(e), enc) == Some(
                spec_apply_edit(doc, e),
            )
        }),
{
    match e {
        Edit::InsertChar { row, col, ch } => {
            let line = doc[row as int];
            crate::position::lemma_decode_col_unique(
                line,
                spec_protocol_character(doc, row as int, col as int, enc),
                enc,
                col as int,
            );
            let segs = crate::text::spec_split_rest(seq![ch]);
            lemma_split_rest_no_break(seq![ch]);
            let rows0 = crate::text::cons_first(line.take(col as int), segs);
            assert(rows0 =~= seq![line.take(col as int) + seq![ch]]);
            let rows = rows0.update(0, rows0.last() + line.skip(col as int));
            assert(rows =~= seq![line.take(col as int) + seq![ch] + line.skip(col as int)]);
            assert(line.insert(col as int, ch) =~= line.take(col as int) + seq![ch] + line.skip(
                col as int,
            ));
            assert(spec_splice(doc, row as int, col as int, row as int, col as int, segs) =~= doc
                .update(row as int, line.insert(col as int, ch)));
        },
        Edit::DeleteChar { row, col } => {
            let line = doc[row as int];
            let u = spec_protocol_character(doc, row as int, col as int, enc);
            crate::position::lemma_decode_col_unique(line, u, enc, col as int);
            crate::position::lemma_decode_col_unique(line, u + 1, enc, col + 1);
            let segs = crate::text::spec_split_rest(Seq::<char>::empty());
            assert(segs == seq![Seq::<char>::empty()]);
            let rows0 = crate::text::cons_first(line.take(col as int), segs);
            assert(rows0 =~= seq![line.take(col as int)]);
            let rows = rows0.update(0, rows0.last() + line.skip(col + 1));
            assert(rows =~= seq![line.take(col as int) + line.skip(col + 1)]);
            assert(line.remove(col as int) =~= line.take(col as int) + line.skip(col + 1));
            assert(spec_splice(doc, row as int, col as int, row as int, col + 1, segs) =~= doc
                .update(row as int, line.remove(col as int)));
        },
        Edit::SplitLine { row, col } => {
            let segs = crate::text::spec_split_rest(seq!['\n']);
            assert(seq!['\n'][0] == '\n');
            assert(seq!['\n'].drop_first() =~= Seq::<char>::empty());
            assert(segs == seq![Seq::<char>::empty()] + crate::text::spec_split_rest(
                Seq::<char>::empty(),
            ));
            assert(segs =~= seq![Seq::<char>::empty(), Seq::<char>::empty()]);
            let startline = crate::text::line_or_empty(doc, row as int).take(col as int);
            assert(startline =~= Seq::<char>::empty());
            let rows0 = crate::text::cons_first(startline, segs);
            assert(rows0 =~= seq![Seq::<char>::empty(), Seq::<char>::empty()]);
            assert(rows0.last().len() == 0);
            assert(rows0.drop_last() =~= seq![Seq::<char>::empty()]);
            assert(doc.take(row as int) =~= doc);
            assert(spec_splice(doc, row as int, 0, row as int, 0, segs) =~= doc.push(
                Seq::<char>::empty(),
            ));
        },
        Edit::MergeLine { row } => {
            let line = doc[row as int];
            let u = spec_protocol_character(doc, row as int, line.len() as int, enc);
            crate::position::lemma_decode_col_unique(line, u, enc, line.len() as int);
            crate::position::lemma_decode_col_unique(doc[row + 1], 0, enc, 0);
            let segs = crate::text::spec_split_rest(Seq::<char>::empty());
            assert(segs == seq![Seq::<char>::empty()]);
            let rows0 = crate::text::cons_first(line.take(line.len() as int), segs);
            assert(line.take(line.len() as int) =~= line);
            assert(rows0 =~= seq![line]);
            let rows = rows0.update(0, rows0.last() + doc[row + 1].skip(0));
            assert(doc[row + 1].skip(0) =~= doc[row + 1]);
            assert(rows =~= seq![line + doc[row + 1]]);
            assert(spec_splice(doc, row as int, line.len() as int, row + 1, 0, segs) =~= doc.take(
                row as int,
            ) + seq![line + doc[row + 1]] + doc.skip(row + 2));
        },
        Edit::InsertStr { row, col, text } => {
            let line = doc[row as int];
            crate::position::lemma_decode_col_unique(
                line,
                spec_protocol_character(doc, row as int, col as int, enc),
                enc,
                col as int,
            );
            lemma_split_rest_no_break(text@);
            let segs = crate::text::spec_split_rest(text@);
            let rows0 = crate::text::cons_first(line.take(col as int), segs);
            assert(rows0 =~= seq![line.take(col as int) + text@]);
            let rows = rows0.update(0, rows0.last() + line.skip(col as int));
            assert(rows =~= seq![line.take(col as int) + text@ + line.skip(col as int)]);
            assert(spec_splice(doc, row as int, col as int, row as int, col as int, segs) =~= doc
                .update(row as int, line.take(col as int) + text@ + line.skip(col as int)));
        },
        Edit::RemoveStr { row, start, len } => {
            let line = doc[row as int];
            let u1 = spec_protocol_character(doc, row as int, start as int, enc);
            let u2 = spec_protocol_character(doc, row as int, start + len, enc);
            crate::position::lemma_decode_col_unique(line, u1, enc, start as int);
            crate::position::lemma_decode_col_unique(line, u2, enc, start + len);
            let segs = crate::text::spec_split_rest(Seq::<char>::empty());
            assert(segs == seq![Seq::<char>::empty()]);
            let rows0 = crate::text::cons_first(line.take(start as int), segs);
            assert(rows0 =~= seq![line.take(start as int)]);
            let rows = rows0.update(0, rows0.last() + line.skip(start + len));
            assert(rows =~= seq![line.take(start as int) + line.skip(start + len)]);
            assert(spec_splice(doc, row as int, start as int, row as int, start + len, segs)
                =~= doc.update(row as int, line.take(start as int) + line.skip(start + len)));
        },
    }
}

/// Each edit of the run is in range of, and replays faithfully against, the
/// text as it stands when that edit is applied.
pub open spec fn spec_edits_ok(doc: Seq<Seq<char>>, es: Seq<Edit>, enc: Encoding) -> bool
    decreases es.len(),
{
    es.len() == 0 || (edit_in_range(doc, es[0]) && spec_replay_faithful(doc, es[0], enc)
        && spec_edits_ok(spec_apply_edit(doc, es[0]), es.drop_first(), enc))
}

/// The text after a run of local edits.
pub open spec fn spec_apply_edits(doc: Seq<Seq<char>>, es: Seq<Edit>) -> Seq<Seq<char>>
    decreases es.len(),
{
    if es.len() == 0 {
        doc
    } else {
        spec_apply_edits(spec_apply_edit(doc, es[0]), es.drop_first())
    }
}

/// The receiver's text after replaying, in order, the descriptor of each
/// edit of the run, each descriptor translated against the sender's text as
/// it stood when that edit was made.
pub open spec fn spec_replay_edits(
    r: Seq<Seq<char>>,
    doc: Seq<Seq<char>>,
    es: Seq<Edit>,
    enc: Encoding,
) -> Option<Seq<Seq<char>>>
    decreases es.len(),
{
    if es.len() == 0 {
        Some(r)
    } else {
        let s = spec_edit_start(doc, es[0], enc);
        let t = spec_edit_end(doc, es[0], enc);
        match spec_replay(r, s.0, s.1, t.0, t.1, spec_edit_text(es[0]), enc) {
            None => None,
            Some(r2) => spec_replay_edits(r2, spec_apply_edit(doc, es[0]), es.drop_first(), enc),
        }
    }
}

/// Replaying the emitted change descriptors of any run of edits against an
/// independent receiver that starts with the same text — in particular, with
/// an initially empty document on both sides — leaves the receiver with text
/// identical to the locally mutated buffer.
pub proof fn lemma_replay_run(doc: Seq<Seq<char>>, es: Seq<Edit>, enc: Encoding)
    requires
        crate::text::lines_wf(doc),
        spec_edits_ok(doc, es, enc),
    ensures
        spec_replay_edits(doc, doc, es, enc) == Some(spec_apply_edits(doc, es)),
    decreases es.len(),
{
    if es.len() > 0 {
        lemma_replay_step(doc, es[0], enc);
        crate::text::lemma_apply_edit_wf(doc, es[0]);
        lemma_replay_run(spec_apply_edit(doc, es[0]), es.drop_first(), enc);
    }
}

/// The per-document version counter: strictly increasing, one fresh value per
/// emitted change, never reused.
pub struct VersionCounter {
    value: i32,
}

impl VersionCounter {
    pub closed spec fn current(&self) -> int {
        self.value as int
    }

    /// A new counter starts at zero.
    pub fn new() -> (c: VersionCounter)
        ensures
            c.current() == 0,
    {
        VersionCounter { value: 0 }
    }

    /// Take the next version: returns the current value and advances the
    /// counter, so no two calls ever return the same value.
    pub fn next(&mut self) -> (v: i32)
        requires
            old(self).current() < i32::MAX,
        ensures
            v as int == old(self).current(),
            final(self).current() == old(self).current() + 1,
    {
        let v = self.value;
        self.value = self.value + 1;
        v
    }
}

/// The versions a counter at `start` emits over `n` successive `next` calls.
pub open spec fn spec_versions(start: int, n: nat) -> Seq<int> {
    Seq::new(n, |i: int| start + i)
}

/// Versions emitted for one document are strictly increasing with no repeats:
/// any run of `next` calls yields `start, start + 1, ...`, pairwise distinct
/// and ordered.
pub proof fn lemma_versions_strictly_increasing(start: int, n: nat)
    ensures
        forall|i: int, j: int|
            0 <= i < j < n ==> spec_versions(start, n)[i] < spec_versions(start, n)[j],
{
}

} // verus!
