//! The keystroke-level edit decisions: which atomic edits one key produces at
//! the current cursor — including the synthetic blank-line burst when the
//! cursor stands past the last line — the change descriptor emitted for each,
//! and where the cursor lands.
use vstd::prelude::*;

use crate::position::Encoding;
use crate::text::Edit;
use crate::text::Text;
use crate::text::edit_in_range;
use crate::text::spec_apply_edit;
use crate::text::valid_location;
use crate::translate::ChangeDescriptor;
use crate::translate::spec_apply_edits;
use crate::translate::spec_edit_end;
use crate::translate::spec_edit_start;
use crate::translate::spec_edit_text;
use crate::translate::spec_translation_fits;
use crate::translate::translate;

verus! {

/// The cursor: a (row, column) pair in character units.
#[derive(Clone, Copy, PartialEq, Eq, Debug, Structural)]
pub struct Cursor {
    pub row: usize,
    pub col: usize,
}

pub open spec fn valid_cursor(doc: Seq<Seq<char>>, c: Cursor) -> bool {
    valid_location(doc, c.row as int, c.col as int)
}

/// The descriptor is the edit's table entry against the given text.
pub open spec fn spec_desc_matches(
    doc: Seq<Seq<char>>,
    e: Edit,
    enc: Encoding,
    d: ChangeDescriptor,
) -> bool {
    let s = spec_edit_start(doc, e, enc);
    let t = spec_edit_end(doc, e, enc);
    &&& d.start.line == s.0
    &&& d.start.character == s.1
    &&& d.end.line == t.0
    &&& d.end.character == t.1
    &&& d.text@ == spec_edit_text(e)
}

/// Each descriptor is its edit's table entry against the text as it stands
/// when that edit is applied.
pub open spec fn spec_descs_match(
    doc: Seq<Seq<char>>,
    es: Seq<Edit>,
    enc: Encoding,
    descs: Seq<ChangeDescriptor>,
) -> bool {
    &&& descs.len() == es.len()
    &&& forall|i: int|
        0 <= i < es.len() ==> spec_desc_matches(
            spec_apply_edits(doc, es.take(i)),
            es[i],
            enc,
            #[trigger] descs[i],
        )
}

/// Every edit of the run translates into 32-bit protocol coordinates against
/// the text as it stands when that edit is applied: the one machine limit the
/// editing functions assume.
pub open spec fn spec_edits_fit(doc: Seq<Seq<char>>, es: Seq<Edit>, enc: Encoding) -> bool
    decreases es.len(),
{
    es.len() == 0 || (spec_translation_fits(doc, es[0], enc) && spec_edits_fit(
        spec_apply_edit(doc, es[0]),
        es.drop_first(),
        enc,
    ))
}

/// The edits an enter keystroke applies: split the line at the cursor; at the
/// synthetic row past the last line this appends an empty line.
pub open spec fn spec_enter_edits(doc: Seq<Seq<char>>, c: Cursor) -> Seq<Edit> {
    seq![Edit::SplitLine { row: c.row, col: c.col }]
}

pub open spec fn spec_enter_cursor(doc: Seq<Seq<char>>, c: Cursor) -> Cursor {
    if c.row == doc.len() {
        c
    } else {
        Cursor { row: (c.row + 1) as usize, col: 0 }
    }
}

/// The edits a printable character applies: with the cursor past the last
/// line, first the synthetic blank-line edit, then the insertion.
pub open spec fn spec_character_edits(doc: Seq<Seq<char>>, c: Cursor, ch: char) -> Seq<Edit> {
    if c.row == doc.len() {
        seq![
            Edit::SplitLine { row: c.row, col: 0 },
            Edit::InsertChar { row: c.row, col: 0, ch },
        ]
    } else {
        seq![Edit::InsertChar { row: c.row, col: c.col, ch }]
    }
}

pub open spec fn spec_character_cursor(doc: Seq<Seq<char>>, c: Cursor, ch: char) -> Cursor {
    if c.row == doc.len() {
        Cursor { row: c.row, col: 1 }
    } else {
        Cursor { row: c.row, col: (c.col + 1) as usize }
    }
}

/// The edits a backspace applies: mid-line it deletes the character before
/// the cursor; at the head of a later line it merges that line into the one
/// above — from the synthetic row past the last line, after the synthetic
/// blank-line edit; at the head of the document, nothing.
pub open spec fn spec_backspace_edits(doc: Seq<Seq<char>>, c: Cursor) -> Seq<Edit> {
    if c.col > 0 {
        seq![Edit::DeleteChar { row: c.row, col: (c.col - 1) as usize }]
    } else if c.row == 0 {
        Seq::empty()
    } else if c.row == doc.len() {
        seq![
            Edit::SplitLine { row: c.row, col: 0 },
            Edit::MergeLine { row: (c.row - 1) as usize },
        ]
    } else {
        seq![Edit::MergeLine { row: (c.row - 1) as usize }]
    }
}

pub open spec fn spec_backspace_cursor(doc: Seq<Seq<char>>, c: Cursor) -> Cursor {
    if c.col > 0 {
        Cursor { row: c.row, col: (c.col - 1) as usize }
    } else if c.row == 0 {
        c
    } else {
        Cursor { row: (c.row - 1) as usize, col: doc[c.row - 1].len() as usize }
    }
}

/// What a character keystroke emits replays faithfully: an independent
/// receiver of its descriptors ends with the same text, by `lemma_replay_run`.
pub proof fn lemma_character_edits_replay(doc: Seq<Seq<char>>, c: Cursor, ch: char, enc: Encoding)
    requires
        crate::text::lines_wf(doc),
        valid_cursor(doc, c),
        ch != '\n',
    ensures
        crate::translate::spec_edits_ok(doc, spec_character_edits(doc, c, ch), enc),
{
    reveal_with_fuel(crate::translate::spec_edits_ok, 4);
    let es = spec_character_edits(doc, c, ch);
    if c.row == doc.len() {
        let e0 = Edit::SplitLine { row: c.row, col: 0 };
        let e1 = Edit::InsertChar { row: c.row, col: 0, ch };
        assert(es[0] == e0);
        assert(es.drop_first() =~= seq![e1]);
        assert(seq![e1][0] == e1);
        assert(seq![e1].drop_first() =~= Seq::<Edit>::empty());
        let doc1 = spec_apply_edit(doc, e0);
        assert(doc1 == doc.push(Seq::<char>::empty()));
        assert(edit_in_range(doc1, e1));
    } else {
        let e = Edit::InsertChar { row: c.row, col: c.col, ch };
        assert(es[0] == e);
        assert(es.drop_first() =~= Seq::<Edit>::empty());
    }
}

/// What a backspace keystroke emits replays faithfully, as long as a deleted
/// character spans one code unit in the negotiated encoding: the one-unit
/// range the table emits for a deletion covers only part of a wider
/// character.
pub proof fn lemma_backspace_edits_replay(doc: Seq<Seq<char>>, c: Cursor, enc: Encoding)
    requires
        crate::text::lines_wf(doc),
        valid_cursor(doc, c),
        c.col > 0 ==> crate::position::spec_unit_width(doc[c.row as int][c.col - 1], enc) == 1,
    ensures
        crate::translate::spec_edits_ok(doc, spec_backspace_edits(doc, c), enc),
{
    reveal_with_fuel(crate::translate::spec_edits_ok, 4);
    let es = spec_backspace_edits(doc, c);
    if c.col > 0 {
        let e = Edit::DeleteChar { row: c.row, col: (c.col - 1) as usize };
        assert(es[0] == e);
        assert(es.drop_first() =~= Seq::<Edit>::empty());
    } else if c.row == 0 {
        assert(es.len() == 0);
    } else if c.row == doc.len() {
        let e0 = Edit::SplitLine { row: c.row, col: 0 };
        let e1 = Edit::MergeLine { row: (c.row - 1) as usize };
        assert(es[0] == e0);
        assert(es.drop_first() =~= seq![e1]);
        assert(seq![e1][0] == e1);
        assert(seq![e1].drop_first() =~= Seq::<Edit>::empty());
        let doc1 = spec_apply_edit(doc, e0);
        assert(doc1 == doc.push(Seq::<char>::empty()));
        assert(edit_in_range(doc1, e1));
    } else {
        let e = Edit::MergeLine { row: (c.row - 1) as usize };
        assert(es[0] == e);
        assert(es.drop_first() =~= Seq::<Edit>::empty());
    }
}

/// What an enter keystroke past the last line emits replays faithfully. An
/// enter within the document does not: its emitted range reaches to the start
/// of the next line, so the receiver keeps one line where the local buffer
/// gains one.
pub proof fn lemma_enter_edits_replay(doc: Seq<Seq<char>>, c: Cursor, enc: Encoding)
    requires
        crate::text::lines_wf(doc),
        valid_cursor(doc, c),
        c.row == doc.len(),
    ensures
        crate::translate::spec_edits_ok(doc, spec_enter_edits(doc, c), enc),
{
    reveal_with_fuel(crate::translate::spec_edits_ok, 4);
    let es = spec_enter_edits(doc, c);
    let e = Edit::SplitLine { row: c.row, col: c.col };
    assert(es[0] == e);
    assert(es.drop_first() =~= Seq::<Edit>::empty());
}

proof fn lemma_apply_edits_one(doc: Seq<Seq<char>>, e: Edit)
    ensures
        spec_apply_edits(doc, seq![e]) == spec_apply_edit(doc, e),
{
    let es = seq![e];
    assert(es[0] == e);
    assert(es.drop_first() =~= Seq::<Edit>::empty());
    assert(spec_apply_edits(spec_apply_edit(doc, e), Seq::<Edit>::empty()) == spec_apply_edit(
        doc,
        e,
    ));
}

proof fn lemma_apply_edits_two(doc: Seq<Seq<char>>, e0: Edit, e1: Edit)
    ensures
        spec_apply_edits(doc, seq![e0, e1]) == spec_apply_edit(spec_apply_edit(doc, e0), e1),
{
    let es = seq![e0, e1];
    assert(es[0] == e0);
    assert(es.drop_first() =~= seq![e1]);
    lemma_apply_edits_one(spec_apply_edit(doc, e0), e1);
}

/// Translate one edit against the current text, then apply it.
fn apply_one(text: &mut Text, e: &Edit, enc: Encoding) -> (d: ChangeDescriptor)
    requires
        old(text).wf(),
        edit_in_range(old(text)@, *e),
        spec_translation_fits(old(text)@, *e, enc),
    ensures
        final(text)@ == spec_apply_edit(old(text)@, *e),
        final(text).wf(),
        spec_desc_matches(old(text)@, *e, enc, d),
{
    let d = match translate(text, e, enc) {
        Some(d) => d,
        None => {
            // Unreachable: the caller guarantees the coordinates fit.
            proof {
                assert(false);
            }
            ChangeDescriptor {
                start: crate::text::ProtocolPosition { line: 0, character: 0 },
                end: crate::text::ProtocolPosition { line: 0, character: 0 },
                text: Vec::new(),
            }
        },
    };
    text.apply(e);
    d
}

/// An enter keystroke: apply its edit and emit its descriptor; the cursor
/// lands at the head of the next line, or stays on a newly appended one.
pub fn enter(text: &mut Text, cursor: Cursor, enc: Encoding) -> (r: (Vec<ChangeDescriptor>, Cursor))
    requires
        old(text).wf(),
        valid_cursor(old(text)@, cursor),
        spec_edits_fit(old(text)@, spec_enter_edits(old(text)@, cursor), enc),
    ensures
        final(text)@ == spec_apply_edits(old(text)@, spec_enter_edits(old(text)@, cursor)),
        final(text).wf(),
        spec_descs_match(old(text)@, spec_enter_edits(old(text)@, cursor), enc, r.0@),
        r.1 == spec_enter_cursor(old(text)@, cursor),
        valid_cursor(final(text)@, r.1),
{
    let ghost doc0 = old(text)@;
    let ghost es = spec_enter_edits(doc0, cursor);
    let n = text.len_lines();
    let e = Edit::SplitLine { row: cursor.row, col: cursor.col };
    proof {
        assert(es =~= seq![e]);
        assert(es.take(0) =~= Seq::<Edit>::empty());
        assert(spec_apply_edits(doc0, Seq::<Edit>::empty()) == doc0);
        lemma_apply_edits_one(doc0, e);
    }
    let d = apply_one(text, &e, enc);
    let next = if cursor.row == n {
        cursor
    } else {
        Cursor { row: cursor.row + 1, col: 0 }
    };
    let mut descs: Vec<ChangeDescriptor> = Vec::new();
    descs.push(d);
    proof {
        assert(descs@ =~= seq![d]);
        assert(es[0] == e);
        assert(spec_apply_edits(doc0, es.take(0)) == doc0);
    }
    (descs, next)
}

/// A printable character: apply its edit or edits — the synthetic blank-line
/// burst first when the cursor stands past the last line — and emit one
/// descriptor per edit; the cursor moves one column right.
pub fn character(text: &mut Text, cursor: Cursor, ch: char, enc: Encoding) -> (r: (
    Vec<ChangeDescriptor>,
    Cursor,
))
    requires
        old(text).wf(),
        valid_cursor(old(text)@, cursor),
        ch != '\n',
        spec_edits_fit(old(text)@, spec_character_edits(old(text)@, cursor, ch), enc),
    ensures
        final(text)@ == spec_apply_edits(
            old(text)@,
            spec_character_edits(old(text)@, cursor, ch),
        ),
        final(text).wf(),
        spec_descs_match(old(text)@, spec_character_edits(old(text)@, cursor, ch), enc, r.0@),
        r.1 == spec_character_cursor(old(text)@, cursor, ch),
        valid_cursor(final(text)@, r.1),
{
    let ghost doc0 = old(text)@;
    let ghost es = spec_character_edits(doc0, cursor, ch);
    let n = text.len_lines();
    let mut descs: Vec<ChangeDescriptor> = Vec::new();
    if cursor.row == n {
        let e0 = Edit::SplitLine { row: cursor.row, col: 0 };
        let e1 = Edit::InsertChar { row: cursor.row, col: 0, ch };
        proof {
            reveal_with_fuel(spec_edits_fit, 3);
            assert(es =~= seq![e0, e1]);
            assert(es[0] == e0);
            assert(es[1] == e1);
            assert(es.take(0) =~= Seq::<Edit>::empty());
            assert(es.take(1) =~= seq![e0]);
            assert(spec_apply_edits(doc0, Seq::<Edit>::empty()) == doc0);
            lemma_apply_edits_one(doc0, e0);
            lemma_apply_edits_two(doc0, e0, e1);
            assert(es.drop_first() =~= seq![e1]);
            assert(seq![e1][0] == e1);
            assert(seq![e1].drop_first() =~= Seq::<Edit>::empty());
        }
        let d0 = apply_one(text, &e0, enc);
        let d1 = apply_one(text, &e1, enc);
        descs.push(d0);
        descs.push(d1);
        proof {
            assert(descs@ =~= seq![d0, d1]);
        }
        (descs, Cursor { row: cursor.row, col: 1 })
    } else {
        let e = Edit::InsertChar { row: cursor.row, col: cursor.col, ch };
        proof {
            assert(es =~= seq![e]);
            assert(es[0] == e);
            assert(es.take(0) =~= Seq::<Edit>::empty());
            assert(spec_apply_edits(doc0, Seq::<Edit>::empty()) == doc0);
            lemma_apply_edits_one(doc0, e);
        }
        let d = apply_one(text, &e, enc);
        let m2 = text.line_len(cursor.row);
        proof {
            assert(cursor.col < m2);
        }
        descs.push(d);
        proof {
            assert(descs@ =~= seq![d]);
        }
        (descs, Cursor { row: cursor.row, col: cursor.col + 1 })
    }
}

/// A backspace: apply its edit or edits and emit one descriptor per edit;
/// mid-line the cursor moves one column left, on a line merge it lands at the
/// join; at the head of the document nothing happens.
pub fn backspace(text: &mut Text, cursor: Cursor, enc: Encoding) -> (r: (
    Vec<ChangeDescriptor>,
    Cursor,
))
    requires
        old(text).wf(),
        valid_cursor(old(text)@, cursor),
        spec_edits_fit(old(text)@, spec_backspace_edits(old(text)@, cursor), enc),
    ensures
        final(text)@ == spec_apply_edits(old(text)@, spec_backspace_edits(old(text)@, cursor)),
        final(text).wf(),
        spec_descs_match(old(text)@, spec_backspace_edits(old(text)@, cursor), enc, r.0@),
        r.1 == spec_backspace_cursor(old(text)@, cursor),
        valid_cursor(final(text)@, r.1),
{
    let ghost doc0 = old(text)@;
    let ghost es = spec_backspace_edits(doc0, cursor);
    let n = text.len_lines();
    let mut descs: Vec<ChangeDescriptor> = Vec::new();
    if cursor.col > 0 {
        let e = Edit::DeleteChar { row: cursor.row, col: cursor.col - 1 };
        proof {
            assert(es =~= seq![e]);
            assert(es[0] == e);
            assert(es.take(0) =~= Seq::<Edit>::empty());
            assert(spec_apply_edits(doc0, Seq::<Edit>::empty()) == doc0);
            lemma_apply_edits_one(doc0, e);
        }
        let d = apply_one(text, &e, enc);
        descs.push(d);
        proof {
            assert(descs@ =~= seq![d]);
        }
        (descs, Cursor { row: cursor.row, col: cursor.col - 1 })
    } else if cursor.row == 0 {
        proof {
            assert(es =~= Seq::<Edit>::empty());
            assert(descs@ =~= Seq::<ChangeDescriptor>::empty());
        }
        (descs, cursor)
    } else {
        if cursor.row == n {
            let e0 = Edit::SplitLine { row: cursor.row, col: 0 };
            let e1 = Edit::MergeLine { row: cursor.row - 1 };
            proof {
                reveal_with_fuel(spec_edits_fit, 3);
                assert(es =~= seq![e0, e1]);
                assert(es[0] == e0);
                assert(es[1] == e1);
                assert(es.take(0) =~= Seq::<Edit>::empty());
                assert(es.take(1) =~= seq![e0]);
                assert(spec_apply_edits(doc0, Seq::<Edit>::empty()) == doc0);
                lemma_apply_edits_one(doc0, e0);
                lemma_apply_edits_two(doc0, e0, e1);
                assert(es.drop_first() =~= seq![e1]);
                assert(seq![e1][0] == e1);
                assert(seq![e1].drop_first() =~= Seq::<Edit>::empty());
            }
            let d0 = apply_one(text, &e0, enc);
            let target = text.line_len(cursor.row - 1);
            let d1 = apply_one(text, &e1, enc);
            descs.push(d0);
            descs.push(d1);
            proof {
                assert(descs@ =~= seq![d0, d1]);
                assert(target == doc0[cursor.row - 1].len());
            }
            (descs, Cursor { row: cursor.row - 1, col: target })
        } else {
            let e = Edit::MergeLine { row: cursor.row - 1 };
            proof {
                assert(es =~= seq![e]);
                assert(es[0] == e);
                assert(es.take(0) =~= Seq::<Edit>::empty());
                assert(spec_apply_edits(doc0, Seq::<Edit>::empty()) == doc0);
                lemma_apply_edits_one(doc0, e);
            }
            let target = text.line_len(cursor.row - 1);
            let d = apply_one(text, &e, enc);
            descs.push(d);
            proof {
                assert(descs@ =~= seq![d]);
            }
            (descs, Cursor { row: cursor.row - 1, col: target })
        }
    }
}

} // verus!
