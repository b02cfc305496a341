//! The text model: a document as a sequence of lines of characters, with the
//! edit primitives applied locally and protocol position translation computed
//! fresh from the current content.
use vstd::prelude::*;

use crate::position::Encoding;
use crate::position::char_col_of_units;
use crate::position::spec_units_of_prefix;
use crate::position::units_of_prefix;
use vstd::string::StrSliceExecFns;

verus! {

/// Prepend a prefix onto the first line of a non-empty line sequence.
pub open spec fn cons_first(p: Seq<char>, ls: Seq<Seq<char>>) -> Seq<Seq<char>>
    recommends
        ls.len() >= 1,
{
    seq![p + ls[0]] + ls.drop_first()
}

/// The lines of a non-empty character sequence, split on line breaks; a
/// trailing break yields a final empty line.
pub open spec fn spec_split_rest(s: Seq<char>) -> Seq<Seq<char>>
    decreases s.len(),
{
    if s.len() == 0 {
        seq![Seq::<char>::empty()]
    } else if s[0] == '\n' {
        seq![Seq::<char>::empty()] + spec_split_rest(s.drop_first())
    } else {
        cons_first(seq![s[0]], spec_split_rest(s.drop_first()))
    }
}

/// The lines of a character sequence; an empty sequence has no lines.
pub open spec fn spec_split_lines(s: Seq<char>) -> Seq<Seq<char>> {
    if s.len() == 0 {
        Seq::empty()
    } else {
        spec_split_rest(s)
    }
}

/// Lines joined back into one character sequence with a break between each
/// adjacent pair.
pub open spec fn spec_join_lines(ls: Seq<Seq<char>>) -> Seq<char>
    decreases ls.len(),
{
    if ls.len() == 0 {
        Seq::empty()
    } else if ls.len() == 1 {
        ls[0]
    } else {
        ls[0] + seq!['\n'] + spec_join_lines(ls.drop_first())
    }
}

/// A stored line holds no line break; breaks exist only as line structure.
pub open spec fn line_wf(l: Seq<char>) -> bool {
    forall|i: int| 0 <= i < l.len() ==> l[i] != '\n'
}

pub open spec fn lines_wf(ls: Seq<Seq<char>>) -> bool {
    forall|i: int| 0 <= i < ls.len() ==> line_wf(#[trigger] ls[i])
}

pub proof fn lemma_split_rest_len(s: Seq<char>)
    ensures
        spec_split_rest(s).len() >= 1,
    decreases s.len(),
{
    if s.len() > 0 {
        lemma_split_rest_len(s.drop_first());
    }
}

proof fn lemma_cons_first_merge(a: Seq<char>, b: Seq<char>, ls: Seq<Seq<char>>)
    requires
        ls.len() >= 1,
    ensures
        cons_first(a, cons_first(b, ls)) =~~= cons_first(a + b, ls),
{
}

proof fn lemma_join_cons_first(p: Seq<char>, ls: Seq<Seq<char>>)
    requires
        ls.len() >= 1,
    ensures
        spec_join_lines(cons_first(p, ls)) =~= p + spec_join_lines(ls),
{
    if ls.len() == 1 {
        assert(cons_first(p, ls) =~= seq![p + ls[0]]);
    } else {
        assert(cons_first(p, ls).drop_first() =~= ls.drop_first());
    }
}

/// Joining the split lines of any character sequence recovers it.
pub proof fn lemma_join_split(s: Seq<char>)
    ensures
        spec_join_lines(spec_split_lines(s)) =~= s,
{
    if s.len() > 0 {
        lemma_join_split_rest(s);
    }
}

proof fn lemma_join_split_rest(s: Seq<char>)
    ensures
        spec_join_lines(spec_split_rest(s)) =~= s,
    decreases s.len(),
{
    if s.len() == 0 {
    } else if s[0] == '\n' {
        lemma_join_split_rest(s.drop_first());
        lemma_split_rest_len(s.drop_first());
        let r = spec_split_rest(s.drop_first());
        assert((seq![Seq::<char>::empty()] + r).drop_first() =~= r);
        assert(s =~= seq![s[0]] + s.drop_first());
    } else {
        lemma_join_split_rest(s.drop_first());
        lemma_split_rest_len(s.drop_first());
        lemma_join_cons_first(seq![s[0]], spec_split_rest(s.drop_first()));
        assert(s =~= seq![s[0]] + s.drop_first());
    }
}

/// An editable document: its lines, with no stored line breaks.
pub struct Text {
    lines: Vec<Vec<char>>,
}

impl View for Text {
    type V = Seq<Seq<char>>;

    closed spec fn view(&self) -> Seq<Seq<char>> {
        self.lines@.map_values(|l: Vec<char>| l@)
    }
}

impl Text {
    pub open spec fn wf(&self) -> bool {
        lines_wf(self@)
    }

    /// A document with no lines.
    pub fn empty() -> (t: Text)
        ensures
            t@ == Seq::<Seq<char>>::empty(),
            t.wf(),
    {
        let t = Text { lines: Vec::new() };
        proof {
            assert(t@ =~= Seq::<Seq<char>>::empty());
        }
        t
    }

    /// The document whose lines are the given content split on line breaks.
    pub fn new(text: &str) -> (t: Text)
        ensures
            t@ == spec_split_lines(text@),
            t.wf(),
    {
        let chars = str_chars(text);
        Text::from_chars(&chars)
    }

    /// As `new`, from an already decoded character sequence.
    pub fn from_chars(chars: &Vec<char>) -> (t: Text)
        ensures
            t@ == spec_split_lines(chars@),
            t.wf(),
    {
        let n = chars.len();
        if n == 0 {
            return Text::empty();
        }
        let s = Ghost(chars@);
        let mut out: Vec<Vec<char>> = Vec::new();
        let mut cur: Vec<char> = Vec::new();
        let mut i: usize = 0;
        proof {
            lemma_split_rest_len(s@);
            assert(s@.skip(0) =~= s@);
            assert(cons_first(cur@, spec_split_rest(s@)) =~= spec_split_rest(s@));
            assert(out@.map_values(|l: Vec<char>| l@) + cons_first(
                cur@,
                spec_split_rest(s@.skip(0)),
            ) =~= cons_first(cur@, spec_split_rest(s@)));
        }
        while i < n
            invariant
                0 <= i <= n == s@.len(),
                s@ == chars@,
                spec_split_rest(s@) == out@.map_values(|l: Vec<char>| l@) + cons_first(
                    cur@,
                    spec_split_rest(s@.skip(i as int)),
                ),
                lines_wf(out@.map_values(|l: Vec<char>| l@)),
                line_wf(cur@),
            decreases n - i,
        {
            let ghost rest = s@.skip(i as int);
            let ghost rest2 = s@.skip(i + 1);
            proof {
                assert(rest.len() > 0);
                assert(rest[0] == s@[i as int]);
                assert(rest.drop_first() =~= rest2);
                lemma_split_rest_len(rest2);
            }
            let ch = chars[i];
            if ch == '\n' {
                proof {
                    let r2 = spec_split_rest(rest2);
                    assert(spec_split_rest(rest) == seq![Seq::<char>::empty()] + r2);
                    assert((seq![Seq::<char>::empty()] + r2).drop_first() =~= r2);
                    assert(cons_first(cur@, seq![Seq::<char>::empty()] + r2) =~= seq![cur@]
                        + cons_first(Seq::<char>::empty(), r2));
                    assert(cons_first(Seq::<char>::empty(), r2) =~= r2);
                    assert(cons_first(Seq::<char>::empty(), r2)[0] =~= r2[0]);
                }
                let prev = Ghost(out@.map_values(|l: Vec<char>| l@));
                out.push(cur);
                cur = Vec::new();
                proof {
                    assert(out@.map_values(|l: Vec<char>| l@) =~= prev@.push(
                        out@[out@.len() - 1]@,
                    ));
                }
            } else {
                proof {
                    let r2 = spec_split_rest(rest2);
                    assert(spec_split_rest(rest) == cons_first(seq![rest[0]], r2));
                    lemma_cons_first_merge(cur@, seq![rest[0]], r2);
                    assert(cur@ + seq![rest[0]] =~= cur@.push(s@[i as int]));
                    assert(cons_first(cur@ + seq![rest[0]], r2) =~= cons_first(
                        cur@.push(s@[i as int]),
                        r2,
                    ));
                }
                cur.push(ch);
            }
            i = i + 1;
        }
        proof {
            assert(s@.skip(n as int) =~= Seq::<char>::empty());
            assert(spec_split_rest(s@.skip(n as int)) =~= seq![Seq::<char>::empty()]);
            assert(cons_first(cur@, seq![Seq::<char>::empty()]) =~= seq![cur@]);
        }
        let prev = Ghost(out@.map_values(|l: Vec<char>| l@));
        out.push(cur);
        let t = Text { lines: out };
        proof {
            assert(t@ =~= prev@.push(t@[t@.len() - 1]));
            assert(t@ =~= spec_split_rest(s@));
        }
        t
    }

    pub fn len_lines(&self) -> (n: usize)
        ensures
            n == self@.len(),
    {
        self.lines.len()
    }

    pub fn line_at(&self, row: usize) -> (l: &Vec<char>)
        requires
            row < self@.len(),
        ensures
            l@ == self@[row as int],
    {
        &self.lines[row]
    }

    pub fn line_len(&self, row: usize) -> (n: usize)
        requires
            row < self@.len(),
        ensures
            n == self@[row as int].len(),
    {
        self.lines[row].len()
    }
}

/// One atomic local mutation of a document.
pub enum Edit {
    /// Insert one character (not a line break) at (row, col).
    InsertChar { row: usize, col: usize, ch: char },
    /// Delete the character standing at (row, col).
    DeleteChar { row: usize, col: usize },
    /// Split line `row` at column `col`; at the synthetic row just past the
    /// last line (with `col` 0) this appends an empty line.
    SplitLine { row: usize, col: usize },
    /// Merge line `row + 1` into line `row`.
    MergeLine { row: usize },
    /// Insert a string without line breaks at (row, col).
    InsertStr { row: usize, col: usize, text: Vec<char> },
    /// Remove `len` characters of line `row` starting at column `start`.
    RemoveStr { row: usize, start: usize, len: usize },
}

/// The edit addresses locations that exist in the document, so applying it
/// cannot fail; out-of-range edits are the caller's to reject.
pub open spec fn edit_in_range(doc: Seq<Seq<char>>, e: Edit) -> bool {
    match e {
        Edit::InsertChar { row, col, ch } => row < doc.len() && col <= doc[row as int].len() && ch
            != '\n',
        Edit::DeleteChar { row, col } => row < doc.len() && col < doc[row as int].len(),
        Edit::SplitLine { row, col } => (row < doc.len() && col <= doc[row as int].len()) || (row
            == doc.len() && col == 0),
        Edit::MergeLine { row } => row + 1 < doc.len(),
        Edit::InsertStr { row, col, text } => row < doc.len() && col <= doc[row as int].len()
            && line_wf(text@),
        Edit::RemoveStr { row, start, len } => row < doc.len() && start + len <= doc[
            row as int
        ].len(),
    }
}

/// The document after the edit.
pub open spec fn spec_apply_edit(doc: Seq<Seq<char>>, e: Edit) -> Seq<Seq<char>> {
    match e {
        Edit::InsertChar { row, col, ch } => doc.update(
            row as int,
            doc[row as int].insert(col as int, ch),
        ),
        Edit::DeleteChar { row, col } => doc.update(row as int, doc[row as int].remove(col as int)),
        Edit::SplitLine { row, col } => if row == doc.len() {
            doc.push(Seq::empty())
        } else {
            doc.take(row as int) + seq![
                doc[row as int].take(col as int),
                doc[row as int].skip(col as int),
            ] + doc.skip(row + 1)
        },
        Edit::MergeLine { row } => doc.take(row as int) + seq![
            doc[row as int] + doc[row + 1],
        ] + doc.skip(row + 2),
        Edit::InsertStr { row, col, text } => doc.update(
            row as int,
            doc[row as int].take(col as int) + text@ + doc[row as int].skip(col as int),
        ),
        Edit::RemoveStr { row, start, len } => doc.update(
            row as int,
            doc[row as int].take(start as int) + doc[row as int].skip(start + len),
        ),
    }
}

/// An edit in range keeps every line free of stored line breaks.
pub proof fn lemma_apply_edit_wf(doc: Seq<Seq<char>>, e: Edit)
    requires
        lines_wf(doc),
        edit_in_range(doc, e),
    ensures
        lines_wf(spec_apply_edit(doc, e)),
{
    let post = spec_apply_edit(doc, e);
    assert forall|i: int| 0 <= i < post.len() implies line_wf(#[trigger] post[i]) by {
        match e {
            Edit::InsertChar { row, col, ch } => {
                assert(line_wf(doc[i]));
                if i == row {
                    lemma_line_wf_splice(
                        doc[i],
                        doc[i].take(col as int) + seq![ch] + doc[i].skip(col as int),
                        seq![ch],
                        col as int,
                        col as int,
                    );
                    assert(post[i] =~= doc[i].take(col as int) + seq![ch] + doc[i].skip(
                        col as int,
                    ));
                }
            },
            Edit::DeleteChar { row, col } => {
                assert(line_wf(doc[i]));
                if i == row {
                    lemma_line_wf_splice(
                        doc[i],
                        doc[i].take(col as int) + Seq::empty() + doc[i].skip(col + 1),
                        Seq::empty(),
                        col as int,
                        col + 1,
                    );
                    assert(post[i] =~= doc[i].take(col as int) + Seq::<char>::empty() + doc[
                        i
                    ].skip(col + 1));
                }
            },
            Edit::SplitLine { row, col } => {
                if row < doc.len() {
                    if i < row {
                        assert(post[i] == doc[i]);
                        assert(line_wf(doc[i]));
                    } else if i == row {
                        assert(line_wf(doc[row as int]));
                        assert(post[i] == doc[row as int].take(col as int));
                        assert(forall|j: int|
                            0 <= j < post[i].len() ==> post[i][j] == doc[row as int][j]);
                    } else if i == row + 1 {
                        assert(line_wf(doc[row as int]));
                        assert(post[i] == doc[row as int].skip(col as int));
                        assert(forall|j: int|
                            0 <= j < post[i].len() ==> post[i][j] == doc[row as int][j + col]);
                    } else {
                        assert(post[i] == doc[i - 1]);
                        assert(line_wf(doc[i - 1]));
                    }
                } else {
                    if i < doc.len() {
                        assert(line_wf(doc[i]));
                    }
                }
            },
            Edit::MergeLine { row } => {
                if i < row {
                    assert(post[i] == doc[i]);
                    assert(line_wf(doc[i]));
                } else if i == row {
                    assert(line_wf(doc[row as int]));
                    assert(line_wf(doc[row + 1]));
                    assert(post[i] == doc[row as int] + doc[row + 1]);
                    assert(forall|j: int|
                        0 <= j < post[i].len() ==> post[i][j] == (if j < doc[row as int].len() {
                            doc[row as int][j]
                        } else {
                            doc[row + 1][j - doc[row as int].len()]
                        }));
                } else {
                    assert(post[i] == doc[i + 1]);
                    assert(line_wf(doc[i + 1]));
                }
            },
            Edit::InsertStr { row, col, text } => {
                assert(line_wf(doc[i]));
                if i == row {
                    lemma_line_wf_splice(
                        doc[i],
                        doc[i].take(col as int) + text@ + doc[i].skip(col as int),
                        text@,
                        col as int,
                        col as int,
                    );
                }
            },
            Edit::RemoveStr { row, start, len } => {
                assert(line_wf(doc[i]));
                if i == row {
                    lemma_line_wf_splice(
                        doc[i],
                        doc[i].take(start as int) + Seq::empty() + doc[i].skip(start + len),
                        Seq::empty(),
                        start as int,
                        start + len,
                    );
                    assert(post[i] =~= doc[i].take(start as int) + Seq::<char>::empty() + doc[
                        i
                    ].skip(start + len));
                }
            },
        }
    }
}

/// Replacing the slice `[a, b)` of a break-free line by break-free text keeps
/// the line break-free.
proof fn lemma_line_wf_splice(l: Seq<char>, post: Seq<char>, mid: Seq<char>, a: int, b: int)
    requires
        line_wf(l),
        line_wf(mid),
        0 <= a <= b <= l.len(),
        post == l.take(a) + mid + l.skip(b),
    ensures
        line_wf(post),
{
    assert forall|j: int| 0 <= j < post.len() implies post[j] != '\n' by {
        if j < a {
            assert(post[j] == l[j]);
        } else if j < a + mid.len() {
            assert(post[j] == mid[j - a]);
        } else {
            assert(post[j] == l[j - a - mid.len() + b]);
        }
    }
}

impl Text {
    /// Apply one local edit. Never fails for in-range edits, and keeps the
    /// document well-formed.
    pub fn apply(&mut self, e: &Edit)
        requires
            old(self).wf(),
            edit_in_range(old(self)@, *e),
        ensures
            final(self)@ == spec_apply_edit(old(self)@, *e),
            final(self).wf(),
    {
        proof {
            lemma_apply_edit_wf(self@, *e);
        }
        let ghost doc = self@;
        match e {
            Edit::InsertChar { row, col, ch } => {
                self.lines[*row].insert(*col, *ch);
                proof {
                    assert(self@ =~= spec_apply_edit(doc, *e));
                }
            },
            Edit::DeleteChar { row, col } => {
                self.lines[*row].remove(*col);
                proof {
                    assert(self@ =~= spec_apply_edit(doc, *e));
                }
            },
            Edit::SplitLine { row, col } => {
                if *row == self.lines.len() {
                    self.lines.push(Vec::new());
                    proof {
                        assert(self@ =~= spec_apply_edit(doc, *e));
                    }
                } else {
                    let tail = self.lines[*row].split_off(*col);
                    self.lines.insert(*row + 1, tail);
                    proof {
                        assert(doc[*row as int].take(*col as int) =~= doc[*row as int].subrange(
                            0,
                            *col as int,
                        ));
                        assert(doc[*row as int].skip(*col as int) =~= doc[*row as int].subrange(
                            *col as int,
                            doc[*row as int].len() as int,
                        ));
                        assert(self@ =~= spec_apply_edit(doc, *e));
                    }
                }
            },
            Edit::MergeLine { row } => {
                let n = self.lines.len();
                proof {
                    assert(self@.len() == self.lines@.len());
                    assert(*row + 1 < n);
                }
                let mut next = self.lines.remove(*row + 1);
                self.lines[*row].append(&mut next);
                proof {
                    assert(self@ =~= spec_apply_edit(doc, *e));
                }
            },
            Edit::InsertStr { row, col, text } => {
                proof {
                    assert(self@.len() == self.lines@.len());
                }
                let mut line = self.lines.remove(*row);
                let mut tail = line.split_off(*col);
                let mut k: usize = 0;
                while k < text.len()
                    invariant
                        0 <= k <= text@.len(),
                        line@ =~= doc[*row as int].take(*col as int) + text@.take(k as int),
                    decreases text@.len() - k,
                {
                    line.push(text[k]);
                    proof {
                        assert(doc[*row as int].take(*col as int) + text@.take(k + 1) =~= (doc[
                            *row as int
                        ].take(*col as int) + text@.take(k as int)).push(text@[k as int]));
                    }
                    k = k + 1;
                }
                line.append(&mut tail);
                proof {
                    assert(text@.take(text@.len() as int) =~= text@);
                    assert(line@ =~= doc[*row as int].take(*col as int) + text@ + doc[
                        *row as int
                    ].skip(*col as int));
                }
                self.lines.insert(*row, line);
                proof {
                    assert(self@ =~= spec_apply_edit(doc, *e));
                }
            },
            Edit::RemoveStr { row, start, len } => {
                proof {
                    assert(self@.len() == self.lines@.len());
                }
                let mut line = self.lines.remove(*row);
                let mut tail = line.split_off(*start);
                let mut rest = tail.split_off(*len);
                proof {
                    assert(rest@ =~= doc[*row as int].skip(*start + *len));
                }
                line.append(&mut rest);
                self.lines.insert(*row, line);
                proof {
                    assert(self@ =~= spec_apply_edit(doc, *e));
                }
            },
        }
    }
}

/// A location expressed in the negotiated code-unit encoding, as the
/// synchronization protocol carries it.
#[derive(Clone, Copy, PartialEq, Eq, Debug, Structural)]
pub struct ProtocolPosition {
    pub line: u32,
    pub character: u32,
}

/// A (row, column) pair in character units addresses the document: any column
/// of an existing line up to and including its end, or the synthetic location
/// just past the last line.
pub open spec fn valid_location(doc: Seq<Seq<char>>, row: int, col: int) -> bool {
    (0 <= row < doc.len() && 0 <= col <= doc[row].len()) || (row == doc.len() && col == 0)
}

/// The row's line, or the synthetic empty trailing line just past the end.
pub open spec fn line_or_empty(doc: Seq<Seq<char>>, row: int) -> Seq<char> {
    if 0 <= row < doc.len() {
        doc[row]
    } else {
        Seq::empty()
    }
}

/// The protocol column of character column `col` in row `row`.
pub open spec fn spec_protocol_character(
    doc: Seq<Seq<char>>,
    row: int,
    col: int,
    enc: Encoding,
) -> int {
    spec_units_of_prefix(line_or_empty(doc, row), col, enc)
}

/// At one row, equal protocol columns come only from equal character columns:
/// translation composed with its inverse recovers the original column.
pub proof fn lemma_protocol_position_round_trip(
    doc: Seq<Seq<char>>,
    row: int,
    col1: int,
    col2: int,
    enc: Encoding,
)
    requires
        valid_location(doc, row, col1),
        valid_location(doc, row, col2),
        spec_protocol_character(doc, row, col1, enc) == spec_protocol_character(
            doc,
            row,
            col2,
            enc,
        ),
    ensures
        col1 == col2,
{
    crate::position::lemma_units_injective(line_or_empty(doc, row), col1, col2, enc);
}

proof fn lemma_join_push(ls: Seq<Seq<char>>, l: Seq<char>)
    ensures
        ls.len() == 0 ==> spec_join_lines(ls.push(l)) == l,
        ls.len() > 0 ==> spec_join_lines(ls.push(l)) =~= spec_join_lines(ls) + seq!['\n'] + l,
    decreases ls.len(),
{
    if ls.len() == 0 {
        assert(ls.push(l).len() == 1);
        assert(ls.push(l)[0] == l);
    } else {
        let p = ls.push(l);
        assert(p.len() == ls.len() + 1);
        assert(p[0] == ls[0]);
        assert(p.drop_first() =~= ls.drop_first().push(l));
        lemma_join_push(ls.drop_first(), l);
        if ls.len() == 1 {
            assert(spec_join_lines(p) == p[0] + seq!['\n'] + spec_join_lines(p.drop_first()));
            assert(spec_join_lines(ls.drop_first().push(l)) == l);
            assert(spec_join_lines(ls) == ls[0]);
        } else {
            assert(spec_join_lines(p) == p[0] + seq!['\n'] + spec_join_lines(p.drop_first()));
            assert(spec_join_lines(ls.drop_first().push(l)) =~= spec_join_lines(ls.drop_first())
                + seq!['\n'] + l);
            assert(spec_join_lines(ls) == ls[0] + seq!['\n'] + spec_join_lines(ls.drop_first()));
        }
    }
}

impl Text {
    /// The whole content as one character sequence, lines joined by breaks.
    pub fn to_source(&self) -> (v: Vec<char>)
        ensures
            v@ == spec_join_lines(self@),
    {
        let mut v: Vec<char> = Vec::new();
        let n = self.lines.len();
        proof {
            assert(self@.len() == self.lines@.len());
            assert(self@.take(0) =~= Seq::<Seq<char>>::empty());
        }
        let mut i: usize = 0;
        while i < n
            invariant
                0 <= i <= n == self@.len(),
                n == self.lines@.len(),
                v@ =~= spec_join_lines(self@.take(i as int)),
            decreases n - i,
        {
            if i > 0 {
                v.push('\n');
            }
            let ghost base = v@;
            let m = self.lines[i].len();
            let mut j: usize = 0;
            while j < m
                invariant
                    0 <= j <= m == self@[i as int].len(),
                    0 <= i < n == self@.len(),
                    n == self.lines@.len(),
                    v@ =~= base + self@[i as int].take(j as int),
                decreases m - j,
            {
                v.push(self.lines[i][j]);
                proof {
                    assert(base + self@[i as int].take(j + 1) =~= (base + self@[i as int].take(
                        j as int,
                    )).push(self@[i as int][j as int]));
                }
                j = j + 1;
            }
            proof {
                assert(self@[i as int].take(m as int) =~= self@[i as int]);
                lemma_join_push(self@.take(i as int), self@[i as int]);
                assert(self@.take(i as int).push(self@[i as int]) =~= self@.take(i + 1));
            }
            i = i + 1;
        }
        proof {
            assert(self@.take(n as int) =~= self@);
        }
        v
    }

    /// Translate a (row, col) character location into a protocol position in
    /// the given encoding, computed fresh from the current content. `None`
    /// when the location is not in the document or a coordinate does not fit
    /// the protocol's 32-bit fields.
    pub fn to_protocol_position(&self, row: usize, col: usize, enc: Encoding) -> (r: Option<
        ProtocolPosition,
    >)
        ensures
            r is Some <==> valid_location(self@, row as int, col as int) && row <= u32::MAX
                && spec_protocol_character(self@, row as int, col as int, enc) <= u32::MAX,
            r is Some ==> r->0.line == row && r->0.character == spec_protocol_character(
                self@,
                row as int,
                col as int,
                enc,
            ),
    {
        proof {
            assert(self@.len() == self.lines@.len());
        }
        if row > (u32::MAX as usize) {
            return None;
        }
        if row < self.lines.len() {
            proof {
                assert(self.lines@[row as int]@ == self@[row as int]);
            }
            match units_of_prefix(&self.lines[row], col, enc) {
                Some(u) => Some(ProtocolPosition { line: row as u32, character: u }),
                None => None,
            }
        } else if row == self.lines.len() && col == 0 {
            Some(ProtocolPosition { line: row as u32, character: 0 })
        } else {
            None
        }
    }

    /// Recover the (row, col) character location a protocol position denotes,
    /// the inverse of `to_protocol_position` where one exists. `None` when the
    /// position does not land on a character boundary of the document.
    pub fn from_protocol_position(&self, pos: ProtocolPosition, enc: Encoding) -> (r: Option<
        (usize, usize),
    >)
        ensures
            match r {
                Some(loc) => loc.0 == pos.line && valid_location(
                    self@,
                    loc.0 as int,
                    loc.1 as int,
                ) && spec_protocol_character(self@, loc.0 as int, loc.1 as int, enc)
                    == pos.character,
                None => forall|col: int|
                    valid_location(self@, pos.line as int, col) ==> spec_protocol_character(
                        self@,
                        pos.line as int,
                        col,
                        enc,
                    ) != pos.character,
            },
    {
        proof {
            assert(self@.len() == self.lines@.len());
        }
        let row = pos.line as usize;
        if row < self.lines.len() {
            proof {
                assert(self.lines@[row as int]@ == self@[row as int]);
            }
            match char_col_of_units(&self.lines[row], pos.character as u64, enc) {
                Some(c) => Some((row, c)),
                None => None,
            }
        } else if row == self.lines.len() && pos.character == 0 {
            Some((row, 0))
        } else {
            None
        }
    }
}

/// The characters of a string slice, decoded in order.
pub fn str_chars(s: &str) -> (v: Vec<char>)
    ensures
        v@ == s@,
{
    let n = s.unicode_len();
    let mut v: Vec<char> = Vec::new();
    let mut i: usize = 0;
    while i < n
        invariant
            0 <= i <= n == s@.len(),
            v@ =~= s@.subrange(0, i as int),
        decreases n - i,
    {
        v.push(s.get_char(i));
        i = i + 1;
    }
    proof {
        assert(v@ =~= s@);
    }
    v
}

} // verus!
