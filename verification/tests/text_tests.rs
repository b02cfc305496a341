use lspsync::ChangeDescriptor;
use lspsync::Edit;
use lspsync::Encoding;
use lspsync::Text;
use lspsync::VersionCounter;
use lspsync::translate;

fn chars(s: &str) -> Vec<char> {
    s.chars().collect()
}

fn source_of(text: &Text) -> String {
    text.to_source().into_iter().collect()
}

#[test]
fn splitting_into_lines() {
    let t = Text::new("ab\ncd");
    assert_eq!(t.len_lines(), 2);
    assert_eq!(t.line_at(0), &chars("ab"));
    assert_eq!(t.line_at(1), &chars("cd"));

    let t = Text::new("ab\n");
    assert_eq!(t.len_lines(), 2);
    assert_eq!(t.line_at(1), &chars(""));

    let t = Text::new("");
    assert_eq!(t.len_lines(), 0);

    let t = Text::new("\n");
    assert_eq!(t.len_lines(), 2);
}

#[test]
fn join_recovers_source() {
    for s in ["", "a", "ab\ncd", "ab\n", "\n\n", "x\u{1f600}\ny"] {
        assert_eq!(source_of(&Text::new(s)), s);
    }
}

#[test]
fn apply_each_edit_kind() {
    let mut t = Text::new("ab\ncd");
    t.apply(&Edit::InsertChar { row: 0, col: 1, ch: 'x' });
    assert_eq!(source_of(&t), "axb\ncd");
    t.apply(&Edit::DeleteChar { row: 0, col: 1 });
    assert_eq!(source_of(&t), "ab\ncd");
    t.apply(&Edit::MergeLine { row: 0 });
    assert_eq!(source_of(&t), "abcd");
    t.apply(&Edit::SplitLine { row: 0, col: 2 });
    assert_eq!(source_of(&t), "ab\ncd");
    t.apply(&Edit::InsertStr { row: 1, col: 0, text: chars("xy") });
    assert_eq!(source_of(&t), "ab\nxycd");
    t.apply(&Edit::RemoveStr { row: 1, start: 1, len: 2 });
    assert_eq!(source_of(&t), "ab\nxd");
    // The synthetic row just past the last line takes a split, appending a line.
    t.apply(&Edit::SplitLine { row: 2, col: 0 });
    assert_eq!(source_of(&t), "ab\nxd\n");
}

#[test]
fn translation_table_insert_character() {
    let t = Text::new("ab");
    let d = translate(&t, &Edit::InsertChar { row: 0, col: 1, ch: 'x' }, Encoding::Utf16).unwrap();
    assert_eq!((d.start.line, d.start.character), (0, 1));
    assert_eq!((d.end.line, d.end.character), (0, 1));
    assert_eq!(d.text, chars("x"));
}

#[test]
fn translation_table_delete_character() {
    let t = Text::new("ab");
    let d = translate(&t, &Edit::DeleteChar { row: 0, col: 1 }, Encoding::Utf16).unwrap();
    assert_eq!((d.start.line, d.start.character), (0, 1));
    assert_eq!((d.end.line, d.end.character), (0, 2));
    assert_eq!(d.text, chars(""));
}

#[test]
fn translation_table_split_and_merge() {
    let t = Text::new("ab\ncd");
    let d = translate(&t, &Edit::SplitLine { row: 0, col: 2 }, Encoding::Utf16).unwrap();
    assert_eq!((d.start.line, d.start.character), (0, 2));
    assert_eq!((d.end.line, d.end.character), (1, 0));
    assert_eq!(d.text, chars("\n"));
    assert_eq!(d.wire_text(), chars("\r\n"));

    let d = translate(&t, &Edit::MergeLine { row: 0 }, Encoding::Utf16).unwrap();
    assert_eq!((d.start.line, d.start.character), (0, 2));
    assert_eq!((d.end.line, d.end.character), (1, 0));
    assert_eq!(d.text, chars(""));
}

#[test]
fn translation_table_bulk_edits() {
    let t = Text::new("abcd");
    let d = translate(&t, &Edit::InsertStr { row: 0, col: 2, text: chars("xy") }, Encoding::Utf8)
        .unwrap();
    assert_eq!((d.start.line, d.start.character), (0, 2));
    assert_eq!((d.end.line, d.end.character), (0, 2));
    assert_eq!(d.text, chars("xy"));

    let d = translate(&t, &Edit::RemoveStr { row: 0, start: 1, len: 2 }, Encoding::Utf8).unwrap();
    assert_eq!((d.start.line, d.start.character), (0, 1));
    assert_eq!((d.end.line, d.end.character), (0, 3));
    assert_eq!(d.text, chars(""));
}

#[test]
fn translation_uses_negotiated_encoding() {
    // A 2-unit character under the 16-bit encoding shifts the columns.
    let t = Text::new("\u{1f600}ab");
    let d = translate(&t, &Edit::DeleteChar { row: 0, col: 1 }, Encoding::Utf16).unwrap();
    assert_eq!((d.start.character, d.end.character), (2, 3));
    let d = translate(&t, &Edit::DeleteChar { row: 0, col: 1 }, Encoding::Utf8).unwrap();
    assert_eq!((d.start.character, d.end.character), (4, 5));
    let d = translate(&t, &Edit::DeleteChar { row: 0, col: 1 }, Encoding::Utf32).unwrap();
    assert_eq!((d.start.character, d.end.character), (1, 2));
}

/// A small independent receiver: lines of characters, one descriptor applied
/// by decoding its protocol positions against this copy of the text.
struct Receiver {
    lines: Vec<Vec<char>>,
    enc: Encoding,
}

impl Receiver {
    fn decode(&self, line: u32, character: u32) -> (usize, usize) {
        let l = line as usize;
        if l >= self.lines.len() {
            return (self.lines.len(), 0);
        }
        let mut units: u64 = 0;
        let mut col = 0usize;
        while units < character as u64 {
            units += lspsync::unit_width(self.lines[l][col], self.enc) as u64;
            col += 1;
        }
        assert_eq!(units, character as u64, "offset must land on a character boundary");
        (l, col)
    }

    fn apply(&mut self, d: &ChangeDescriptor) {
        let (l1, c1) = self.decode(d.start.line, d.start.character);
        let (l2, c2) = self.decode(d.end.line, d.end.character);
        let mut flat: Vec<char> = Vec::new();
        for (i, line) in self.lines.iter().enumerate() {
            let keep_from = if i == l1 { Some(c1) } else { None };
            let keep_to = if i == l2 { Some(c2) } else { None };
            if i < l1 || i > l2 {
                flat.extend(line.iter().copied());
                flat.push('\n');
            } else {
                if let Some(c) = keep_from {
                    flat.extend(line[..c].iter().copied());
                    flat.extend(d.text.iter().copied());
                }
                if let Some(c) = keep_to {
                    flat.extend(line[c..].iter().copied());
                    flat.push('\n');
                }
            }
        }
        if l1 == self.lines.len() {
            flat.extend(d.text.iter().copied());
        }
        let s: String = flat.into_iter().collect();
        self.lines = s.lines().map(|l| l.chars().collect()).collect();
        while self.lines.last().map(|l| l.is_empty()) == Some(true) {
            self.lines.pop();
        }
    }

    fn text(&self) -> String {
        let parts: Vec<String> = self.lines.iter().map(|l| l.iter().collect()).collect();
        parts.join("\n")
    }
}

#[test]
fn replaying_descriptors_tracks_local_edits() {
    // From an initially empty document, every emitted descriptor replayed
    // against an independent receiver keeps both texts identical.
    let enc = Encoding::Utf16;
    let mut local = Text::new("");
    let mut remote = Receiver { lines: vec![], enc };
    let edits = vec![
        Edit::SplitLine { row: 0, col: 0 },
        Edit::InsertStr { row: 0, col: 0, text: chars("let x") },
        Edit::InsertChar { row: 0, col: 5, ch: ';' },
        Edit::DeleteChar { row: 0, col: 5 },
        Edit::InsertStr { row: 0, col: 3, text: chars("\u{1f600}\u{1f600}") },
        Edit::RemoveStr { row: 0, start: 3, len: 1 },
    ];
    for e in &edits {
        let d = translate(&local, e, enc).unwrap();
        local.apply(e);
        remote.apply(&d);
        assert_eq!(remote.text(), source_of(&local).trim_end_matches('\n'));
    }
    assert_eq!(source_of(&local), "let\u{1f600} x");
}

#[test]
fn versions_strictly_increase_without_repeats() {
    let mut counter = VersionCounter::new();
    let mut seen = Vec::new();
    for _ in 0..5 {
        seen.push(counter.next());
    }
    assert_eq!(seen, vec![0, 1, 2, 3, 4]);
    for i in 0..seen.len() {
        for j in (i + 1)..seen.len() {
            assert!(seen[i] < seen[j]);
        }
    }
}
