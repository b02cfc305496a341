use lspsync::Cursor;
use lspsync::Encoding;
use lspsync::Text;
use lspsync::backspace;
use lspsync::character;
use lspsync::enter;

fn chars(s: &str) -> Vec<char> {
    s.chars().collect()
}

fn source_of(text: &Text) -> String {
    text.to_source().into_iter().collect()
}

#[test]
fn typing_on_an_empty_document_emits_a_synthetic_burst() {
    let mut text = Text::new("");
    let (descs, cursor) = character(&mut text, Cursor { row: 0, col: 0 }, 'x', Encoding::Utf16);
    assert_eq!(source_of(&text), "x");
    assert_eq!(cursor, Cursor { row: 0, col: 1 });
    // First the synthetic blank-line edit, then the insertion.
    assert_eq!(descs.len(), 2);
    assert_eq!((descs[0].start.line, descs[0].start.character), (0, 0));
    assert_eq!((descs[0].end.line, descs[0].end.character), (1, 0));
    assert_eq!(descs[0].wire_text(), chars("\r\n"));
    assert_eq!((descs[1].start.line, descs[1].start.character), (0, 0));
    assert_eq!((descs[1].end.line, descs[1].end.character), (0, 0));
    assert_eq!(descs[1].text, chars("x"));
}

#[test]
fn typing_mid_line_emits_one_insertion() {
    let mut text = Text::new("ab");
    let (descs, cursor) = character(&mut text, Cursor { row: 0, col: 1 }, 'x', Encoding::Utf16);
    assert_eq!(source_of(&text), "axb");
    assert_eq!(cursor, Cursor { row: 0, col: 2 });
    assert_eq!(descs.len(), 1);
    assert_eq!((descs[0].start.line, descs[0].start.character), (0, 1));
    assert_eq!((descs[0].end.line, descs[0].end.character), (0, 1));
}

#[test]
fn enter_splits_the_line_at_the_cursor() {
    let mut text = Text::new("abcd");
    let (descs, cursor) = enter(&mut text, Cursor { row: 0, col: 2 }, Encoding::Utf16);
    assert_eq!(source_of(&text), "ab\ncd");
    assert_eq!(cursor, Cursor { row: 1, col: 0 });
    assert_eq!(descs.len(), 1);
    assert_eq!((descs[0].start.line, descs[0].start.character), (0, 2));
    assert_eq!((descs[0].end.line, descs[0].end.character), (1, 0));
    assert_eq!(descs[0].wire_text(), chars("\r\n"));
}

#[test]
fn enter_past_the_last_line_appends_one() {
    let mut text = Text::new("ab");
    let (descs, cursor) = enter(&mut text, Cursor { row: 1, col: 0 }, Encoding::Utf16);
    assert_eq!(source_of(&text), "ab\n");
    assert_eq!(cursor, Cursor { row: 1, col: 0 });
    assert_eq!(descs.len(), 1);
    assert_eq!((descs[0].start.line, descs[0].start.character), (1, 0));
    assert_eq!((descs[0].end.line, descs[0].end.character), (2, 0));
}

#[test]
fn backspace_deletes_the_character_before_the_cursor() {
    let mut text = Text::new("a\u{1f600}b");
    let (descs, cursor) = backspace(&mut text, Cursor { row: 0, col: 2 }, Encoding::Utf16);
    assert_eq!(source_of(&text), "ab");
    assert_eq!(cursor, Cursor { row: 0, col: 1 });
    assert_eq!(descs.len(), 1);
    // The deleted character spans two 16-bit units; the emitted range still
    // ends one unit after its start, as the translation table fixes it.
    assert_eq!((descs[0].start.character, descs[0].end.character), (1, 2));
}

#[test]
fn backspace_at_line_head_merges_lines() {
    let mut text = Text::new("ab\ncd");
    let (descs, cursor) = backspace(&mut text, Cursor { row: 1, col: 0 }, Encoding::Utf16);
    assert_eq!(source_of(&text), "abcd");
    assert_eq!(cursor, Cursor { row: 0, col: 2 });
    assert_eq!(descs.len(), 1);
    assert_eq!((descs[0].start.line, descs[0].start.character), (0, 2));
    assert_eq!((descs[0].end.line, descs[0].end.character), (1, 0));
    assert_eq!(descs[0].text, chars(""));
}

#[test]
fn backspace_past_the_last_line_emits_a_synthetic_burst() {
    let mut text = Text::new("ab");
    let (descs, cursor) = backspace(&mut text, Cursor { row: 1, col: 0 }, Encoding::Utf16);
    // The synthetic blank line is appended and merged away again.
    assert_eq!(source_of(&text), "ab");
    assert_eq!(cursor, Cursor { row: 0, col: 2 });
    assert_eq!(descs.len(), 2);
}

#[test]
fn backspace_at_the_document_head_does_nothing() {
    let mut text = Text::new("ab");
    let (descs, cursor) = backspace(&mut text, Cursor { row: 0, col: 0 }, Encoding::Utf16);
    assert_eq!(source_of(&text), "ab");
    assert_eq!(cursor, Cursor { row: 0, col: 0 });
    assert!(descs.is_empty());
}
