use lspsync::Encoding;
use lspsync::ProtocolPosition;
use lspsync::Text;
use lspsync::char_col_of_units;
use lspsync::unit_width;
use lspsync::units_of_prefix;

fn chars(s: &str) -> Vec<char> {
    s.chars().collect()
}

#[test]
fn unit_widths_match_encodings() {
    assert_eq!(unit_width('a', Encoding::Utf8), 1);
    assert_eq!(unit_width('\u{e9}', Encoding::Utf8), 2);
    assert_eq!(unit_width('\u{20ac}', Encoding::Utf8), 3);
    assert_eq!(unit_width('\u{1f600}', Encoding::Utf8), 4);
    assert_eq!(unit_width('a', Encoding::Utf16), 1);
    assert_eq!(unit_width('\u{20ac}', Encoding::Utf16), 1);
    assert_eq!(unit_width('\u{1f600}', Encoding::Utf16), 2);
    assert_eq!(unit_width('\u{1f600}', Encoding::Utf32), 1);
}

#[test]
fn units_of_prefix_sums_widths() {
    let line = chars("a\u{e9}\u{20ac}\u{1f600}b");
    assert_eq!(units_of_prefix(&line, 0, Encoding::Utf8), Some(0));
    assert_eq!(units_of_prefix(&line, 4, Encoding::Utf8), Some(1 + 2 + 3 + 4));
    assert_eq!(units_of_prefix(&line, 5, Encoding::Utf8), Some(11));
    assert_eq!(units_of_prefix(&line, 5, Encoding::Utf16), Some(1 + 1 + 1 + 2 + 1));
    assert_eq!(units_of_prefix(&line, 5, Encoding::Utf32), Some(5));
    assert_eq!(units_of_prefix(&line, 6, Encoding::Utf8), None);
}

#[test]
fn char_col_recovers_column() {
    let line = chars("a\u{1f600}b");
    for enc in [Encoding::Utf8, Encoding::Utf16, Encoding::Utf32] {
        for col in 0..=3usize {
            let units = units_of_prefix(&line, col, enc).unwrap();
            assert_eq!(char_col_of_units(&line, units as u64, enc), Some(col));
        }
    }
}

#[test]
fn char_col_rejects_mid_character_offsets() {
    let line = chars("\u{1f600}");
    assert_eq!(char_col_of_units(&line, 2, Encoding::Utf8), None);
    assert_eq!(char_col_of_units(&line, 1, Encoding::Utf16), None);
    assert_eq!(char_col_of_units(&line, 5, Encoding::Utf8), None);
}

#[test]
fn protocol_position_round_trip_all_encodings() {
    let text = Text::new("a\u{e9}\u{20ac}\n\u{1f600}xy");
    for enc in [Encoding::Utf8, Encoding::Utf16, Encoding::Utf32] {
        for row in 0..2usize {
            for col in 0..=3usize {
                let p = text.to_protocol_position(row, col, enc).unwrap();
                assert_eq!(text.from_protocol_position(p, enc), Some((row, col)));
            }
        }
    }
}

#[test]
fn sixteen_bit_column_differs_by_one_after_wide_character() {
    // One 2-code-unit character stands before the cursor.
    let text = Text::new("\u{1f600}x");
    let p = text.to_protocol_position(0, 2, Encoding::Utf16).unwrap();
    assert_eq!(p.character, 3);
    assert_eq!(p.character as usize - 2, 1);
}

#[test]
fn synthetic_trailing_line_is_translatable() {
    let text = Text::new("ab\ncd");
    let p = text.to_protocol_position(2, 0, Encoding::Utf16).unwrap();
    assert_eq!(p, ProtocolPosition { line: 2, character: 0 });
    assert_eq!(text.to_protocol_position(2, 1, Encoding::Utf16), None);
    assert_eq!(text.to_protocol_position(3, 0, Encoding::Utf16), None);
    assert_eq!(text.from_protocol_position(ProtocolPosition { line: 2, character: 0 }, Encoding::Utf16), Some((2, 0)));
}

#[test]
fn out_of_range_columns_are_rejected() {
    let text = Text::new("ab");
    assert_eq!(text.to_protocol_position(0, 3, Encoding::Utf8), None);
    assert_eq!(text.from_protocol_position(ProtocolPosition { line: 0, character: 9 }, Encoding::Utf8), None);
}
