use lspsync::CompletionAction;
use lspsync::CompletionItem;
use lspsync::CompletionMenuState;
use lspsync::Encoding;
use lspsync::completion_action;
use lspsync::encoding_from_kind;
use lspsync::handle_completion_response;

fn chars(s: &str) -> Vec<char> {
    s.chars().collect()
}

fn dot_trigger() -> Vec<String> {
    vec![".".to_string()]
}

#[test]
fn one_letter_prefix_issues_no_request() {
    let action = completion_action(&chars("f"), 1, &dot_trigger(), true);
    assert!(matches!(action, CompletionAction::Suppressed));
}

#[test]
fn two_letter_prefix_issues_a_request() {
    match completion_action(&chars("fo"), 2, &dot_trigger(), true) {
        CompletionAction::Pending { prefix, is_trigger } => {
            assert_eq!(prefix, chars("fo"));
            assert!(!is_trigger);
        }
        _ => panic!("expected a pending request"),
    }
}

#[test]
fn trigger_character_issues_a_request_regardless_of_prefix() {
    match completion_action(&chars("x."), 2, &dot_trigger(), true) {
        CompletionAction::Pending { prefix, is_trigger } => {
            assert_eq!(prefix, chars(""));
            assert!(is_trigger);
        }
        _ => panic!("expected a pending request"),
    }
}

#[test]
fn nothing_changed_stays_idle() {
    assert!(matches!(
        completion_action(&chars("fo"), 2, &dot_trigger(), false),
        CompletionAction::Idle
    ));
}

#[test]
fn line_start_and_non_word_characters_suppress() {
    assert!(matches!(
        completion_action(&chars("fo"), 0, &dot_trigger(), true),
        CompletionAction::Suppressed
    ));
    assert!(matches!(
        completion_action(&chars("a+"), 2, &dot_trigger(), true),
        CompletionAction::Suppressed
    ));
}

#[test]
fn underscores_count_as_word_characters() {
    match completion_action(&chars("_x"), 2, &dot_trigger(), true) {
        CompletionAction::Pending { prefix, .. } => assert_eq!(prefix, chars("_x")),
        _ => panic!("expected a pending request"),
    }
}

fn item(label: &str, filter: Option<&str>, sort: Option<&str>) -> CompletionItem {
    CompletionItem {
        label: label.to_string(),
        filter_text: filter.map(|s| s.to_string()),
        sort_text: sort.map(|s| s.to_string()),
    }
}

#[test]
fn response_filtering_keeps_matching_candidates_in_sort_order() {
    let items = vec![
        item("foreach", None, Some("2")),
        item("bar", None, Some("0")),
        item("foo", None, Some("3")),
        item("fold", None, Some("1")),
    ];
    let labels = handle_completion_response(items, &chars("fo"));
    assert_eq!(labels, vec!["fold".to_string(), "foreach".to_string(), "foo".to_string()]);
}

#[test]
fn filter_text_takes_precedence_over_label() {
    let items = vec![
        item("quux()", Some("quux"), Some("1")),
        item("quiet", None, Some("0")),
        item("other", Some("zzz"), Some("2")),
    ];
    let labels = handle_completion_response(items, &chars("qu"));
    assert_eq!(labels, vec!["quiet".to_string(), "quux()".to_string()]);
}

#[test]
fn absent_sort_keys_come_first() {
    let items = vec![item("b", None, Some("1")), item("a", None, None)];
    let labels = handle_completion_response(items, &chars(""));
    assert_eq!(labels, vec!["a".to_string(), "b".to_string()]);
}

#[test]
fn no_matching_candidates_leaves_nothing() {
    let items = vec![item("alpha", None, Some("0")), item("beta", None, Some("1"))];
    let labels = handle_completion_response(items, &chars("zz"));
    assert!(labels.is_empty());
}

#[test]
fn equal_sort_keys_keep_arrival_order() {
    let items = vec![
        item("second", None, Some("1")),
        item("first", None, Some("0")),
        item("third", None, Some("1")),
    ];
    let labels = handle_completion_response(items, &chars(""));
    assert_eq!(labels, vec!["first".to_string(), "second".to_string(), "third".to_string()]);
}

#[test]
fn empty_trigger_list_never_marks_a_trigger() {
    let triggers: Vec<String> = vec![];
    match completion_action(&chars("ab"), 2, &triggers, true) {
        CompletionAction::Pending { is_trigger, .. } => assert!(!is_trigger),
        _ => panic!("expected a pending request"),
    }
    assert!(matches!(
        completion_action(&chars("x."), 2, &triggers, true),
        CompletionAction::Suppressed
    ));
}

#[test]
fn menu_selection_wraps_both_ways() {
    let mut menu = CompletionMenuState::default();
    assert!(menu.is_empty());
    menu.next();
    menu.previous();
    assert!(menu.completions().is_empty());

    menu.set_completions(vec!["a".to_string(), "b".to_string(), "c".to_string()]);
    assert!(!menu.is_empty());
    menu.next();
    menu.next();
    menu.next();
    // Wrapped from the last entry back to the top.
    menu.previous();
    menu.previous();
    menu.previous();
    menu.previous();
    // Wrapped from the top back to the last entry.
    assert_eq!(menu.completions().len(), 3);

    menu.set_completions(vec![]);
    assert!(menu.is_empty());
}

#[test]
fn encoding_selection_prefers_the_named_kind() {
    assert_eq!(encoding_from_kind(Some(&"utf-8".to_string())), Encoding::Utf8);
    assert_eq!(encoding_from_kind(Some(&"utf-32".to_string())), Encoding::Utf32);
    assert_eq!(encoding_from_kind(Some(&"utf-16".to_string())), Encoding::Utf16);
    assert_eq!(encoding_from_kind(Some(&"other".to_string())), Encoding::Utf16);
    assert_eq!(encoding_from_kind(None), Encoding::Utf16);
}

#[test]
fn unicode_letters_count_as_word_characters() {
    match completion_action(&chars("\u{e9}t\u{e9}"), 3, &dot_trigger(), true) {
        CompletionAction::Pending { prefix, .. } => assert_eq!(prefix, chars("\u{e9}t\u{e9}")),
        _ => panic!("expected a pending request"),
    }
}
