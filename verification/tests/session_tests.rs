use lspsync::Encoding;
use lspsync::Session;
use lspsync::SessionError;
use lspsync::SessionResourceKind;
use lspsync::SymbolKind;
use lspsync::VersionCounter;
use lspsync::did_change;
use lspsync::did_close;
use lspsync::did_open;
use lspsync::document_symbol;

fn new_session() -> Session {
    Session::new(tree_sitter_javascript::language())
}

fn uri() -> String {
    "file://temp".to_string()
}

#[test]
fn open_then_close_leaves_zero_entries() {
    let mut session = new_session();
    did_open(&mut session, uri(), "let i = 0;").unwrap();
    let text = did_close(&mut session, &uri()).unwrap();
    let source: String = text.to_source().into_iter().collect();
    assert_eq!(source, "let i = 0;");
    // No entry of any kind is left for the identifier.
    match session.get_text(&uri()) {
        Err(SessionError::SessionResourceNotFound { kind, uri: u }) => {
            assert_eq!(kind, SessionResourceKind::Document);
            assert_eq!(u, uri());
        }
        _ => panic!("expected a missing document"),
    }
    match session.get_tree(&uri()) {
        Err(SessionError::SessionResourceNotFound { kind, .. }) => {
            assert_eq!(kind, SessionResourceKind::Tree);
        }
        _ => panic!("expected a missing tree"),
    }
    assert!(matches!(
        document_symbol(&session, &uri(), Encoding::Utf16),
        Err(SessionError::SessionResourceNotFound { .. })
    ));
}

#[test]
fn duplicate_open_is_reported() {
    let mut session = new_session();
    did_open(&mut session, uri(), "a").unwrap();
    match did_open(&mut session, uri(), "b") {
        Err(SessionError::DocumentAlreadyOpen { uri: u }) => assert_eq!(u, uri()),
        _ => panic!("expected a duplicate-open error"),
    }
}

#[test]
fn change_before_open_is_reported() {
    let mut session = new_session();
    match did_change(&mut session, &uri(), "x") {
        Err(SessionError::SessionResourceNotFound { kind, uri: u }) => {
            assert_eq!(kind, SessionResourceKind::Document);
            assert_eq!(u, uri());
        }
        _ => panic!("expected a missing document"),
    }
}

#[test]
fn reparse_before_open_names_the_parser_entry() {
    let mut session = new_session();
    match session.reparse(&uri()) {
        Err(SessionError::SessionResourceNotFound { kind, uri: u }) => {
            assert_eq!(kind, SessionResourceKind::Parser);
            assert_eq!(u, uri());
        }
        _ => panic!("expected a missing parser"),
    }
}

#[test]
fn close_before_open_is_reported() {
    let mut session = new_session();
    assert!(matches!(
        did_close(&mut session, &uri()),
        Err(SessionError::SessionResourceNotFound { kind: SessionResourceKind::Document, .. })
    ));
}

#[test]
fn documents_do_not_disturb_each_other() {
    let mut session = new_session();
    did_open(&mut session, "file://a".to_string(), "aaa").unwrap();
    did_open(&mut session, "file://b".to_string(), "bbb").unwrap();
    did_change(&mut session, &"file://a".to_string(), "changed").unwrap();
    let b = session.get_text(&"file://b".to_string()).unwrap();
    let source: String = b.to_source().into_iter().collect();
    assert_eq!(source, "bbb");
    let a = session.get_text(&"file://a".to_string()).unwrap();
    let source: String = a.to_source().into_iter().collect();
    assert_eq!(source, "changed");
}

#[test]
fn symbols_for_a_variable_declaration() {
    let mut session = new_session();
    did_open(&mut session, uri(), "let i = 0;").unwrap();
    let symbols = document_symbol(&session, &uri(), Encoding::Utf16).unwrap();
    assert_eq!(symbols.len(), 1);
    assert_eq!(symbols[0].name, "i");
    assert_eq!(symbols[0].kind, SymbolKind::Variable);
    // The range covers the whole declaration, semicolon included.
    assert_eq!((symbols[0].start.line, symbols[0].start.character), (0, 0));
    assert_eq!((symbols[0].end.line, symbols[0].end.character), (0, 10));
}

#[test]
fn symbols_after_appending_a_function() {
    let mut session = new_session();
    let mut versions = VersionCounter::new();
    did_open(&mut session, uri(), "let i = 0;").unwrap();
    let v0 = versions.next();

    // One discrete edit issued: the version advances by exactly 1.
    did_change(&mut session, &uri(), "let i = 0;\nfunction f(){}").unwrap();
    let v1 = versions.next();
    assert_eq!(v1 - v0, 1);

    let symbols = document_symbol(&session, &uri(), Encoding::Utf16).unwrap();
    assert_eq!(symbols.len(), 2);
    assert_eq!(symbols[0].name, "i");
    assert_eq!(symbols[0].kind, SymbolKind::Variable);
    assert_eq!(symbols[1].name, "f");
    assert_eq!(symbols[1].kind, SymbolKind::Function);
    assert_eq!(symbols[1].start.line, 1);
}

#[test]
fn an_empty_document_has_no_symbols() {
    let mut session = new_session();
    did_open(&mut session, uri(), "").unwrap();
    let symbols = document_symbol(&session, &uri(), Encoding::Utf16).unwrap();
    assert!(symbols.is_empty());
}

#[test]
fn class_declarations_report_the_generic_kind() {
    let mut session = new_session();
    did_open(&mut session, uri(), "class C {}\nvar v = 1;").unwrap();
    let symbols = document_symbol(&session, &uri(), Encoding::Utf16).unwrap();
    assert_eq!(symbols.len(), 2);
    assert_eq!(symbols[0].name, "C");
    assert_eq!(symbols[0].kind, SymbolKind::Variable);
    assert_eq!(symbols[1].name, "v");
    assert_eq!(symbols[1].kind, SymbolKind::Variable);
}

#[test]
fn symbol_ranges_follow_the_negotiated_encoding() {
    // A 2-unit character in a string shifts the 16-bit columns of the second
    // declaration on the same line.
    let mut session = new_session();
    did_open(&mut session, uri(), "let a = \"\u{1f600}\"; let b = 2;").unwrap();
    let utf16 = document_symbol(&session, &uri(), Encoding::Utf16).unwrap();
    let utf8 = document_symbol(&session, &uri(), Encoding::Utf8).unwrap();
    let utf32 = document_symbol(&session, &uri(), Encoding::Utf32).unwrap();
    assert_eq!(utf16.len(), 2);
    assert!(utf8[1].start.character > utf16[1].start.character);
    assert!(utf16[1].start.character > utf32[1].start.character);
}
