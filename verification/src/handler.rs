//! The protocol notification and request handlers: pure state management over
//! the session store; notifying the remote side is the caller's to do.
use vstd::prelude::*;

use crate::position::Encoding;
use crate::session::Document;
use crate::session::Session;
use crate::session::SessionError;
use crate::session::SessionResourceKind;
use crate::syntax::Symbol;
use crate::syntax::declaration_query;
use crate::syntax::query_new;
use crate::syntax::run_query;
use crate::syntax::symbols_from_captures;
use crate::text::Text;
use crate::text::spec_split_lines;
use crate::text::str_chars;

verus! {

/// Open a document: parse it from scratch and insert its text, parser and
/// tree entries together. Fails on a duplicate open, or when no parser can be
/// made for the grammar, and then changes nothing; a failed parse still opens
/// the document, with no tree.
pub fn did_open(session: &mut Session, uri: String, text: &str) -> (r: Result<(), SessionError>)
    requires
        old(session).wf(),
    ensures
        final(session).wf(),
        old(session).is_open(uri@) ==> r is Err,
        r is Ok ==> !old(session).is_open(uri@) && final(session).doc_keys() == old(session).doc_keys().push(uri@) && final(session).text_view_of(uri@) == spec_split_lines(text@),
        r is Err ==> *final(session) == *old(session) && (r matches Err(e) ==> (
        e matches SessionError::DocumentAlreadyOpen { uri: u } ==> u@ == uri@ && old(session).is_open(uri@))),
        forall|k: Seq<char>|
            #![trigger old(session).text_view_of(k)]
            old(session).is_open(k) ==> final(session).text_view_of(k) == old(session).text_view_of(k),
        forall|k: Seq<char>|
            #![trigger old(session).has_tree(k)]
            old(session).is_open(k) ==> final(session).has_tree(k) == old(session).has_tree(k),
{
    let chars = str_chars(text);
    match Document::open(session.language(), &chars) {
        Err(e) => Err(e),
        Ok(document) => session.insert_document(uri, document),
    }
}

/// Replace a document's text with the full new content and reparse it; a
/// failed reparse keeps the previous tree. Returns whether a fresh tree was
/// stored. Fails exactly when the document is not open, and then changes
/// nothing.
pub fn did_change(session: &mut Session, uri: &String, text: &str) -> (r: Result<
    bool,
    SessionError,
>)
    requires
        old(session).wf(),
    ensures
        final(session).wf(),
        r is Ok <==> old(session).is_open(uri@),
        r is Ok ==> final(session).text_view_of(uri@) == spec_split_lines(text@) && final(session).doc_keys() == old(session).doc_keys(),
        (r matches Ok(fresh) && fresh) ==> final(session).has_tree(uri@),
        r is Err ==> *final(session) == *old(session) && (r matches Err(e)
            ==> e matches SessionError::SessionResourceNotFound { kind, uri: u }
            && kind == SessionResourceKind::Document && u@ == uri@),
        forall|k: Seq<char>|
            #![trigger old(session).text_view_of(k)]
            old(session).is_open(k) && k != uri@ ==> final(session).text_view_of(k) == old(session).text_view_of(k),
        forall|k: Seq<char>|
            #![trigger old(session).has_tree(k)]
            old(session).is_open(k) && k != uri@ ==> final(session).has_tree(k) == old(
                session,
            ).has_tree(k),
{
    let new_text = Text::new(text);
    match session.set_text(uri, new_text) {
        Err(e) => Err(e),
        Ok(()) => {
            match Document::change(session, uri) {
                Ok(fresh) => Ok(fresh),
                Err(e) => {
                    // Unreachable: the document is open once its text was replaced.
                    proof {
                        assert(false);
                    }
                    Err(e)
                },
            }
        },
    }
}

/// Close a document: remove all three entries together and hand back the
/// final text, so the caller may send an empty-diagnostics reset. Fails
/// exactly when the document is not open, and then changes nothing.
pub fn did_close(session: &mut Session, uri: &String) -> (r: Result<Text, SessionError>)
    requires
        old(session).wf(),
    ensures
        final(session).wf(),
        r is Ok <==> old(session).is_open(uri@),
        r matches Ok(t) ==> t@ == old(session).text_view_of(uri@) && !final(session).is_open(uri@)
            && final(session).doc_keys().len() == old(session).doc_keys().len() - 1,
        r is Err ==> *final(session) == *old(session) && (r matches Err(e)
            ==> e matches SessionError::SessionResourceNotFound { kind, uri: u }
            && kind == SessionResourceKind::Document && u@ == uri@),
        forall|k: Seq<char>|
            #![trigger old(session).text_view_of(k)]
            old(session).is_open(k) && k != uri@ ==> final(session).text_view_of(k) == old(session).text_view_of(k),
        forall|k: Seq<char>|
            #![trigger old(session).has_tree(k)]
            old(session).is_open(k) && k != uri@ ==> final(session).has_tree(k) == old(
                session,
            ).has_tree(k),
{
    session.remove_document(uri)
}

/// The document symbols of an open document, in document order: the fixed
/// structural queries run against the stored tree, and the verified
/// extraction in `symbols_from_captures` maps the raw matches to symbols
/// against the stored text. A document open with no tree has no symbols.
/// Fails exactly when the document is not open.
pub fn document_symbol(session: &Session, uri: &String, enc: Encoding) -> (r: Result<
    Vec<Symbol>,
    SessionError,
>)
    requires
        session.wf(),
    ensures
        r is Ok <==> session.is_open(uri@),
        r matches Ok(syms) ==> session.has_tree(uri@) || syms@.len() == 0,
        r matches Err(e) ==> e matches SessionError::SessionResourceNotFound { kind, uri: u }
            && kind == SessionResourceKind::Document && u@ == uri@,
{
    let text = match session.get_text(uri) {
        Ok(t) => t,
        Err(e) => {
            return Err(e);
        },
    };
    let tree_entry = match session.get_tree(uri) {
        Ok(t) => t,
        Err(e) => {
            // Unreachable: the tree entry exists whenever the text entry does.
            proof {
                assert(false);
            }
            return Err(e);
        },
    };
    match tree_entry {
        None => Ok(Vec::new()),
        Some(tree) => {
            match query_new(session.language(), declaration_query()) {
                None => Ok(Vec::new()),
                Some(query) => {
                    let source = text.to_source();
                    let matches = run_query(tree, &query, &source);
                    Ok(symbols_from_captures(text, &matches, enc))
                },
            }
        },
    }
}

} // verus!
