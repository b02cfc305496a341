//! The session store: one text, one parser and one tree entry per open
//! document, keyed by the same identifier, inserted together on open and
//! removed together on close — never independently.
use vstd::prelude::*;

use crate::text::Text;
use crate::text::spec_split_lines;
use crate::syntax::parser_new;
use crate::syntax::parser_parse;
use crate::syntax::parser_set_language;

verus! {

/// Which of the three per-document resources an operation missed.
#[derive(Clone, Copy, Debug, PartialEq, Eq, Structural)]
pub enum SessionResourceKind {
    Document,
    Parser,
    Tree,
}

/// A typed session error, always caller-recoverable.
#[derive(Debug)]
pub enum SessionError {
    /// No entry of the named kind exists for the identifier: a
    /// protocol-ordering mistake such as a change before an open.
    SessionResourceNotFound { kind: SessionResourceKind, uri: String },
    /// An entry for the identifier already exists: a duplicate open, reported
    /// rather than silently ignored.
    DocumentAlreadyOpen { uri: String },
    /// The grammar could not be assigned to a fresh parser.
    ParserUnavailable,
    /// No channel to the remote side exists yet; requests fail fast here
    /// rather than hanging before the handshake completes.
    ClientNotInitialized,
}

/// The identifiers of an entry list, in storage order.
pub open spec fn spec_keys<T>(entries: Seq<(String, T)>) -> Seq<Seq<char>> {
    entries.map_values(|p: (String, T)| p.0@)
}

pub open spec fn spec_distinct(keys: Seq<Seq<char>>) -> bool {
    forall|i: int, j: int| 0 <= i < j < keys.len() ==> keys[i] != keys[j]
}

/// One open document: its text, its parser instance, and its derived syntax
/// tree — absent when the grammar could not process the text at all, in which
/// case structural queries return empty results.
pub struct Document {
    pub content: Text,
    pub parser: tree_sitter::Parser,
    pub tree: Option<tree_sitter::Tree>,
}

impl Document {
    /// Open a document: a fresh parser for the grammar and a full parse from
    /// scratch. Fails only when the grammar cannot be assigned to a parser; a
    /// failed parse leaves the document open with no tree.
    pub fn open(language: tree_sitter::Language, chars: &Vec<char>) -> (r: Result<
        Document,
        SessionError,
    >)
        ensures
            r matches Ok(d) ==> d.content@ == spec_split_lines(chars@) && d.content.wf(),
            r matches Err(e) ==> e is ParserUnavailable,
    {
        let mut parser = parser_new();
        if !parser_set_language(&mut parser, language) {
            return Err(SessionError::ParserUnavailable);
        }
        let content = Text::from_chars(chars);
        let tree = parser_parse(&mut parser, chars, None);
        Ok(Document { content, parser, tree })
    }

    /// The document's text.
    pub fn text(&self) -> (t: &Text)
        ensures
            t@ == self.content@,
    {
        &self.content
    }

    /// Reparse a document from its current stored text, using the stored
    /// parser; a successful parse replaces the stored tree atomically, a
    /// failed one keeps the previous tree. Returns whether a fresh tree was
    /// stored; fails exactly when the document is not open.
    pub fn change(session: &mut Session, uri: &String) -> (r: Result<bool, SessionError>)
        requires
            old(session).wf(),
        ensures
            final(session).wf(),
            r is Ok <==> old(session).is_open(uri@),
            r is Err ==> *final(session) == *old(session) && (r matches Err(e)
                ==> e matches SessionError::SessionResourceNotFound { kind, uri: u }
                && kind == SessionResourceKind::Parser && u@ == uri@),
            (r matches Ok(fresh) && fresh) ==> final(session).has_tree(uri@),
            (r matches Ok(fresh) && !fresh) ==> final(session).has_tree(uri@) == old(
                session,
            ).has_tree(uri@),
            final(session).doc_keys() == old(session).doc_keys(),
            forall|k: Seq<char>|
                #![trigger old(session).text_view_of(k)]
                old(session).is_open(k) ==> final(session).text_view_of(k) == old(
                    session,
                ).text_view_of(k),
            forall|k: Seq<char>|
                #![trigger old(session).has_tree(k)]
                old(session).is_open(k) && k != uri@ ==> final(session).has_tree(k) == old(
                    session,
                ).has_tree(k),
    {
        session.reparse(uri)
    }
}

/// The process-wide store of open documents. The three entry lists are kept
/// aligned: the same identifiers, in the same order, one entry of each kind
/// per document.
pub struct Session {
    language: tree_sitter::Language,
    texts: Vec<(String, Text)>,
    parsers: Vec<(String, tree_sitter::Parser)>,
    trees: Vec<(String, Option<tree_sitter::Tree>)>,
}

/// The index whose entry holds the identifier, scanning from the front.
fn find_key<T>(entries: &Vec<(String, T)>, uri: &String) -> (r: Option<usize>)
    ensures
        match r {
            Some(i) => i < entries@.len() && entries@[i as int].0@ == uri@,
            None => forall|j: int| 0 <= j < entries@.len() ==> entries@[j].0@ != uri@,
        },
{
    let n = entries.len();
    let mut i: usize = 0;
    while i < n
        invariant
            0 <= i <= n == entries@.len(),
            forall|j: int| 0 <= j < i ==> entries@[j].0@ != uri@,
        decreases n - i,
    {
        if entries[i].0 == *uri {
            return Some(i);
        }
        i = i + 1;
    }
    None
}

impl Session {
    /// The identifiers of the open documents, in insertion order.
    pub closed spec fn doc_keys(&self) -> Seq<Seq<char>> {
        spec_keys(self.texts@)
    }

    pub closed spec fn parser_keys(&self) -> Seq<Seq<char>> {
        spec_keys(self.parsers@)
    }

    pub closed spec fn tree_keys(&self) -> Seq<Seq<char>> {
        spec_keys(self.trees@)
    }

    pub open spec fn is_open(&self, uri: Seq<char>) -> bool {
        self.doc_keys().contains(uri)
    }

    /// The store's invariant: the three entry lists carry the same
    /// identifiers in the same order, no identifier twice, and every stored
    /// text is well-formed.
    pub closed spec fn wf(&self) -> bool {
        &&& spec_keys(self.parsers@) == spec_keys(self.texts@)
        &&& spec_keys(self.trees@) == spec_keys(self.texts@)
        &&& spec_distinct(spec_keys(self.texts@))
        &&& forall|i: int| 0 <= i < self.texts@.len() ==> (#[trigger] self.texts@[i]).1.wf()
    }

    /// The stored text of an open document.
    pub closed spec fn text_view_of(&self, uri: Seq<char>) -> Seq<Seq<char>> {
        view_at(self.texts@, uri)
    }

    /// Whether an open document's tree entry holds a tree; a document whose
    /// text the grammar could not process is open with none.
    pub closed spec fn has_tree(&self, uri: Seq<char>) -> bool {
        tree_some_at(self.trees@, uri)
    }

    /// A well-formed store keeps exactly one entry of each of the three kinds
    /// per open document, and none of any kind for any other identifier.
    pub proof fn lemma_store_consistent(&self)
        requires
            self.wf(),
        ensures
            self.parser_keys() == self.doc_keys(),
            self.tree_keys() == self.doc_keys(),
            spec_distinct(self.doc_keys()),
    {
    }

    /// The grammar the session was created with, fixed for its lifetime.
    pub closed spec fn spec_language(&self) -> tree_sitter::Language {
        self.language
    }

    pub fn language(&self) -> (l: tree_sitter::Language)
        ensures
            l == self.spec_language(),
    {
        self.language
    }

    /// An identifier with no text entry has no entry of any kind: in
    /// particular, opening a document and closing it again leaves the store
    /// with zero entries for that identifier in all three maps.
    pub proof fn lemma_no_entry_when_closed(&self, uri: Seq<char>)
        requires
            self.wf(),
            !self.is_open(uri),
        ensures
            !self.doc_keys().contains(uri),
            !self.parser_keys().contains(uri),
            !self.tree_keys().contains(uri),
    {
    }

    /// A store with no documents.
    pub fn new(language: tree_sitter::Language) -> (s: Session)
        ensures
            s.wf(),
            s.doc_keys() == Seq::<Seq<char>>::empty(),
            s.spec_language() == language,
    {
        let s = Session { language, texts: Vec::new(), parsers: Vec::new(), trees: Vec::new() };
        proof {
            assert(spec_keys(s.texts@) =~= Seq::<Seq<char>>::empty());
            assert(spec_keys(s.parsers@) =~= Seq::<Seq<char>>::empty());
            assert(spec_keys(s.trees@) =~= Seq::<Seq<char>>::empty());
        }
        s
    }

    /// Insert all three entries for a newly opened document. Fails exactly
    /// when an entry for the identifier already exists, and then changes
    /// nothing.
    pub fn insert_document(&mut self, uri: String, document: Document) -> (r: Result<
        (),
        SessionError,
    >)
        requires
            old(self).wf(),
            document.content.wf(),
        ensures
            final(self).wf(),
            r is Ok <==> !old(self).is_open(uri@),
            r is Ok ==> final(self).doc_keys() == old(self).doc_keys().push(uri@) && final(self).text_view_of(uri@) == document.content@ && final(self).has_tree(uri@) == (
            document.tree is Some),
            r is Err ==> *final(self) == *old(self) && (r matches Err(e)
                ==> e matches SessionError::DocumentAlreadyOpen { uri: u } && u@ == uri@),
            forall|k: Seq<char>|
                #![trigger old(self).text_view_of(k)]
                old(self).is_open(k) ==> final(self).text_view_of(k) == old(self).text_view_of(k),
            forall|k: Seq<char>|
                #![trigger old(self).has_tree(k)]
                old(self).is_open(k) ==> final(self).has_tree(k) == old(self).has_tree(k),
    {
        proof {
            assert(forall|i: int|
                0 <= i < self.texts@.len() ==> spec_keys(self.texts@)[i] == (
                #[trigger] self.texts@[i].0)@);
            assert(forall|i: int|
                0 <= i < self.trees@.len() ==> spec_keys(self.trees@)[i] == (
                #[trigger] self.trees@[i].0)@);
        }
        match find_key(&self.texts, &uri) {
            Some(_) => {
                proof {
                    assert(self.is_open(uri@));
                }
                Err(SessionError::DocumentAlreadyOpen { uri })
            },
            None => {
                proof {
                    assert(!self.is_open(uri@)) by {
                        if self.is_open(uri@) {
                            let i = choose|i: int|
                                0 <= i < self.doc_keys().len() && self.doc_keys()[i] == uri@;
                            assert(self.texts@[i].0@ == uri@);
                        }
                    }
                }
                let Document { content, parser, tree } = document;
                let uri2 = uri.clone();
                let uri3 = uri.clone();
                let ghost old_texts = self.texts@;
                self.texts.push((uri, content));
                self.parsers.push((uri2, parser));
                self.trees.push((uri3, tree));
                proof {
                    assert(spec_keys(self.texts@) =~= spec_keys(old_texts).push(uri3@));
                    assert(spec_keys(self.parsers@) =~= spec_keys(self.texts@));
                    assert(spec_keys(self.trees@) =~= spec_keys(self.texts@));
                    assert forall|a: int, b: int|
                        0 <= a < b < spec_keys(self.texts@).len() implies spec_keys(self.texts@)[a]
                        != spec_keys(self.texts@)[b] by {
                        assert(spec_keys(self.texts@)[a] == self.texts@[a].0@);
                        assert(spec_keys(self.texts@)[b] == self.texts@[b].0@);
                        if b < old_texts.len() {
                            assert(spec_keys(old_texts)[a] == old_texts[a].0@);
                            assert(spec_keys(old_texts)[b] == old_texts[b].0@);
                        } else {
                            assert(self.texts@[b].0@ == uri3@);
                            assert(old_texts[a].0@ != uri@);
                        }
                    }
                    lemma_views_by_key(old(self).texts@, self.texts@, uri3@);
                    assert(self.trees@[self.trees@.len() - 1].0@ == uri@);
                    lemma_tree_some_at(self.trees@, self.trees@.len() - 1, uri@);
                    assert forall|k: Seq<char>|
                        #![trigger old(self).text_view_of(k)]
                        old(self).is_open(k) implies self.text_view_of(k) == old(
                        self,
                    ).text_view_of(k) by {
                        let i = choose|i: int|
                            0 <= i < old(self).doc_keys().len() && old(self).doc_keys()[i] == k;
                        assert(old(self).texts@[i].0@ == k);
                        assert(views_agree(old(self).texts@, self.texts@, old(self).texts@[i].0@));
                        assert(self.doc_keys()[i] == k);
                        assert(self.is_open(k));
                    }
                    assert forall|k: Seq<char>|
                        #![trigger old(self).has_tree(k)]
                        old(self).is_open(k) implies self.has_tree(k) == old(self).has_tree(
                        k,
                    ) by {
                        let i = choose|i: int|
                            0 <= i < old(self).doc_keys().len() && old(self).doc_keys()[i] == k;
                        assert(old(self).texts@[i].0@ == k);
                        assert(spec_keys(old(self).trees@)[i] == spec_keys(old(self).texts@)[i]);
                        assert(old(self).trees@[i].0@ == k);
                        lemma_tree_some_at(old(self).trees@, i, k);
                        assert(self.trees@[i] == old(self).trees@[i]);
                        lemma_tree_some_at(self.trees@, i, k);
                    }
                }
                Ok(())
            },
        }
    }

    /// Remove all three entries of an open document and hand back its final
    /// text, so the caller may notify the remote side. Fails exactly when no
    /// entry exists, and then changes nothing.
    pub fn remove_document(&mut self, uri: &String) -> (r: Result<Text, SessionError>)
        requires
            old(self).wf(),
        ensures
            final(self).wf(),
            r is Ok <==> old(self).is_open(uri@),
            r matches Ok(t) ==> t@ == old(self).text_view_of(uri@) && !final(self).is_open(uri@)
                && final(self).doc_keys().len() == old(self).doc_keys().len() - 1,
            r is Err ==> *final(self) == *old(self) && (r matches Err(e)
                ==> e matches SessionError::SessionResourceNotFound { kind, uri: u }
                && kind == SessionResourceKind::Document && u@ == uri@),
            forall|k: Seq<char>|
                #![trigger old(self).text_view_of(k)]
                old(self).is_open(k) && k != uri@ ==> final(self).text_view_of(k) == old(
                    self,
                ).text_view_of(k),
            forall|k: Seq<char>|
                #![trigger old(self).has_tree(k)]
                old(self).is_open(k) && k != uri@ ==> final(self).has_tree(k) == old(
                    self,
                ).has_tree(k),
    {
        proof {
            assert(forall|i: int|
                0 <= i < self.texts@.len() ==> spec_keys(self.texts@)[i] == (
                #[trigger] self.texts@[i].0)@);
            assert(forall|i: int|
                0 <= i < self.trees@.len() ==> spec_keys(self.trees@)[i] == (
                #[trigger] self.trees@[i].0)@);
        }
        match find_key(&self.texts, uri) {
            None => {
                proof {
                    assert(!self.is_open(uri@)) by {
                        if self.is_open(uri@) {
                            let i = choose|i: int|
                                0 <= i < self.doc_keys().len() && self.doc_keys()[i] == uri@;
                            assert(self.texts@[i].0@ == uri@);
                        }
                    }
                }
                Err(
                    SessionError::SessionResourceNotFound {
                        kind: SessionResourceKind::Document,
                        uri: uri.clone(),
                    },
                )
            },
            Some(i) => {
                let ghost old_trees = self.trees@;
                let ghost old_texts = self.texts@;
                let entry = self.texts.remove(i);
                self.parsers.remove(i);
                self.trees.remove(i);
                proof {
                    assert(spec_keys(self.texts@) =~= spec_keys(old_texts).remove(i as int));
                    assert(spec_keys(self.parsers@) =~= spec_keys(self.texts@));
                    assert(spec_keys(self.trees@) =~= spec_keys(self.texts@));
                    lemma_key_unique(old(self).texts@, i as int, uri@);
                    assert(!self.is_open(uri@)) by {
                        if self.is_open(uri@) {
                            let j = choose|j: int|
                                0 <= j < self.doc_keys().len() && self.doc_keys()[j] == uri@;
                            if j < i {
                                assert(old_texts[j].0@ == uri@);
                            } else {
                                assert(old_texts[j + 1].0@ == uri@);
                            }
                        }
                    }
                    lemma_views_after_remove(old(self).texts@, self.texts@, i as int);
                    assert forall|k: Seq<char>|
                        #![trigger old(self).text_view_of(k)]
                        old(self).is_open(k) && k != uri@ implies self.text_view_of(k) == old(
                        self,
                    ).text_view_of(k) by {
                        let j = choose|j: int|
                            0 <= j < old(self).doc_keys().len() && old(self).doc_keys()[j] == k;
                        assert(old(self).texts@[j].0@ == k);
                        assert(j != i);
                        assert(views_agree(old(self).texts@, self.texts@, old(self).texts@[j].0@));
                        let j2: int = if j < i { j } else { j - 1 };
                        assert(self.texts@[j2] == old(self).texts@[j]);
                        assert(self.doc_keys()[j2] == self.texts@[j2].0@);
                        assert(self.is_open(k));
                    }
                    assert forall|k: Seq<char>|
                        #![trigger old(self).has_tree(k)]
                        old(self).is_open(k) && k != uri@ implies self.has_tree(k) == old(
                        self,
                    ).has_tree(k) by {
                        let j = choose|j: int|
                            0 <= j < old(self).doc_keys().len() && old(self).doc_keys()[j] == k;
                        assert(old(self).texts@[j].0@ == k);
                        assert(spec_keys(old_trees)[j] == spec_keys(old(self).texts@)[j]);
                        assert(old_trees[j].0@ == k);
                        assert(j != i);
                        lemma_tree_some_at(old_trees, j, k);
                        let j2: int = if j < i { j } else { j - 1 };
                        assert(self.trees@[j2] == old_trees[j]);
                        lemma_tree_some_at(self.trees@, j2, k);
                    }
                }
                Ok(entry.1)
            },
        }
    }

    /// The stored text of an open document, for reading. Fails exactly when
    /// no entry exists.
    pub fn get_text(&self, uri: &String) -> (r: Result<&Text, SessionError>)
        requires
            self.wf(),
        ensures
            r is Ok <==> self.is_open(uri@),
            r matches Ok(t) ==> t@ == self.text_view_of(uri@) && t.wf(),
            r matches Err(e) ==> e matches SessionError::SessionResourceNotFound { kind, uri: u }
                && kind == SessionResourceKind::Document && u@ == uri@,
    {
        proof {
            assert(forall|i: int|
                0 <= i < self.texts@.len() ==> spec_keys(self.texts@)[i] == (
                #[trigger] self.texts@[i].0)@);
        }
        match find_key(&self.texts, uri) {
            Some(i) => {
                proof {
                    lemma_key_unique(self.texts@, i as int, uri@);
                }
                Ok(&self.texts[i].1)
            },
            None => {
                proof {
                    assert(!self.is_open(uri@)) by {
                        if self.is_open(uri@) {
                            let j = choose|j: int|
                                0 <= j < self.doc_keys().len() && self.doc_keys()[j] == uri@;
                            assert(self.texts@[j].0@ == uri@);
                        }
                    }
                }
                Err(
                    SessionError::SessionResourceNotFound {
                        kind: SessionResourceKind::Document,
                        uri: uri.clone(),
                    },
                )
            },
        }
    }

    /// Replace the stored text of an open document. Fails exactly when no
    /// entry exists, and then changes nothing.
    pub fn set_text(&mut self, uri: &String, text: Text) -> (r: Result<(), SessionError>)
        requires
            old(self).wf(),
            text.wf(),
        ensures
            final(self).wf(),
            r is Ok <==> old(self).is_open(uri@),
            final(self).doc_keys() == old(self).doc_keys(),
            r is Ok ==> final(self).text_view_of(uri@) == text@,
            r is Err ==> *final(self) == *old(self) && (r matches Err(e)
                ==> e matches SessionError::SessionResourceNotFound { kind, uri: u }
                && kind == SessionResourceKind::Document && u@ == uri@),
            forall|k: Seq<char>|
                #![trigger old(self).text_view_of(k)]
                old(self).is_open(k) && k != uri@ ==> final(self).text_view_of(k) == old(
                    self,
                ).text_view_of(k),
            forall|k: Seq<char>|
                #![trigger old(self).has_tree(k)]
                final(self).has_tree(k) == old(self).has_tree(k),
    {
        proof {
            assert(forall|i: int|
                0 <= i < self.texts@.len() ==> spec_keys(self.texts@)[i] == (
                #[trigger] self.texts@[i].0)@);
        }
        match find_key(&self.texts, uri) {
            Some(i) => {
                let ghost old_texts = self.texts@;
                let mut entry = self.texts.remove(i);
                entry.1 = text;
                self.texts.insert(i, entry);
                proof {
                    assert(spec_keys(self.texts@) =~= spec_keys(old_texts));
                    lemma_key_unique(old(self).texts@, i as int, uri@);
                    lemma_views_after_update(old(self).texts@, self.texts@, i as int);
                    lemma_key_unique(self.texts@, i as int, uri@);
                    assert forall|k: Seq<char>|
                        #![trigger old(self).text_view_of(k)]
                        old(self).is_open(k) && k != uri@ implies self.text_view_of(k) == old(
                        self,
                    ).text_view_of(k) by {
                        let j = choose|j: int|
                            0 <= j < old(self).doc_keys().len() && old(self).doc_keys()[j] == k;
                        assert(old(self).texts@[j].0@ == k);
                        assert(j != i);
                        assert(views_agree(old(self).texts@, self.texts@, old(self).texts@[j].0@));
                    }
                    assert forall|k: Seq<char>|
                        #![trigger old(self).has_tree(k)]
                        self.has_tree(k) == old(self).has_tree(k) by {
                        assert(self.trees@ == old(self).trees@);
                    }
                }
                Ok(())
            },
            None => {
                proof {
                    assert(!self.is_open(uri@)) by {
                        if self.is_open(uri@) {
                            let j = choose|j: int|
                                0 <= j < self.doc_keys().len() && self.doc_keys()[j] == uri@;
                            assert(self.texts@[j].0@ == uri@);
                        }
                    }
                }
                Err(
                    SessionError::SessionResourceNotFound {
                        kind: SessionResourceKind::Document,
                        uri: uri.clone(),
                    },
                )
            },
        }
    }

    /// The stored syntax tree entry of an open document, for reading; `None`
    /// inside means the document is open with no tree. Fails exactly when no
    /// entry exists.
    pub fn get_tree(&self, uri: &String) -> (r: Result<&Option<tree_sitter::Tree>, SessionError>)
        requires
            self.wf(),
        ensures
            r is Ok <==> self.is_open(uri@),
            r matches Ok(t) ==> (*t is Some <==> self.has_tree(uri@)),
            r matches Err(e) ==> e matches SessionError::SessionResourceNotFound { kind, uri: u }
                && kind == SessionResourceKind::Tree && u@ == uri@,
    {
        proof {
            assert(forall|i: int|
                0 <= i < self.trees@.len() ==> spec_keys(self.trees@)[i] == (
                #[trigger] self.trees@[i].0)@);
        }
        match find_key(&self.trees, uri) {
            Some(i) => {
                proof {
                    lemma_tree_some_at(self.trees@, i as int, uri@);
                }
                Ok(&self.trees[i].1)
            },
            None => {
                proof {
                    assert(!self.is_open(uri@)) by {
                        if self.is_open(uri@) {
                            let j = choose|j: int|
                                0 <= j < self.doc_keys().len() && self.doc_keys()[j] == uri@;
                            assert(self.trees@[j].0@ == uri@);
                        }
                    }
                }
                Err(
                    SessionError::SessionResourceNotFound {
                        kind: SessionResourceKind::Tree,
                        uri: uri.clone(),
                    },
                )
            },
        }
    }

    /// Reparse an open document from its stored text with its stored parser;
    /// a successful parse replaces the stored tree, a failed one keeps the
    /// previous tree. Fails exactly when no entry exists.
    pub fn reparse(&mut self, uri: &String) -> (r: Result<bool, SessionError>)
        requires
            old(self).wf(),
        ensures
            final(self).wf(),
            r is Ok <==> old(self).is_open(uri@),
            r is Err ==> *final(self) == *old(self) && (r matches Err(e)
                ==> e matches SessionError::SessionResourceNotFound { kind, uri: u }
                && kind == SessionResourceKind::Parser && u@ == uri@),
            (r matches Ok(fresh) && fresh) ==> final(self).has_tree(uri@),
            (r matches Ok(fresh) && !fresh) ==> final(self).has_tree(uri@) == old(self).has_tree(
                uri@,
            ),
            final(self).doc_keys() == old(self).doc_keys(),
            forall|k: Seq<char>|
                #![trigger old(self).text_view_of(k)]
                old(self).is_open(k) ==> final(self).text_view_of(k) == old(self).text_view_of(k),
            forall|k: Seq<char>|
                #![trigger old(self).has_tree(k)]
                old(self).is_open(k) && k != uri@ ==> final(self).has_tree(k) == old(
                    self,
                ).has_tree(k),
    {
        proof {
            assert(forall|i: int|
                0 <= i < self.parsers@.len() ==> spec_keys(self.parsers@)[i] == (
                #[trigger] self.parsers@[i].0)@);
            assert(forall|i: int|
                0 <= i < self.texts@.len() ==> spec_keys(self.texts@)[i] == (
                #[trigger] self.texts@[i].0)@);
            assert(forall|i: int|
                0 <= i < self.trees@.len() ==> spec_keys(self.trees@)[i] == (
                #[trigger] self.trees@[i].0)@);
        }
        match find_key(&self.parsers, uri) {
            None => {
                proof {
                    assert(!self.is_open(uri@)) by {
                        if self.is_open(uri@) {
                            let j = choose|j: int|
                                0 <= j < self.doc_keys().len() && self.doc_keys()[j] == uri@;
                            assert(self.parsers@[j].0@ == uri@);
                        }
                    }
                }
                Err(
                    SessionError::SessionResourceNotFound {
                        kind: SessionResourceKind::Parser,
                        uri: uri.clone(),
                    },
                )
            },
            Some(i) => {
                let source = match find_key(&self.texts, uri) {
                    Some(t) => self.texts[t].1.to_source(),
                    None => {
                        proof {
                            assert(self.texts@[i as int].0@ == uri@);
                        }
                        Vec::new()
                    },
                };
                let ghost old_self = *self;
                let mut entry = self.parsers.remove(i);
                let parsed = parser_parse(&mut entry.1, &source, None);
                self.parsers.insert(i, entry);
                proof {
                    assert(spec_keys(self.parsers@) =~= spec_keys(old_self.parsers@));
                    assert(self.texts@ == old_self.texts@);
                }
                match parsed {
                    Some(tree) => {
                        match find_key(&self.trees, uri) {
                            Some(t) => {
                                let ghost before = *self;
                                let mut tentry = self.trees.remove(t);
                                tentry.1 = Some(tree);
                                self.trees.insert(t, tentry);
                                proof {
                                    assert(spec_keys(self.trees@) =~= spec_keys(before.trees@));
                                    assert(self.texts@ == old_self.texts@);
                                    assert(self.trees@[t as int].0@ == uri@);
                                    lemma_tree_some_at(self.trees@, t as int, uri@);
                                    assert forall|k: Seq<char>|
                                        #![trigger old(self).has_tree(k)]
                                        old(self).is_open(k) && k != uri@ implies self.has_tree(k)
                                        == old(self).has_tree(k) by {
                                        let j = choose|j: int|
                                            0 <= j < old(self).doc_keys().len() && old(
                                                self,
                                            ).doc_keys()[j] == k;
                                        assert(old(self).texts@[j].0@ == k);
                                        assert(spec_keys(old(self).trees@)[j] == spec_keys(
                                            old(self).texts@,
                                        )[j]);
                                        assert(old(self).trees@[j].0@ == k);
                                        lemma_tree_some_at(old(self).trees@, j, k);
                                        assert(before.trees@ == old(self).trees@);
                                        assert(j != t);
                                        if j < t {
                                            assert(self.trees@[j] == before.trees@[j]);
                                        } else {
                                            assert(before.trees@.remove(t as int)[j - 1]
                                                == before.trees@[j]);
                                            assert(self.trees@[j] == before.trees@.remove(
                                                t as int,
                                            )[j - 1]);
                                        }
                                        lemma_tree_some_at(self.trees@, j, k);
                                    }
                                }
                                Ok(true)
                            },
                            None => {
                                proof {
                                    assert(self.texts@[i as int].0@ == uri@);
                                }
                                Ok(false)
                            },
                        }
                    },
                    None => {
                        proof {
                            assert forall|k: Seq<char>|
                                #![trigger old(self).has_tree(k)]
                                self.has_tree(k) == old(self).has_tree(k) by {
                                assert(self.trees@ == old(self).trees@);
                            }
                        }
                        Ok(false)
                    },
                }
            },
        }
    }
}

/// Keys identify entries uniquely in a distinct-keyed list.
proof fn lemma_key_unique<T>(entries: Seq<(String, T)>, i: int, uri: Seq<char>)
    requires
        spec_distinct(spec_keys(entries)),
        0 <= i < entries.len(),
        entries[i].0@ == uri,
    ensures
        forall|j: int| 0 <= j < entries.len() && #[trigger] entries[j].0@ == uri ==> j == i,
    decreases entries.len(),
{
    assert forall|j: int|
        0 <= j < entries.len() && #[trigger] entries[j].0@ == uri implies j == i by {
        assert(spec_keys(entries)[j] == entries[j].0@);
        assert(spec_keys(entries)[i] == entries[i].0@);
    }
}

/// Whether the tree entry at a key holds a tree: what `Session::has_tree`
/// computes.
spec fn tree_some_at(entries: Seq<(String, Option<tree_sitter::Tree>)>, k: Seq<char>) -> bool {
    let i = choose|i: int| 0 <= i < entries.len() && (#[trigger] entries[i].0)@ == k;
    entries[i].1 is Some
}

/// The choose-based tree lookup agrees with any index that holds the key.
proof fn lemma_tree_some_at(
    entries: Seq<(String, Option<tree_sitter::Tree>)>,
    i: int,
    k: Seq<char>,
)
    requires
        spec_distinct(spec_keys(entries)),
        0 <= i < entries.len(),
        entries[i].0@ == k,
    ensures
        tree_some_at(entries, k) == (entries[i].1 is Some),
{
    lemma_key_unique(entries, i, k);
    let j = choose|j: int| 0 <= j < entries.len() && (#[trigger] entries[j].0)@ == k;
    assert(entries[j].0@ == k);
}

/// After appending a fresh key, every key's stored text view is unchanged and
/// the new key's view is the appended text.
proof fn lemma_views_by_key(
    old_entries: Seq<(String, Text)>,
    new_entries: Seq<(String, Text)>,
    uri: Seq<char>,
)
    requires
        spec_distinct(spec_keys(new_entries)),
        new_entries.len() == old_entries.len() + 1,
        forall|i: int| 0 <= i < old_entries.len() ==> new_entries[i] == old_entries[i],
        new_entries[old_entries.len() as int].0@ == uri,
    ensures
        forall|i: int|
            0 <= i < old_entries.len() ==> views_agree(
                old_entries,
                new_entries,
                (#[trigger] old_entries[i]).0@,
            ),
        view_at(new_entries, uri) == new_entries[old_entries.len() as int].1@,
{
    assert forall|i: int| 0 <= i < old_entries.len() implies views_agree(
        old_entries,
        new_entries,
        (#[trigger] old_entries[i]).0@,
    ) by {
        lemma_view_at(new_entries, i, old_entries[i].0@);
        lemma_view_at_old(old_entries, new_entries, i, old_entries[i].0@);
    }
    lemma_view_at(new_entries, old_entries.len() as int, uri);
}

/// The choose-based view lookup agrees with any index that holds the key.
proof fn lemma_view_at(entries: Seq<(String, Text)>, i: int, k: Seq<char>)
    requires
        spec_distinct(spec_keys(entries)),
        0 <= i < entries.len(),
        entries[i].0@ == k,
    ensures
        view_at(entries, k) == entries[i].1@,
{
    lemma_key_unique(entries, i, k);
    let j = choose|j: int| 0 <= j < entries.len() && (#[trigger] entries[j].0)@ == k;
    assert(entries[j].0@ == k);
}

proof fn lemma_view_at_old(
    old_entries: Seq<(String, Text)>,
    new_entries: Seq<(String, Text)>,
    i: int,
    k: Seq<char>,
)
    requires
        new_entries.len() >= old_entries.len(),
        forall|j: int| 0 <= j < old_entries.len() ==> new_entries[j] == old_entries[j],
        spec_distinct(spec_keys(new_entries)),
        0 <= i < old_entries.len(),
        old_entries[i].0@ == k,
    ensures
        view_at(old_entries, k) == old_entries[i].1@,
{
    assert forall|a: int, b: int| 0 <= a < b < old_entries.len() implies spec_keys(old_entries)[a]
        != spec_keys(old_entries)[b] by {
        assert(spec_keys(old_entries)[a] == old_entries[a].0@);
        assert(spec_keys(old_entries)[b] == old_entries[b].0@);
        assert(spec_keys(new_entries)[a] == new_entries[a].0@);
        assert(spec_keys(new_entries)[b] == new_entries[b].0@);
    }
    lemma_view_at(old_entries, i, k);
}

/// The stored text view at a key: what `Session::text_view_of` computes.
spec fn view_at(entries: Seq<(String, Text)>, k: Seq<char>) -> Seq<Seq<char>> {
    let i = choose|i: int| 0 <= i < entries.len() && (#[trigger] entries[i].0)@ == k;
    entries[i].1@
}

/// After removing index `i`, every other key's stored text view is unchanged.
proof fn lemma_views_after_remove(
    old_entries: Seq<(String, Text)>,
    new_entries: Seq<(String, Text)>,
    i: int,
)
    requires
        spec_distinct(spec_keys(old_entries)),
        0 <= i < old_entries.len(),
        new_entries == old_entries.remove(i),
    ensures
        forall|j: int|
            0 <= j < old_entries.len() && j != i ==> views_agree(
                old_entries,
                new_entries,
                (#[trigger] old_entries[j]).0@,
            ),
        spec_distinct(spec_keys(new_entries)),
{
    assert forall|a: int, b: int| 0 <= a < b < new_entries.len() implies spec_keys(new_entries)[a]
        != spec_keys(new_entries)[b] by {
        assert(spec_keys(new_entries)[a] == new_entries[a].0@);
        assert(spec_keys(new_entries)[b] == new_entries[b].0@);
        let a2 = if a < i { a } else { a + 1 };
        let b2 = if b < i { b } else { b + 1 };
        assert(new_entries[a] == old_entries[a2]);
        assert(new_entries[b] == old_entries[b2]);
        assert(spec_keys(old_entries)[a2] == old_entries[a2].0@);
        assert(spec_keys(old_entries)[b2] == old_entries[b2].0@);
    }
    assert forall|j: int| 0 <= j < old_entries.len() && j != i implies views_agree(
        old_entries,
        new_entries,
        (#[trigger] old_entries[j]).0@,
    ) by {
        let j2 = if j < i { j } else { j - 1 };
        assert(new_entries[j2] == old_entries[j]);
        lemma_view_at(new_entries, j2, old_entries[j].0@);
        lemma_view_at(old_entries, j, old_entries[j].0@);
    }
}

/// After replacing the text at index `i` (same key), every other key's stored
/// text view is unchanged.
proof fn lemma_views_after_update(
    old_entries: Seq<(String, Text)>,
    new_entries: Seq<(String, Text)>,
    i: int,
)
    requires
        spec_distinct(spec_keys(old_entries)),
        0 <= i < old_entries.len(),
        new_entries.len() == old_entries.len(),
        forall|j: int| 0 <= j < old_entries.len() && j != i ==> new_entries[j] == old_entries[j],
        new_entries[i].0@ == old_entries[i].0@,
    ensures
        forall|j: int|
            0 <= j < old_entries.len() && j != i ==> views_agree(
                old_entries,
                new_entries,
                (#[trigger] old_entries[j]).0@,
            ),
        spec_distinct(spec_keys(new_entries)),
        view_at(new_entries, new_entries[i].0@) == new_entries[i].1@,
{
    assert forall|a: int, b: int| 0 <= a < b < new_entries.len() implies spec_keys(new_entries)[a]
        != spec_keys(new_entries)[b] by {
        assert(spec_keys(new_entries)[a] == new_entries[a].0@);
        assert(spec_keys(new_entries)[b] == new_entries[b].0@);
        assert(spec_keys(old_entries)[a] == old_entries[a].0@);
        assert(spec_keys(old_entries)[b] == old_entries[b].0@);
    }
    assert forall|j: int| 0 <= j < old_entries.len() && j != i implies views_agree(
        old_entries,
        new_entries,
        (#[trigger] old_entries[j]).0@,
    ) by {
        lemma_view_at(new_entries, j, old_entries[j].0@);
        lemma_view_at(old_entries, j, old_entries[j].0@);
    }
    lemma_view_at(new_entries, i, new_entries[i].0@);
}


spec fn views_agree(
    old_entries: Seq<(String, Text)>,
    new_entries: Seq<(String, Text)>,
    k: Seq<char>,
) -> bool {
    view_at(old_entries, k) == view_at(new_entries, k)
}

} // verus!
