//! The incremental parser adapter: tree-sitter holds the grammar, the parser
//! and the derived syntax tree; the classification of query matches into
//! document symbols and the translation of their point ranges are verified
//! here, taking the raw matches as input.
use vstd::prelude::*;

use crate::position::Encoding;
use crate::position::lemma_decode_col_unique;
use crate::position::char_col_of_units;
use crate::position::spec_decode_col;
use crate::text::ProtocolPosition;
use crate::text::Text;
use crate::text::line_or_empty;
use crate::text::spec_protocol_character;

verus! {

/// tree_sitter::Language, the grammar handle, carried through opaquely.
#[verifier::external_type_specification]
#[verifier::external_body]
pub struct ExLanguage(tree_sitter::Language);

/// tree_sitter::Parser, the stateful parser instance, carried through
/// opaquely.
#[verifier::external_type_specification]
#[verifier::external_body]
pub struct ExParser(tree_sitter::Parser);

/// tree_sitter::Tree, the derived syntax tree: disposable state, always
/// reconstructable from the current text, carried through opaquely.
#[verifier::external_type_specification]
#[verifier::external_body]
pub struct ExTree(tree_sitter::Tree);

/// Relies on tree_sitter::Parser::new: a fresh parser with no language set.
#[verifier::external_body]
pub(crate) fn parser_new() -> tree_sitter::Parser {
    tree_sitter::Parser::new()
}

/// Relies on tree_sitter::Parser::set_language: true exactly when the
/// grammar's ABI version is compatible, in which case the parser uses it.
#[verifier::external_body]
pub(crate) fn parser_set_language(
    parser: &mut tree_sitter::Parser,
    language: tree_sitter::Language,
) -> (r: bool) {
    parser.set_language(language).is_ok()
}

/// Relies on tree_sitter::Parser::parse: `Some` exactly when a language was
/// set and parsing ran to completion; no timeout or cancellation is ever set
/// here. The previous tree, when given, serves only as an incremental hint.
#[verifier::external_body]
pub(crate) fn parser_parse(
    parser: &mut tree_sitter::Parser,
    source: &Vec<char>,
    old_tree: Option<&tree_sitter::Tree>,
) -> (r: Option<tree_sitter::Tree>) {
    let text: String = source.iter().collect();
    parser.parse(text, old_tree)
}

/// One captured node of one query match, as plain values: the node's kind,
/// its source text, and its point range (rows, byte columns within the row).
pub struct RawCapture {
    pub kind: String,
    pub text: String,
    pub start_row: usize,
    pub start_byte_col: usize,
    pub end_row: usize,
    pub end_byte_col: usize,
}

/// tree_sitter::Query, a compiled pattern set, carried through opaquely.
#[verifier::external_type_specification]
#[verifier::external_body]
pub struct ExQuery(tree_sitter::Query);

/// tree_sitter::Node, one node of a syntax tree, carried through opaquely.
#[verifier::external_type_specification]
#[verifier::external_body]
pub struct ExNode<'a>(tree_sitter::Node<'a>);

/// Relies on tree_sitter::Query::new: `Some` exactly for a pattern set the
/// grammar accepts.
#[verifier::external_body]
pub(crate) fn query_new(language: tree_sitter::Language, source: &str) -> (r: Option<
    tree_sitter::Query,
>) {
    tree_sitter::Query::new(language, source).ok()
}

/// Relies on tree_sitter::Node::kind, start_position and end_position: one
/// captured node as plain values. The node's text is fetched from the given
/// bytes with a bounds-checked slice, empty when its range falls outside
/// them, so the conversion is total whatever tree and text are paired.
#[verifier::external_body]
fn capture_of(node: tree_sitter::Node, b: &[u8]) -> (r: RawCapture) {
    RawCapture {
        kind: node.kind().to_string(),
        text: b.get(node.byte_range()).and_then(|t| core::str::from_utf8(t).ok()).unwrap_or(
            "",
        ).to_string(),
        start_row: node.start_position().row,
        start_byte_col: node.start_position().column,
        end_row: node.end_position().row,
        end_byte_col: node.end_position().column,
    }
}

/// Relies on tree_sitter::QueryCursor::new and QueryCursor::matches: runs the
/// query over the tree and hands back, in match order, each match's captures
/// converted to plain values by `capture_of`. The text handed to predicate
/// evaluation is fetched bounds-checked too, so the call is total whatever
/// tree and text are paired.
#[verifier::external_body]
pub(crate) fn run_query(
    tree: &tree_sitter::Tree,
    query: &tree_sitter::Query,
    source: &Vec<char>,
) -> (r: Vec<Vec<RawCapture>>) {
    let src: String = source.iter().collect();
    let b = src.as_bytes();
    let mut cursor = tree_sitter::QueryCursor::new();
    let provider = |n: tree_sitter::Node|
        core::iter::once(b.get(n.byte_range()).unwrap_or_default());
    cursor.matches(query, tree.root_node(), provider).map(|m|
        m.captures.iter().map(|c| capture_of(c.node, b)).collect()).collect()
}

/// The fixed set of structural patterns: function declarations, lexical,
/// variable and class declarations, each paired with its identifier child.
pub fn declaration_query() -> (r: &'static str)
    ensures
        r@ == spec_declaration_query(),
{
    "(function_declaration\n  name: (identifier) @identifier) @function_declaration\n(lexical_declaration\n  (variable_declarator\n    name: (identifier) @identifier)) @lexical_declaration\n(variable_declaration\n  (variable_declarator\n    name: (identifier) @identifier)) @variable_declaration\n(class_declaration\n  name: (identifier) @identifier) @class_declaration\n"
}

/// The pattern set as configuration data: what `declaration_query` hands to
/// the query engine is this and nothing else.
pub open spec fn spec_declaration_query() -> Seq<char> {
    "(function_declaration\n  name: (identifier) @identifier) @function_declaration\n(lexical_declaration\n  (variable_declarator\n    name: (identifier) @identifier)) @lexical_declaration\n(variable_declaration\n  (variable_declarator\n    name: (identifier) @identifier)) @variable_declaration\n(class_declaration\n  name: (identifier) @identifier) @class_declaration\n"@
}

/// The symbol kind a declaration is reported as.
#[derive(Clone, Copy, PartialEq, Eq, Debug, Structural)]
pub enum SymbolKind {
    Function,
    Variable,
}

/// One extracted document symbol: a declared name, its kind, and the
/// declaration's range as protocol positions.
pub struct Symbol {
    pub name: String,
    pub kind: SymbolKind,
    pub start: ProtocolPosition,
    pub end: ProtocolPosition,
}

/// The fixed declaration-to-symbol-kind table. Class declarations are
/// deliberately reported as the generic Variable kind.
pub open spec fn spec_classify(kind: Seq<char>) -> Option<SymbolKind> {
    if kind == "function_declaration"@ {
        Some(SymbolKind::Function)
    } else if kind == "lexical_declaration"@ {
        Some(SymbolKind::Variable)
    } else if kind == "variable_declaration"@ {
        Some(SymbolKind::Variable)
    } else if kind == "class_declaration"@ {
        Some(SymbolKind::Variable)
    } else {
        None
    }
}

pub fn classify_declaration(kind: &String) -> (r: Option<SymbolKind>)
    ensures
        r == spec_classify(kind@),
{
    let function_declaration: String = "function_declaration".to_owned();
    let lexical_declaration: String = "lexical_declaration".to_owned();
    let variable_declaration: String = "variable_declaration".to_owned();
    let class_declaration: String = "class_declaration".to_owned();
    if *kind == function_declaration {
        Some(SymbolKind::Function)
    } else if *kind == lexical_declaration {
        Some(SymbolKind::Variable)
    } else if *kind == variable_declaration {
        Some(SymbolKind::Variable)
    } else if *kind == class_declaration {
        Some(SymbolKind::Variable)
    } else {
        None
    }
}

/// The protocol position denoted by a parser point (row, byte column): the
/// unique character column whose byte prefix matches, re-encoded into the
/// negotiated encoding. `None` when the byte column is not a character
/// boundary of that row.
pub open spec fn spec_point_position(
    doc: Seq<Seq<char>>,
    row: int,
    byte_col: int,
    enc: Encoding,
) -> Option<(int, int)> {
    if 0 <= row <= doc.len() {
        match spec_decode_col(line_or_empty(doc, row), byte_col, Encoding::Utf8) {
            Some(c) => Some((row, spec_protocol_character(doc, row, c, enc))),
            None => None,
        }
    } else {
        None
    }
}

/// Translate a parser point into a protocol position against the current
/// content. `None` when the point is not a character boundary of the document
/// or a coordinate does not fit the protocol's 32-bit fields.
pub fn point_to_protocol(text: &Text, row: usize, byte_col: usize, enc: Encoding) -> (r: Option<
    ProtocolPosition,
>)
    ensures
        r is Some <==> row <= u32::MAX && spec_point_position(text@, row as int, byte_col as int, enc)
            is Some && (spec_point_position(text@, row as int, byte_col as int, enc)->0).1
            <= u32::MAX,
        r is Some ==> spec_point_position(text@, row as int, byte_col as int, enc) == Some(
            (r->0.line as int, r->0.character as int),
        ),
{
    let n = text.len_lines();
    if row > n {
        return None;
    }
    let col_opt: Option<usize> = if row < n {
        char_col_of_units(text.line_at(row), byte_col as u64, Encoding::Utf8)
    } else {
        if byte_col == 0 {
            Some(0)
        } else {
            None
        }
    };
    match col_opt {
        Some(c) => {
            proof {
                lemma_decode_col_unique(
                    line_or_empty(text@, row as int),
                    byte_col as int,
                    Encoding::Utf8,
                    c as int,
                );
            }
            text.to_protocol_position(row, c, enc)
        },
        None => {
            proof {
                assert(spec_decode_col(
                    line_or_empty(text@, row as int),
                    byte_col as int,
                    Encoding::Utf8,
                ) is None);
            }
            None
        },
    }
}

/// Whether one query match yields a symbol: exactly two captures, the first a
/// declaration of a known kind, both corners of its range on character
/// boundaries and within the protocol's 32-bit fields.
pub open spec fn spec_match_accepted(doc: Seq<Seq<char>>, m: Vec<RawCapture>, enc: Encoding) -> bool {
    &&& m@.len() == 2
    &&& spec_classify(m@[0].kind@) is Some
    &&& m@[0].start_row <= u32::MAX
    &&& m@[0].end_row <= u32::MAX
    &&& {
        let s = spec_point_position(doc, m@[0].start_row as int, m@[0].start_byte_col as int, enc);
        s is Some && (s->0).1 <= u32::MAX
    }
    &&& {
        let t = spec_point_position(doc, m@[0].end_row as int, m@[0].end_byte_col as int, enc);
        t is Some && (t->0).1 <= u32::MAX
    }
}

/// The accepted matches, in document order.
pub open spec fn spec_accepted(
    doc: Seq<Seq<char>>,
    ms: Seq<Vec<RawCapture>>,
    enc: Encoding,
) -> Seq<Vec<RawCapture>>
    decreases ms.len(),
{
    if ms.len() == 0 {
        Seq::empty()
    } else {
        let rest = spec_accepted(doc, ms.drop_first(), enc);
        if spec_match_accepted(doc, ms[0], enc) {
            seq![ms[0]] + rest
        } else {
            rest
        }
    }
}

/// The symbol a match yields: the identifier's text as its name, the
/// declaration's kind by the fixed table, and the declaration's point range
/// as protocol positions.
pub open spec fn symbol_matches(
    sym: Symbol,
    doc: Seq<Seq<char>>,
    m: Vec<RawCapture>,
    enc: Encoding,
) -> bool {
    &&& sym.name@ == m@[1].text@
    &&& Some(sym.kind) == spec_classify(m@[0].kind@)
    &&& spec_point_position(doc, m@[0].start_row as int, m@[0].start_byte_col as int, enc) == Some(
        (sym.start.line as int, sym.start.character as int),
    )
    &&& spec_point_position(doc, m@[0].end_row as int, m@[0].end_byte_col as int, enc) == Some(
        (sym.end.line as int, sym.end.character as int),
    )
}

proof fn lemma_accepted_push(
    doc: Seq<Seq<char>>,
    ms: Seq<Vec<RawCapture>>,
    m: Vec<RawCapture>,
    enc: Encoding,
)
    ensures
        spec_match_accepted(doc, m, enc) ==> spec_accepted(doc, ms.push(m), enc) =~= spec_accepted(
            doc,
            ms,
            enc,
        ).push(m),
        !spec_match_accepted(doc, m, enc) ==> spec_accepted(doc, ms.push(m), enc) =~= spec_accepted(
            doc,
            ms,
            enc,
        ),
    decreases ms.len(),
{
    let p = ms.push(m);
    if ms.len() == 0 {
        assert(p.len() == 1);
        assert(p[0] == m);
        assert(p.drop_first() =~= Seq::<Vec<RawCapture>>::empty());
        assert(spec_accepted(doc, p.drop_first(), enc) =~= Seq::<Vec<RawCapture>>::empty());
        if spec_match_accepted(doc, m, enc) {
            assert(spec_accepted(doc, p, enc) == seq![m] + spec_accepted(doc, p.drop_first(), enc));
            assert(spec_accepted(doc, p, enc) =~= spec_accepted(doc, ms, enc).push(m));
        } else {
            assert(spec_accepted(doc, p, enc) == spec_accepted(doc, p.drop_first(), enc));
        }
    } else {
        assert(p[0] == ms[0]);
        assert(p.drop_first() =~= ms.drop_first().push(m));
        lemma_accepted_push(doc, ms.drop_first(), m, enc);
        let a = spec_accepted(doc, ms.drop_first(), enc);
        if spec_match_accepted(doc, ms[0], enc) {
            assert(spec_accepted(doc, p, enc) == seq![ms[0]] + spec_accepted(
                doc,
                p.drop_first(),
                enc,
            ));
            assert(spec_accepted(doc, ms, enc) == seq![ms[0]] + a);
            if spec_match_accepted(doc, m, enc) {
                assert(spec_accepted(doc, p, enc) =~= spec_accepted(doc, ms, enc).push(m));
            }
        } else {
            assert(spec_accepted(doc, p, enc) == spec_accepted(doc, p.drop_first(), enc));
            assert(spec_accepted(doc, ms, enc) == a);
            if spec_match_accepted(doc, m, enc) {
                assert(spec_accepted(doc, p, enc) =~= spec_accepted(doc, ms, enc).push(m));
            }
        }
    }
}

/// Extract the document symbols the raw query matches describe: one symbol
/// per accepted match, in match order; a match of another shape, of an
/// unknown declaration kind, or with a range off the document's character
/// boundaries yields none.
pub fn symbols_from_captures(text: &Text, matches: &Vec<Vec<RawCapture>>, enc: Encoding) -> (r:
    Vec<Symbol>)
    ensures
        r@.len() == spec_accepted(text@, matches@, enc).len(),
        forall|j: int|
            0 <= j < r@.len() ==> symbol_matches(
                r@[j],
                text@,
                #[trigger] spec_accepted(text@, matches@, enc)[j],
                enc,
            ),
{
    let mut r: Vec<Symbol> = Vec::new();
    let n = matches.len();
    let mut i: usize = 0;
    proof {
        assert(matches@.take(0) =~= Seq::<Vec<RawCapture>>::empty());
    }
    while i < n
        invariant
            0 <= i <= n == matches@.len(),
            r@.len() == spec_accepted(text@, matches@.take(i as int), enc).len(),
            forall|j: int|
                0 <= j < r@.len() ==> symbol_matches(
                    r@[j],
                    text@,
                    #[trigger] spec_accepted(text@, matches@.take(i as int), enc)[j],
                    enc,
                ),
        decreases n - i,
    {
        let m = &matches[i];
        let ghost taken = matches@.take(i as int);
        proof {
            lemma_accepted_push(text@, taken, matches@[i as int], enc);
            assert(taken.push(matches@[i as int]) =~= matches@.take(i + 1));
        }
        if m.len() == 2 {
            match classify_declaration(&m[0].kind) {
                Some(kind) => {
                    match point_to_protocol(text, m[0].start_row, m[0].start_byte_col, enc) {
                        Some(start) => {
                            match point_to_protocol(text, m[0].end_row, m[0].end_byte_col, enc) {
                                Some(end) => {
                                    let sym = Symbol { name: m[1].text.clone(), kind, start, end };
                                    proof {
                                        assert(spec_match_accepted(text@, matches@[i as int], enc));
                                        assert(symbol_matches(sym, text@, matches@[i as int], enc));
                                    }
                                    r.push(sym);
                                },
                                None => {
                                    proof {
                                        assert(!spec_match_accepted(text@, matches@[i as int], enc));
                                    }
                                },
                            }
                        },
                        None => {
                            proof {
                                assert(!spec_match_accepted(text@, matches@[i as int], enc));
                            }
                        },
                    }
                },
                None => {
                    proof {
                        assert(!spec_match_accepted(text@, matches@[i as int], enc));
                    }
                },
            }
        } else {
            proof {
                assert(!spec_match_accepted(text@, matches@[i as int], enc));
            }
        }
        i = i + 1;
    }
    proof {
        assert(matches@.take(n as int) =~= matches@);
    }
    r
}

} // verus!
