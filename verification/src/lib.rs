//! A document synchronization and position-translation engine for a
//! language-analysis client: a per-document session store, a line-based text
//! model with exact code-unit arithmetic across the three negotiable position
//! encodings, the translation of local edits into protocol change descriptors
//! stamped with strictly increasing versions, an incremental-reparse adapter
//! over tree-sitter, and the policy that gates remote completion requests.
mod completion;
mod editor;
mod handler;
mod position;
mod session;
mod syntax;
mod text;
mod translate;

pub use completion::CompletionAction;
pub use completion::CompletionItem;
pub use completion::CompletionMenuState;
pub use completion::LspCapabilities;
pub use completion::completion_action;
pub use completion::encoding_from_kind;
pub use completion::filter_by_prefix;
pub use completion::handle_completion_response;
pub use completion::labels_of;
pub use completion::sort_by_key;
pub use editor::Cursor;
pub use editor::backspace;
pub use editor::character;
pub use editor::enter;
pub use handler::did_change;
pub use handler::did_close;
pub use handler::did_open;
pub use handler::document_symbol;
pub use position::Encoding;
pub use position::char_col_of_units;
pub use position::unit_width;
pub use position::units_of_prefix;
pub use session::Document;
pub use session::Session;
pub use session::SessionError;
pub use session::SessionResourceKind;
pub use syntax::RawCapture;
pub use syntax::Symbol;
pub use syntax::SymbolKind;
pub use syntax::classify_declaration;
pub use syntax::declaration_query;
pub use syntax::point_to_protocol;
pub use syntax::symbols_from_captures;
pub use text::Edit;
pub use text::ProtocolPosition;
pub use text::Text;
pub use text::str_chars;
pub use translate::ChangeDescriptor;
pub use translate::VersionCounter;
pub use translate::translate;
