//! A mutable, queryable tree representation for markup documents.
//!
//! The arena-backed tree is built incrementally through handle-based
//! mutation operations (append, insert-before, detach) and later navigated
//! read-only. Every structural operation carries a contract over the ghost
//! child lists, and the arena's link invariants are machine-checked.

pub mod error;
pub mod html;
pub mod node;
pub mod selector;
pub mod strutil;
pub mod tree;

pub use error::SelectorErrorKind;
pub use html::Html;
pub use html::Select;
pub use html::NodeOrText;
pub use html::QuirksMode;
pub use node::Attribute;
pub use node::Comment;
pub use node::Doctype;
pub use node::Element;
pub use node::Node;
pub use node::ProcessingInstruction;
pub use node::QualName;
pub use node::Text;
pub use selector::CssLocalName;
pub use selector::CssString;
pub use selector::NonTSPseudoClass;
pub use selector::PseudoElement;
pub use selector::Simple;
pub use strutil::escape_default;
pub use tree::NodeId;
pub use tree::Tree;
