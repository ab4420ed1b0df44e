//! An HTML document held as an arena tree, with the navigation and predicates
//! that a CSS selector matcher runs against, document-ordered selection and
//! re-serialization.

pub mod text;
pub mod node;
pub mod tree;
pub mod node_ref;
pub mod element;
pub mod select;
pub mod serialize;
pub mod scrape;
pub mod ast;

pub use element::{AttrOperation, AttrOperator, NamespaceConstraint};
pub use node::{Attribute, Doctype, NodeData, NodeKind, ProcessingInstruction, QualName};
pub use node_ref::Node;
pub use scrape::{select_text, BilibiliArticle, EMathDissussion, ZhihuAnswer, ZhihuError};
pub use select::Select;
pub use serialize::{Edge, Markup, TraversalScope};
pub use text::CaseSensitivity;
pub use tree::{Html, TreeBuilder};
