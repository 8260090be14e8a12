//! Runtime support for generated LL(1) parsers: a flat concrete syntax tree,
//! a skip-token buffering builder and the generic parser driver.

mod builder;
mod cst;
mod cst_parse;
mod cstree_backend;
pub mod frontend;
mod green;
mod outline;
mod parser;
mod text;
mod types;

pub use types::{CstIndex, MarkClosed, MarkOpened, MarkTruncation, NodeRef, Span};
pub use text::str_slice;
pub use cst::{Cst, CstChildren, CstData, CstDataView, Node, NodeView};
pub use builder::{BuildOp, CstBuilder, LelwelBuilder, RuleType, TokenType};
pub use cstree_backend::{CstreeDisplay, LineView};
pub use green::CstreeBuilder;
pub use green::GreenTree;
pub use outline::OutlineLine;
pub use parser::{Parser, ParserArgs, ParserHooks, ParserState};
