pub mod parser;
pub mod result;
pub mod tokens;
pub mod util;

pub use parser::MarkdownParser;
pub use tokens::{Block, Document, FixLinks, Inline, LinkDescription, LinkMap, Text};
