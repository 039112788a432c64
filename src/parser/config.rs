use vstd::prelude::*;

verus! {

/// Options of a parse.
#[derive(Clone, Copy, PartialEq, Eq, Debug)]
pub struct MarkdownConfig {
    /// Whether trailing newlines are stripped from text chunks.
    pub trim_newlines: bool,
}

impl MarkdownConfig {
    pub fn default() -> (r: MarkdownConfig)
        ensures
            r.trim_newlines,
    {
        MarkdownConfig { trim_newlines: true }
    }

    pub fn trim_newlines(self, value: bool) -> (r: MarkdownConfig)
        ensures
            r.trim_newlines == value,
    {
        MarkdownConfig { trim_newlines: value }
    }
}

} // verus!
