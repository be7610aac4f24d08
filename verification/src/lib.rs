use vstd::prelude::*;

pub mod editor;
pub mod fold;
pub mod indent;
pub mod jsonrpc;
pub mod lsp;
pub mod error;
pub mod config;
pub mod text;
pub mod text_util;
pub mod tree_sitter;
pub mod framing;

pub use config::{Args, InitialFile};
pub use editor::aggregate::EventAggregator;
pub use editor::{Editor, PrintedLine};
pub use error::Error;
pub use fold::{calculate_folds, Fold, FoldIndex};
pub use indent::{calculate_indents, IndentLevel};
pub use jsonrpc::{RequestMessage, RpcMessage};
pub use lsp::{LspOutgoingMessage, LspOutgoingMessageType};
pub use tree_sitter::TreeSitterHighlight;

verus! {

/// A zero-based line number within a file.
pub type LineNumber = usize;

/// Whether `s` ends with a line feed.
pub open spec fn ends_with_newline(s: Seq<char>) -> bool {
    s.len() > 0 && s.last() == '\n'
}

/// The file contents without one trailing line feed, if there is one.
pub open spec fn without_trailing_newline(s: Seq<char>) -> Seq<char> {
    if ends_with_newline(s) {
        s.drop_last()
    } else {
        s
    }
}

/// Drops a single trailing `\n` from the contents of a file.
pub fn strip_trailing_newline(file_contents: &str) -> (stripped: &str)
    ensures
        stripped@ == without_trailing_newline(file_contents@),
{
    let len = file_contents.unicode_len();
    if len > 0 && file_contents.get_char(len - 1) == '\n' {
        file_contents.substring_char(0, len - 1)
    } else {
        file_contents
    }
}

} // verus!
