use vstd::prelude::*;

verus! {

/// What can go wrong talking to the language server.
#[derive(Debug, PartialEq, Eq)]
pub enum Error {
    Lsp(String),
}

impl Error {
    /// The message shown for the error: `Lsp: ` and its text.
    pub fn message(&self) -> (text: String)
        ensures
            match self {
                Error::Lsp(s) => text@ == "Lsp: "@ + s@,
            },
    {
        match self {
            Error::Lsp(s) => {
                let mut text = String::from_str("Lsp: ");
                text.append(s.as_str());
                proof {
                    reveal_strlit("Lsp: ");
                }
                text
            },
        }
    }
}

} // verus!
