use vstd::prelude::*;

use std::path::PathBuf;

verus! {

/// The command line: the file to edit.
pub struct Args {
    pub file_name: PathBuf,
}

/// The file the editor opens with: one on disk, or text with no path.
pub enum InitialFile {
    Path(PathBuf),
    Anonymous(String),
}

impl InitialFile {
    /// The file named on the command line.
    pub fn from_args(args: Args) -> (file: InitialFile)
        ensures
            file == InitialFile::Path(args.file_name),
    {
        InitialFile::Path(args.file_name)
    }
}

} // verus!
