//! Where the lines come from.
use vstd::prelude::*;
use vstd::string::StrSliceExecFns;

verus! {

/// The source of a split: a file, named by its path, or the standard input.
#[derive(Debug, Clone, PartialEq, Eq)]
pub enum Source {
    PathBuf(String),
    StdIn,
}

/// The name under which [`Source`] was first published.
pub type Input = Source;

/// Whether `path` is the token that stands for the standard input: a single
/// hyphen.
pub open spec fn is_stdin_token(path: Seq<char>) -> bool {
    path =~= seq!['-']
}

impl Source {
    /// Reads a command line argument: `-` is the standard input, everything
    /// else the path of a file.
    pub fn from_os_str(path: &str) -> (source: Self)
        ensures
            is_stdin_token(path@) ==> source == Source::StdIn,
            !is_stdin_token(path@) ==> (source matches Source::PathBuf(file) && file@ == path@),
    {
        if path.unicode_len() == 1 && path.get_char(0) == '-' {
            return Self::StdIn;
        }
        Self::PathBuf(path.to_owned())
    }
}

} // verus!
