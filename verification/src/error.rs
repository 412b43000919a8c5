use vstd::prelude::*;

verus! {

/// The ways resolving a source path can fail.
///
/// Filesystem failures (a path that does not exist, a probe that is refused)
/// belong to the unverified shell around this library; the variants here are
/// the faults the resolver itself detects.
#[derive(Clone, Copy, Debug, PartialEq, Eq, Structural)]
pub enum Error {
    /// The path is the filesystem root: it has no parent directory and no
    /// ordinary name, so it cannot be moved aside.
    Root,
    /// The final component of the path is not an ordinary name.
    UnexpectedFinalPathComponent,
}

impl Error {
    /// A human-readable description of the error.
    pub fn message(&self) -> (r: &'static str)
        ensures
            *self == Error::Root ==> r@ == "cannot move aside root directory"@,
            *self == Error::UnexpectedFinalPathComponent ==> r@ == ""@,
    {
        match self {
            Error::Root => "cannot move aside root directory",
            Error::UnexpectedFinalPathComponent => "",
        }
    }
}

} // verus!
