use vstd::prelude::*;

verus! {

/// What went wrong in an operation on a [`crate::session::Session`], with the path or
/// name at fault, as raw bytes.
#[derive(Debug)]
pub enum Error {
    /// A directory was needed and a file was found: names the file, or the path.
    NotDirectory(Vec<u8>),
    /// A file was needed and a directory was found: names the path.
    NotFile(Vec<u8>),
    /// Names the first name that is missing, or the path.
    NotExist(Vec<u8>),
    /// A path to canonicalize without a directory to read it against did not start at the root.
    NotAbsolute(Vec<u8>),
    /// The path is the root, which has no parent, or a `..` in it would climb above the root.
    NoParent(Vec<u8>),
    /// A canonical path with no last name. Only the root has none, and it fails with
    /// `NoParent` first, so no operation here returns this.
    NoFileName(Vec<u8>),
    /// The name is taken.
    Exists(Vec<u8>),
    /// A component that is neither a name, `.`, `..` nor the root. Paths here are bytes
    /// split at `/`, whose components are all of those kinds, so no operation here returns
    /// this.
    UnsupportedComponent(Vec<u8>),
}

/// The mathematical value of an [`Error`]: the same variant, with its bytes as a sequence.
pub enum Fault {
    NotDirectory(Seq<u8>),
    NotFile(Seq<u8>),
    NotExist(Seq<u8>),
    NotAbsolute(Seq<u8>),
    NoParent(Seq<u8>),
    NoFileName(Seq<u8>),
    Exists(Seq<u8>),
    UnsupportedComponent(Seq<u8>),
}

impl View for Error {
    type V = Fault;

    open spec fn view(&self) -> Fault {
        match self {
            Error::NotDirectory(p) => Fault::NotDirectory(p@),
            Error::NotFile(p) => Fault::NotFile(p@),
            Error::NotExist(p) => Fault::NotExist(p@),
            Error::NotAbsolute(p) => Fault::NotAbsolute(p@),
            Error::NoParent(p) => Fault::NoParent(p@),
            Error::NoFileName(p) => Fault::NoFileName(p@),
            Error::Exists(p) => Fault::Exists(p@),
            Error::UnsupportedComponent(p) => Fault::UnsupportedComponent(p@),
        }
    }
}

/// The outcome of an operation that returns nothing, as a mathematical value.
pub open spec fn unit_outcome(r: Result<(), Error>) -> Result<(), Fault> {
    match r {
        Ok(()) => Ok(()),
        Err(e) => Err(e@),
    }
}

/// The outcome of an operation that returns bytes, as a mathematical value.
pub open spec fn bytes_outcome(r: Result<Vec<u8>, Error>) -> Result<Seq<u8>, Fault> {
    match r {
        Ok(v) => Ok(v@),
        Err(e) => Err(e@),
    }
}

} // verus!
