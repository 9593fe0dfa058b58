use vstd::prelude::*;

verus! {

/// What went wrong in a fallible operation.
#[derive(Clone, Copy, Debug, PartialEq, Eq, Structural)]
pub enum ErrorKind {
    /// A key is not in the database, or a file is not in the file layer.
    NotFound,
    /// A file of that name exists already.
    AlreadyExists,
    /// The disk database has no room left for the value.
    OutOfMemory,
    /// A value could not be encoded or decoded, or a device reported a
    /// block size of zero.
    InvalidData,
    /// The storage below failed; the operating system's error code.
    Io(i32),
}

/// Error of every fallible operation of the library.
#[derive(Clone, Copy, Debug, PartialEq, Eq, Structural)]
pub struct Error {
    pub kind: ErrorKind,
}

impl Error {
    pub fn new(kind: ErrorKind) -> (r: Self)
        ensures
            r.kind == kind,
    {
        Error { kind }
    }

    pub fn kind(&self) -> (r: ErrorKind)
        ensures
            r == self.kind,
    {
        self.kind
    }
}

} // verus!
