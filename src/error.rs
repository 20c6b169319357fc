use vstd::prelude::*;

verus! {

/// The errors of the library.
#[derive(Debug)]
pub enum Error {
    /// A failure described by a message, such as one reported by a codec or
    /// by the file system.
    Error(String),
    /// A buffer to load from was empty.
    Blank,
    /// A key path to write to has an empty segment.
    InvalidPath(String),
}

impl Error {
    /// The error for an operation that is not implemented.
    pub fn unimplemented() -> (r: Error)
        ensures
            r matches Error::Error(m) && m@ == "unimplemented"@,
    {
        Error::Error("unimplemented".to_owned())
    }

    /// An error that carries `message`.
    pub fn wrap(message: &str) -> (r: Error)
        ensures
            r matches Error::Error(m) && m@ == message@,
    {
        Error::Error(message.to_owned())
    }
}

} // verus!
