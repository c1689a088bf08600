use vstd::prelude::*;

verus! {

/// The errors surfaced at the library's boundary.
#[derive(Debug, Clone, PartialEq, Eq)]
pub enum Error {
    /// A page or a string-table index that does not exist.
    NotFound,
    /// Reserved for callers that enforce access lists.
    NotPermitted,
    /// A conflicting range lock is held.
    Busy,
    /// A page of that name already exists.
    AlreadyExists,
    /// The container does not start with the magic bytes.
    BadMagic,
    /// The container's format version is not understood.
    UnsupportedVersion,
    /// The tables of the container contradict each other.
    CorruptFormat,
    /// The container ended before a structure did.
    UnexpectedEof,
    /// No room could be made for new data.
    StorageFull,
    /// A seek to a negative position, or past the largest offset.
    InvalidSeek,
    /// A value does not fit the field that must hold it on disk.
    TooLarge,
    /// An error of the container or of a codec, described in words.
    Other(String),
    /// Any other failure, described in words.
    Misc(String),
}

impl Error {
    /// Wraps the description of an underlying container or codec error.
    pub fn other(e: &str) -> (r: Self)
        ensures
            r matches Error::Other(m) && m@ == e@,
    {
        Error::Other(e.to_owned())
    }

    /// Builds a miscellaneous error from a message.
    pub fn misc(e: &str) -> (r: Self)
        ensures
            r matches Error::Misc(m) && m@ == e@,
    {
        Error::Misc(e.to_owned())
    }
}

} // verus!
