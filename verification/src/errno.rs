//! Error conditions, in the style of the operating system's error numbers.

use vstd::prelude::*;

verus! {

/// The ways in which an operation of this crate, or a system call made on its
/// behalf, can fail.
///
/// The named variants are the conditions that the crate itself raises or
/// inspects. Every other code that a system call reports is carried through
/// untouched in [`Errno::Other`].
#[derive(Clone, Copy, Debug, PartialEq, Eq, Structural)]
pub enum Errno {
    /// A path does not fit into the buffer that should hold it.
    NameTooLong,
    /// A path is empty, or names something that does not exist.
    NoEntry,
    /// A path holds a NUL byte; from a link read: the file is no symbolic link.
    InvalidArgument,
    /// More symbolic links were followed than the limit allows.
    TooManyLinks,
    /// A component that has to be a directory is something else.
    NotADirectory,
    /// A component may not be searched.
    AccessDenied,
    /// A result does not fit the range that was offered for it.
    OutOfRange,
    /// Any other error number, as the system reported it.
    Other(i32),
}

} // verus!
