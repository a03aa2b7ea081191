use vstd::prelude::*;

verus! {

/// What can go wrong with pronunciations. Pronunciation is an extra: callers log these and never
/// let them get in the way of typing.
#[derive(Debug, Clone, PartialEq, Eq)]
pub enum AudioError {
    /// Reading or writing a file failed (the message of the I/O error).
    Io(String),
    /// The packed container is malformed (the message of the container error).
    Format(String),
    /// The hash index of a packed library is broken.
    BrokenIndex,
    /// Entry `index` points outside the word arena or the audio blob.
    OutOfBounds {
        /// The position of the offending entry.
        index: usize,
    },
    /// Entry `index` holds a word that is not UTF-8.
    BadWord {
        /// The position of the offending entry.
        index: usize,
    },
    /// An entry carries a codec code no codec has.
    UnknownCodec(u8),
    /// An entry carries a source code no source has.
    UnknownSource(u8),
    /// Fetching failed (network, time-out, upstream error).
    Fetch(String),
    /// The library does not fit the packed layout: words or audio running past 4 GiB, a clip of
    /// more than 4 GiB, or a word longer than 65535 bytes that cannot be cut there on a
    /// character boundary.
    TooLarge,
}

} // verus!
