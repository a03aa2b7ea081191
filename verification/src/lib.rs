//! Word pronunciation: for a word form, find a piece of encoded audio and the facts that travel
//! with it (codec, source, credits). Decoding and playback belong to the platform layer.
//!
//! Two sources are consulted, the download cache first and the packed library second; words are
//! always looked up by their trimmed, lower-cased form.

mod entry;
mod error;
pub mod index;
pub mod pack;
mod order;
mod cache;
pub mod downloader;
mod speaker;
pub mod speaking;
mod library;
pub mod fetch;
mod text;
mod source;

pub use entry::{Codec, Entry};
pub use error::AudioError;
pub use cache::{sanitize, AudioCache, CacheView};
pub use speaker::{LocalAudio, Speaker, SpeakerView};
pub use index::CachedWord;
pub use library::{AudioLibrary, EntryView, Item, Pronunciation};
pub use source::Source;

use vstd::prelude::*;

verus! {

/// File extension of a packed container.
pub const EXTENSION: &'static str = "qj";

/// Default file name of the packed pronunciation library.
pub const FILE_NAME: &'static str = "audio-en.qj";

/// Name of the on-demand download cache directory (under the user data directory).
pub const CACHE_DIR: &'static str = "audio-cache";

} // verus!
