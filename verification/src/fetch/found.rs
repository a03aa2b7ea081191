use vstd::prelude::*;

verus! {

/// One pronunciation found upstream: the audio bytes and what attribution needs.
#[derive(Debug, Clone, PartialEq, Eq)]
pub struct FoundAudio {
    /// The encoded audio, stored as is in the cache and handed as is to the platform player.
    pub audio: Vec<u8>,
    /// File extension (`ogg` / `wav`); the cache names and recognises files by it.
    pub extension: String,
    /// Short licence name (`CC BY-SA 3.0`), as given upstream.
    pub license: String,
    /// Author / speaker; CC-BY licences ask for it.
    pub author: String,
    /// URL of the file page, given as the source in the credits.
    pub page: String,
}

} // verus!
