# qingjian-audio

Word pronunciation for the Qingjian input method: for an English word form, find a piece of
encoded audio and the credits that travel with it, from a download cache (one file per word and a
tab-separated index) or from a packed library, and decide when to ask Wikimedia Commons for a
recording that is not there yet.

The library under `src/` is written in Verus and verified: every public function states what it
returns in its contract (save `Downloader::poll`, whose result comes from another thread), and the laws
that tie functions together (the index read back gives the records written, for words that are
their own lower case; the first item of a word wins a build, for words under 65535 bytes; human
recordings win over synthetic ones when packing; clips do not depend on the order a directory is
listed in; the credits list is grouped by licence) are proof functions.

- `src/library.rs`, `src/entry.rs`, `src/source.rs`: the packed library, its entry table and codes.
- `src/cache.rs`, `src/index.rs`: the download cache and its index format.
- `src/fetch/`: what to ask Commons for and which answer to take.
- `src/speaker.rs`, `src/speaking.rs`: which word to read, from where, and when to download.
- `src/pack.rs`: packing clip directories into a library with its credits list (grouped by
  licence). Writing the library into its `.qj` container file is not part of this crate.
- `app/`: the command-line front, the HTTP client, the fetching thread, the cache files on disk,
  and the macOS playback and timers.
