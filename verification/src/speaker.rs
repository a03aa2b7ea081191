use vstd::prelude::*;

use crate::cache::{AudioCache, CacheView};
use crate::entry::Codec;
use crate::index::CachedWord;
use crate::library::{key_bytes, lookup, AudioLibrary, EntryView, Pronunciation};
use crate::text::{word_key, word_key_of, str_eq};

verus! {

/// What a [`Speaker`] holds: its cache and library (either may be missing) and the last word
/// handled.
pub struct SpeakerView {
    pub cache: Option<CacheView>,
    pub library: Option<Seq<EntryView>>,
    pub last: Option<Seq<char>>,
}

/// The state behind reading words aloud: the download cache (consulted first: it holds the
/// words the user met), the packed library (a ready-made set from elsewhere), and the last word
/// handled, so that the same word is neither read nor requested twice in a row. Either store may
/// be missing; then the word is simply not read, typing is never affected.
pub struct Speaker {
    cache: Option<AudioCache>,
    library: Option<AudioLibrary>,
    last: Option<String>,
}

impl View for Speaker {
    type V = SpeakerView;

    closed spec fn view(&self) -> SpeakerView {
        SpeakerView {
            cache: match self.cache {
                Some(c) => Some(c@),
                None => None,
            },
            library: match self.library {
                Some(l) => Some(l@),
                None => None,
            },
            last: match self.last {
                Some(w) => Some(w@),
                None => None,
            },
        }
    }
}

/// The local audio chosen to read a word.
pub enum LocalAudio {
    /// Nothing local: the caller may ask upstream.
    Nothing,
    /// The cached recording: play its file with its stored gain.
    Cached(CachedWord),
    /// A recording of the packed library, normalised when the library was built.
    Library { audio: Vec<u8>, codec: Codec },
}

/// A copy of a cached record.
fn copy_record(r: &CachedWord) -> (res: CachedWord)
    ensures
        res@ == r@,
{
    CachedWord {
        file: r.file.clone(),
        license: r.license.clone(),
        author: r.author.clone(),
        page: r.page.clone(),
        gain_centi_db: r.gain_centi_db,
    }
}

/// Whether the cache view `c` holds the (already normalised) key `key`, looked up as the cache
/// looks words up.
pub open spec fn cache_holds(cache: Option<CacheView>, key: Seq<char>) -> bool {
    cache matches Some(c) && c.words().dom().contains(word_key(key))
}

impl Speaker {
    /// The cache and the library are well formed.
    pub closed spec fn wf(&self) -> bool {
        &&& (self.cache matches Some(c) ==> c.wf())
        &&& (self.library matches Some(l) ==> l.wf())
        &&& (self.cache is Some <==> self@.cache is Some)
    }

    /// A speaker over the given cache and library, with no word handled yet.
    pub fn new(cache: Option<AudioCache>, library: Option<AudioLibrary>) -> (res: Self)
        requires
            cache matches Some(c) ==> c.wf(),
            library matches Some(l) ==> l.wf(),
        ensures
            res.wf(),
            res@.cache == (match cache {
                Some(c) => Some(c@),
                None => None::<CacheView>,
            }),
            res@.library == (match library {
                Some(l) => Some(l@),
                None => None::<Seq<EntryView>>,
            }),
            res@.last is None,
    {
        Speaker { cache, library, last: None }
    }

    /// The same word was handled last: it is neither read nor downloaded again.
    pub fn is_repeat(&self, word: &str) -> (res: bool)
        ensures
            res == (self@.last == Some(word_key(word@))),
    {
        match &self.last {
            Some(last) => {
                let key = word_key_of(word);
                str_eq(last.as_str(), key.as_str())
            },
            None => false,
        }
    }

    /// The word was asked for upstream and has no free recording.
    pub fn is_known_missing(&self, word: &str) -> (res: bool)
        ensures
            res == (self@.cache matches Some(c) && c.missing.contains(word_key(word@))),
    {
        match &self.cache {
            Some(cache) => cache.is_known_missing(word),
            None => false,
        }
    }

    /// The cached record of a word, if the cache is there and holds it.
    pub fn cached(&self, word: &str) -> (res: Option<&CachedWord>)
        requires
            self.wf(),
        ensures
            match res {
                Some(r) => self@.cache matches Some(c) && c.words().dom().contains(word_key(word@))
                    && c.words()[word_key(word@)] == r@,
                None => !(self@.cache matches Some(c) && c.words().dom().contains(word_key(word@))),
            },
    {
        match &self.cache {
            Some(cache) => cache.get(word),
            None => None,
        }
    }

    /// The pronunciation of a word in the packed library, if the library is there and holds it.
    pub fn from_library(&self, word: &str) -> (res: Option<Pronunciation<'_>>)
        requires
            self.wf(),
        ensures
            match res {
                Some(p) => self@.library matches Some(l) && lookup(l, key_bytes(word@)) == Some(
                    EntryView {
                        word: key_bytes(word@),
                        codec: p.codec,
                        source: p.source,
                        audio: p.audio@,
                    },
                ),
                None => !(self@.library matches Some(l) && lookup(l, key_bytes(word@)) is Some),
            },
    {
        match &self.library {
            Some(library) => library.get(word),
            None => None,
        }
    }

    /// Remembers the word as handled (read now, or requested from upstream).
    pub fn note_requested(&mut self, word: &str)
        ensures
            final(self)@.last == Some(word_key(word@)),
            final(self)@.cache == old(self)@.cache,
            final(self)@.library == old(self)@.library,
            final(self).wf() == old(self).wf(),
    {
        self.last = Some(word_key_of(word));
    }

    /// Remembers that upstream has no recording of the word (so it is not asked for again) and
    /// that the word was handled.
    pub fn note_missing(&mut self, word: &str)
        requires
            old(self).wf(),
        ensures
            final(self).wf(),
            final(self)@.last == Some(word_key(word@)),
            final(self)@.library == old(self)@.library,
            match old(self)@.cache {
                Some(c) => final(self)@.cache matches Some(d) && d.missing == c.missing.insert(word_key(word@))
                    && d.entries == c.entries && d.dir == c.dir,
                None => final(self)@.cache is None,
            },
    {
        let key = word_key_of(word);
        match self.cache.take() {
            Some(mut cache) => {
                cache.note_missing(word);
                self.cache = Some(cache);
            },
            None => {},
        }
        self.last = Some(key);
    }

    /// Forgets the last word: a new round of candidates reads the same word again.
    pub fn forget_last(&mut self)
        ensures
            final(self)@.last is None,
            final(self)@.cache == old(self)@.cache,
            final(self)@.library == old(self)@.library,
            final(self).wf() == old(self).wf(),
    {
        self.last = None;
    }

    /// Stores a record in the cache under the word (trimmed, in lower case); `false` when there
    /// is no cache.
    pub fn insert_cached(&mut self, word: &str, record: CachedWord) -> (res: bool)
        requires
            old(self).wf(),
        ensures
            final(self).wf(),
            res == old(self)@.cache is Some,
            match old(self)@.cache {
                Some(c) => final(self)@.cache matches Some(d) && d.words() == c.words().insert(word_key(word@), record@)
                    && d.missing == c.missing && d.dir == c.dir,
                None => final(self)@.cache is None,
            },
            final(self)@.library == old(self)@.library,
            final(self)@.last == old(self)@.last,
    {
        match self.cache.take() {
            Some(mut cache) => {
                cache.insert(word, record);
                self.cache = Some(cache);
                true
            },
            None => false,
        }
    }

    /// Sets the gain of a cached word; `true` when the word was cached (the index must then be
    /// rewritten).
    pub fn set_gain(&mut self, word: &str, gain_centi_db: i32) -> (res: bool)
        requires
            old(self).wf(),
        ensures
            final(self).wf(),
            res == (old(self)@.cache matches Some(c) && c.words().dom().contains(word_key(word@))),
            match old(self)@.cache {
                Some(c) => final(self)@.cache matches Some(d) && (if res {
                    d.words() == c.words().insert(
                        word_key(word@),
                        crate::cache::with_gain(c.words()[word_key(word@)], gain_centi_db),
                    )
                } else {
                    d.words() == c.words()
                }) && d.missing == c.missing && d.dir == c.dir,
                None => final(self)@.cache is None,
            },
            final(self)@.library == old(self)@.library,
            final(self)@.last == old(self)@.last,
    {
        match self.cache.take() {
            Some(mut cache) => {
                let res = cache.set_gain(word, gain_centi_db);
                self.cache = Some(cache);
                res
            },
            None => false,
        }
    }

    /// Forgets a cached word, returning its record (its file is the caller's to delete).
    pub fn forget_cached(&mut self, word: &str) -> (res: Option<CachedWord>)
        requires
            old(self).wf(),
        ensures
            final(self).wf(),
            match old(self)@.cache {
                Some(c) => final(self)@.cache matches Some(d) && d.words() == c.words().remove(word_key(word@))
                    && d.missing == c.missing && d.dir == c.dir && match res {
                    Some(r) => c.words().dom().contains(word_key(word@)) && c.words()[word_key(word@)] == r@,
                    None => !c.words().dom().contains(word_key(word@)),
                },
                None => final(self)@.cache is None && res is None,
            },
            final(self)@.library == old(self)@.library,
            final(self)@.last == old(self)@.last,
    {
        match self.cache.take() {
            Some(mut cache) => {
                let res = cache.forget(word);
                self.cache = Some(cache);
                res
            },
            None => None,
        }
    }

    /// The cache, if there is one.
    pub fn cache(&self) -> (res: Option<&AudioCache>)
        ensures
            match res {
                Some(c) => self@.cache == Some(c@) && (self.wf() ==> c.wf()),
                None => self@.cache is None,
            },
    {
        match &self.cache {
            Some(c) => Some(c),
            None => None,
        }
    }

    /// How many words are cached (0 without a cache).
    pub fn cache_len(&self) -> (res: usize)
        ensures
            res == match self@.cache {
                Some(c) => c.entries.len(),
                None => 0,
            },
    {
        match &self.cache {
            Some(c) => c.len(),
            None => 0,
        }
    }

    /// Empties the cache and forgets the last word; returns how many words were cached. The
    /// caller deletes the files first and stops playback.
    pub fn clear_cache(&mut self) -> (res: usize)
        requires
            old(self).wf(),
        ensures
            final(self).wf(),
            res == match old(self)@.cache {
                Some(c) => c.entries.len(),
                None => 0,
            },
            match old(self)@.cache {
                Some(c) => final(self)@.cache matches Some(d) && d.entries.len() == 0 && d.missing.is_empty()
                    && d.dir == c.dir && final(self)@.last is None,
                None => final(self)@.cache is None && final(self)@.last == old(self)@.last,
            },
            final(self)@.library == old(self)@.library,
    {
        match self.cache.take() {
            Some(mut cache) => {
                let count = cache.len();
                cache.clear();
                self.cache = Some(cache);
                self.last = None;
                count
            },
            None => 0,
        }
    }

    /// The credits of every cached recording — (word, licence, author, source page), by word —
    /// for the credits list in the preferences.
    pub fn credits(&self) -> (res: Vec<(String, String, String, String)>)
        ensures
            match self@.cache {
                Some(c) => res@.len() == c.entries.len() && forall|i: int| 0 <= i < res@.len() ==> {
                    &&& (#[trigger] res@[i]).0@ == c.entries[i].0
                    &&& res@[i].1@ == c.entries[i].1.license
                    &&& res@[i].2@ == c.entries[i].1.author
                    &&& res@[i].3@ == c.entries[i].1.page
                },
                None => res@.len() == 0,
            },
    {
        let mut out: Vec<(String, String, String, String)> = Vec::new();
        match &self.cache {
            Some(cache) => {
                let entries = cache.entries();
                let mut i: usize = 0;
                while i < entries.len()
                    invariant
                        self@.cache == Some(cache@),
                        crate::cache::pair_views(entries@) == cache@.entries,
                        i <= entries@.len(),
                        out@.len() == i,
                        forall|k: int| 0 <= k < i ==> {
                            &&& (#[trigger] out@[k]).0@ == cache@.entries[k].0
                            &&& out@[k].1@ == cache@.entries[k].1.license
                            &&& out@[k].2@ == cache@.entries[k].1.author
                            &&& out@[k].3@ == cache@.entries[k].1.page
                        },
                    decreases entries@.len() - i,
                {
                    let (word, record) = &entries[i];
                    assert(cache@.entries[i as int] == (word@, record@));
                    out.push((word.clone(), record.license.clone(), record.author.clone(), record.page.clone()));
                    i = i + 1;
                }
            },
            None => {},
        }
        out
    }




    /// Chooses what to play for `word` from local audio only: the cached recording first (the
    /// words the user met), when `cached_file_present` says its file is still on disk; then the
    /// packed library. Whatever is chosen marks the word as handled; with nothing chosen the
    /// caller may ask upstream.
    pub fn speak_local(&mut self, word: &str, cached_file_present: bool) -> (res: LocalAudio)
        requires
            old(self).wf(),
        ensures
            final(self).wf(),
            final(self)@.cache == old(self)@.cache,
            final(self)@.library == old(self)@.library,
            ({
                let key = word_key(word@);
                if key.len() == 0 {
                    res is Nothing && final(self)@.last == old(self)@.last
                } else if cached_file_present && cache_holds(old(self)@.cache, key) {
                    &&& res matches LocalAudio::Cached(r)
                    &&& r@ == old(self)@.cache->0.words()[word_key(key)]
                    &&& final(self)@.last == Some(key)
                } else if old(self)@.library matches Some(l) && lookup(l, key_bytes(key)) is Some {
                    &&& res matches LocalAudio::Library { audio, codec }
                    &&& audio@ == lookup(old(self)@.library->0, key_bytes(key))->0.audio
                    &&& codec == lookup(old(self)@.library->0, key_bytes(key))->0.codec
                    &&& final(self)@.last == Some(key)
                } else {
                    res is Nothing && final(self)@.last == old(self)@.last
                }
            }),
    {
        let key = word_key_of(word);
        if key.as_str().is_empty() {
            return LocalAudio::Nothing;
        }
        if cached_file_present {
            match self.cached(key.as_str()) {
                Some(r) => {
                    let record = copy_record(r);
                    self.last = Some(key);
                    return LocalAudio::Cached(record);
                },
                None => {},
            }
        }
        match self.from_library(key.as_str()) {
            Some(p) => {
                let audio = vstd::slice::slice_to_vec(p.audio);
                let codec = p.codec;
                self.last = Some(key);
                LocalAudio::Library { audio, codec }
            },
            None => LocalAudio::Nothing,
        }
    }
}

} // verus!
