use vstd::prelude::*;
use vstd::utf8::{decode_utf8, encode_utf8, encode_utf8_valid_utf8, is_char_boundary, valid_utf8, valid_utf8_split};

use crate::entry::{Codec, Entry};
use crate::error::AudioError;
use crate::source::Source;
use crate::fetch::select::views;
use crate::pack::holds_str;
use crate::text::{word_key, word_key_of};

verus! {

broadcast use encode_utf8_valid_utf8;

/// One pronunciation found: the audio bytes (handed as they are to the platform player) with
/// their encoding and source.
#[derive(Debug, Clone, Copy)]
pub struct Pronunciation<'a> {
    /// The encoded audio; it is not decoded here.
    pub audio: &'a [u8],
    pub codec: Codec,
    pub source: Source,
}

/// The contents of one entry of a library: its word (UTF-8 bytes), codec, source and audio.
pub struct EntryView {
    pub word: Seq<u8>,
    pub codec: Codec,
    pub source: Source,
    pub audio: Seq<u8>,
}

/// The contents of a library made of a word arena, an entry table and an audio blob.
pub open spec fn sections_view(words: Seq<u8>, entries: Seq<Entry>, blob: Seq<u8>) -> Seq<EntryView> {
    entries.map_values(
        |e: Entry|
            EntryView {
                word: words.subrange(e.word_start as int, e.word_start + e.word_len),
                codec: Codec::spec_from_code(e.codec)->0,
                source: Source::spec_from_code(e.source)->0,
                audio: blob.subrange(e.audio_start as int, e.audio_start + e.audio_len),
            },
    )
}

/// What is wrong with entry `index`, checked in this order: its word or audio lies outside the
/// sections, its codec code is unknown, its source code is unknown, its word is not UTF-8.
pub open spec fn entry_error(index: int, e: Entry, words: Seq<u8>, blob_len: nat) -> Option<AudioError> {
    if e.audio_start + e.audio_len > blob_len || e.word_start + e.word_len > words.len() {
        Some(AudioError::OutOfBounds { index: index as usize })
    } else if Codec::spec_from_code(e.codec) is None {
        Some(AudioError::UnknownCodec(e.codec))
    } else if Source::spec_from_code(e.source) is None {
        Some(AudioError::UnknownSource(e.source))
    } else if !valid_utf8(words.subrange(e.word_start as int, e.word_start + e.word_len)) {
        Some(AudioError::BadWord { index: index as usize })
    } else {
        None
    }
}

/// The error of the first bad entry from `start` on, if any.
pub open spec fn sections_error_from(
    entries: Seq<Entry>,
    start: int,
    words: Seq<u8>,
    blob_len: nat,
) -> Option<AudioError>
    decreases entries.len() - start,
{
    if start < 0 || start >= entries.len() {
        None
    } else {
        match entry_error(start, entries[start], words, blob_len) {
            Some(e) => Some(e),
            None => sections_error_from(entries, start + 1, words, blob_len),
        }
    }
}

/// The error of the first bad entry, if any.
pub open spec fn sections_error(entries: Seq<Entry>, words: Seq<u8>, blob_len: nat) -> Option<AudioError> {
    sections_error_from(entries, 0, words, blob_len)
}

/// The first entry whose word is `key`.
pub open spec fn lookup(v: Seq<EntryView>, key: Seq<u8>) -> Option<EntryView>
    decreases v.len(),
{
    if v.len() == 0 {
        None
    } else if v[0].word == key {
        Some(v[0])
    } else {
        lookup(v.drop_first(), key)
    }
}

/// The UTF-8 bytes of the key a word is stored and looked up under.
pub open spec fn key_bytes(word: Seq<char>) -> Seq<u8> {
    encode_utf8(word_key(word))
}

/// An item handed to [`AudioLibrary::build`]: word, source, codec, audio.
pub type Item = (String, Source, Codec, Vec<u8>);

/// The word an entry stores for the key `key` (UTF-8 bytes): its length is kept in 16 bits, so a
/// longer key is cut to its first 65535 bytes.
pub open spec fn stored_word(key: Seq<u8>) -> Seq<u8> {
    if key.len() <= 65535 {
        key
    } else {
        key.take(65535)
    }
}

/// The keys (trimmed, lower-cased words) of the items a build keeps, in order: an item is kept
/// when its key is not empty, its audio is not empty, and no earlier kept item has the same key.
pub open spec fn kept_keys(items: Seq<Item>) -> Seq<Seq<char>>
    decreases items.len(),
{
    if items.len() == 0 {
        Seq::empty()
    } else {
        let prev = kept_keys(items.drop_last());
        let item = items.last();
        let k = word_key(item.0@);
        if k.len() == 0 || item.3@.len() == 0 || prev.contains(k) {
            prev
        } else {
            prev.push(k)
        }
    }
}

/// The entries a build keeps, in order: one for each kept item (see [`kept_keys`]; the first item
/// of a word wins, so human recordings put first beat synthetic ones), holding the stored form of
/// its key, its codec, source and audio.
pub open spec fn kept(items: Seq<Item>) -> Seq<EntryView>
    decreases items.len(),
{
    if items.len() == 0 {
        Seq::empty()
    } else {
        let prev = kept(items.drop_last());
        let item = items.last();
        let k = word_key(item.0@);
        if k.len() == 0 || item.3@.len() == 0 || kept_keys(items.drop_last()).contains(k) {
            prev
        } else {
            prev.push(
                EntryView { word: stored_word(encode_utf8(k)), codec: item.2, source: item.1, audio: item.3@ },
            )
        }
    }
}

/// Whether a build of `items` goes through: for each kept entry in turn, the words and the audio
/// before it fit 32-bit offsets, its audio fits a 32-bit length, and a key longer than 65535
/// bytes is cut on a character boundary.
pub open spec fn builds(items: Seq<Item>) -> bool
    decreases items.len(),
{
    if items.len() == 0 {
        true
    } else {
        let prev_items = items.drop_last();
        let prev = kept(prev_items);
        let k = encode_utf8(word_key(items.last().0@));
        &&& builds(prev_items)
        &&& (kept(items).len() == prev.len() || {
            &&& words_len(prev) <= u32::MAX
            &&& audio_len(prev) <= u32::MAX
            &&& items.last().3@.len() <= u32::MAX
            &&& (k.len() <= 65535 || is_char_boundary(k, 65535))
        })
    }
}

/// Total bytes of the words of `v`.
pub open spec fn words_len(v: Seq<EntryView>) -> nat
    decreases v.len(),
{
    if v.len() == 0 {
        0
    } else {
        words_len(v.drop_last()) + v.last().word.len()
    }
}

/// Total bytes of the audio of `v`.
pub open spec fn audio_len(v: Seq<EntryView>) -> nat
    decreases v.len(),
{
    if v.len() == 0 {
        0
    } else {
        audio_len(v.drop_last()) + v.last().audio.len()
    }
}

/// The word pronunciation library. Built from items, its sections are its own; opened from a
/// packed file, they come from the file. Lookups do not tell the two apart.
pub struct AudioLibrary {
    /// All words (lower case, UTF-8) end to end.
    words: Vec<u8>,
    /// Where each pronunciation lies.
    entries: Vec<Entry>,
    /// All audio end to end.
    blob: Vec<u8>,
}

impl View for AudioLibrary {
    type V = Seq<EntryView>;

    closed spec fn view(&self) -> Seq<EntryView> {
        sections_view(self.words@, self.entries@, self.blob@)
    }
}

proof fn lemma_lookup(v: Seq<EntryView>, key: Seq<u8>, j: int)
    requires
        0 <= j <= v.len(),
        forall|k: int| 0 <= k < j ==> (#[trigger] v[k]).word != key,
        j < v.len() ==> v[j].word == key,
    ensures
        lookup(v, key) == if j < v.len() {
            Some(v[j])
        } else {
            None::<EntryView>
        },
    decreases j,
{
    if j > 0 {
        let t = v.drop_first();
        assert forall|k: int| 0 <= k < j - 1 implies (#[trigger] t[k]).word != key by {
            assert(t[k] == v[k + 1]);
        }
        assert(v[0].word != key);
        lemma_lookup(t, key, j - 1);
        if j < v.len() {
            assert(t[j - 1] == v[j]);
        }
    }
}

proof fn lemma_sections_error_from(entries: Seq<Entry>, start: int, words: Seq<u8>, blob_len: nat)
    requires
        0 <= start <= entries.len(),
        forall|k: int|
            start <= k < entries.len() ==> entry_error(k, #[trigger] entries[k], words, blob_len)
                is None,
    ensures
        sections_error_from(entries, start, words, blob_len) is None,
    decreases entries.len() - start,
{
    if start < entries.len() {
        lemma_sections_error_from(entries, start + 1, words, blob_len);
    }
}

proof fn lemma_sections_error_skip(entries: Seq<Entry>, i: int, words: Seq<u8>, blob_len: nat)
    requires
        0 <= i <= entries.len(),
        forall|k: int| 0 <= k < i ==> entry_error(k, #[trigger] entries[k], words, blob_len) is None,
    ensures
        sections_error(entries, words, blob_len) == sections_error_from(entries, i, words, blob_len),
    decreases i,
{
    if i > 0 {
        lemma_sections_error_skip(entries, i - 1, words, blob_len);
    }
}

proof fn lemma_error_free_at(entries: Seq<Entry>, start: int, k: int, words: Seq<u8>, blob_len: nat)
    requires
        0 <= start <= k < entries.len(),
        sections_error_from(entries, start, words, blob_len) is None,
    ensures
        entry_error(k, entries[k], words, blob_len) is None,
    decreases k - start,
{
    if start < k {
        lemma_error_free_at(entries, start + 1, k, words, blob_len);
    }
}

/// Whether `words[start .. start + len]` equals `key`.
fn bytes_match(words: &Vec<u8>, start: usize, len: usize, key: &[u8]) -> (res: bool)
    requires
        start + len <= words@.len(),
    ensures
        res == (words@.subrange(start as int, start + len) == key@),
{
    if len != key.len() {
        return false;
    }
    let n = words.len();
    let mut i: usize = 0;
    while i < len
        invariant
            n == words@.len(),
            start + len <= words@.len(),
            len == key@.len(),
            i <= len,
            forall|k: int| 0 <= k < i ==> words@[start + k] == key@[k],
        decreases len - i,
    {
        if words[start + i] != key[i] {
            return false;
        }
        i = i + 1;
    }
    assert(words@.subrange(start as int, start + len) =~= key@);
    true
}

/// Appends `other` to `v`.
fn append_bytes(v: &mut Vec<u8>, other: &[u8])
    ensures
        final(v)@ == old(v)@ + other@,
{
    let mut i: usize = 0;
    while i < other.len()
        invariant
            i <= other@.len(),
            v@ == old(v)@ + other@.take(i as int),
        decreases other@.len() - i,
    {
        v.push(other[i]);
        assert(v@ =~= old(v)@ + other@.take(i + 1));
        i = i + 1;
    }
    assert(other@.take(other@.len() as int) =~= other@);
}

impl AudioLibrary {
    /// Every entry lies inside the sections and carries known codes.
    pub closed spec fn wf(&self) -> bool {
        sections_error(self.entries@, self.words@, self.blob@.len()) is None
    }

    /// The word arena.
    pub closed spec fn spec_words(&self) -> Seq<u8> {
        self.words@
    }

    /// The entry table.
    pub closed spec fn spec_entries(&self) -> Seq<Entry> {
        self.entries@
    }

    /// The audio blob.
    pub closed spec fn spec_blob(&self) -> Seq<u8> {
        self.blob@
    }

    /// An empty library.
    pub fn new() -> (res: Self)
        ensures
            res.wf(),
            res@.len() == 0,
    {
        let res = AudioLibrary { words: Vec::new(), entries: Vec::new(), blob: Vec::new() };
        assert(res@ =~= Seq::<EntryView>::empty());
        res
    }

    /// Builds the library from `(word, source, codec, audio)` items. Words are trimmed and
    /// lower-cased; items with an empty word or empty audio are dropped, and of items with the
    /// same word the first wins (human recordings put first win over synthetic ones). A word
    /// longer than 65535 bytes is stored cut to its first 65535 bytes. Fails with
    /// [`AudioError::TooLarge`] exactly when the kept contents do not fit 32-bit offsets or a
    /// long word cannot be cut on a character boundary (see [`builds`]).
    pub fn build(items: Vec<Item>) -> (res: Result<Self, AudioError>)
        ensures
            match res {
                Ok(lib) => {
                    &&& builds(items@)
                    &&& lib.wf()
                    &&& lib@ == kept(items@)
                    &&& lib.spec_words().len() == words_len(kept(items@))
                    &&& lib.spec_blob().len() == audio_len(kept(items@))
                },
                Err(e) => !builds(items@) && e == AudioError::TooLarge,
            },
    {
        let mut words: Vec<u8> = Vec::new();
        let mut entries: Vec<Entry> = Vec::new();
        let mut blob: Vec<u8> = Vec::new();
        let mut keys: Vec<String> = Vec::new();
        assert(views(keys@) =~= Seq::<Seq<char>>::empty());
        let mut i: usize = 0;
        while i < items.len()
            invariant
                i <= items@.len(),
                sections_view(words@, entries@, blob@) == kept(items@.take(i as int)),
                sections_error(entries@, words@, blob@.len()) is None,
                builds(items@.take(i as int)),
                views(keys@) == kept_keys(items@.take(i as int)),
                words@.len() == words_len(kept(items@.take(i as int))),
                blob@.len() == audio_len(kept(items@.take(i as int))),
            decreases items@.len() - i,
        {
            let ghost prefix = items@.take(i as int);
            let ghost next = items@.take(i + 1);
            assert(next.drop_last() =~= prefix);
            let item = &items[i];
            assert(next.last() == *item);
            let key = word_key_of(item.0.as_str());
            let audio = &item.3;
            // an empty word or no audio, or an earlier item with the same word: skipped
            if key.as_str().is_empty() || audio.len() == 0 || holds_str(&keys, key.as_str()) {
                i = i + 1;
                continue;
            }
            let key_bytes = key.as_str().as_bytes();
            let n_key = key_bytes.len();
            assert(key_bytes@ == encode_utf8(key@));
            let ghost new_entry = EntryView {
                word: stored_word(key_bytes@),
                codec: item.2,
                source: item.1,
                audio: audio@,
            };
            assert(kept(next) == kept(prefix).push(new_entry));
            if words.len() > 0xffff_ffff || blob.len() > 0xffff_ffff || audio.len() > 0xffff_ffff || (n_key
                > 65535 && !key.as_str().is_char_boundary(65535)) {
                proof {
                    assert(!builds(next));
                    if builds(items@) {
                        lemma_builds_prefix(items@, i + 1);
                    }
                }
                return Err(AudioError::TooLarge);
            }
            let n: usize = if n_key > 65535 {
                65535
            } else {
                n_key
            };
            let stored = vstd::slice::slice_subrange(key_bytes, 0, n);
            proof {
                if n_key > 65535 {
                    valid_utf8_split(key_bytes@, 65535);
                    assert(stored@ =~= key_bytes@.subrange(0, 65535));
                } else {
                    assert(stored@ =~= key_bytes@);
                }
                assert(stored@ =~= stored_word(key_bytes@));
                assert(valid_utf8(stored@));
            }
            let entry = Entry {
                word_start: words.len() as u32,
                audio_start: blob.len() as u32,
                audio_len: audio.len() as u32,
                word_len: n as u16,
                codec: item.2.code(),
                source: item.1.code(),
            };
            let ghost old_words = words@;
            let ghost old_blob = blob@;
            let ghost old_entries = entries@;
            append_bytes(&mut words, stored);
            append_bytes(&mut blob, audio.as_slice());
            entries.push(entry);
            proof {
                assert(words@.subrange(entry.word_start as int, entry.word_start + entry.word_len) =~= stored@);
                assert(blob@.subrange(entry.audio_start as int, entry.audio_start + entry.audio_len) =~= audio@);
                assert forall|k: int| 0 <= k < old_entries.len() implies
                    #[trigger] sections_view(words@, entries@, blob@)[k] == sections_view(old_words, old_entries, old_blob)[k] by {
                    let e = old_entries[k];
                    lemma_error_free_at(old_entries, 0, k, old_words, old_blob.len());
                    assert(words@.subrange(e.word_start as int, e.word_start + e.word_len) =~= old_words.subrange(e.word_start as int, e.word_start + e.word_len));
                    assert(blob@.subrange(e.audio_start as int, e.audio_start + e.audio_len) =~= old_blob.subrange(e.audio_start as int, e.audio_start + e.audio_len));
                }
                assert(sections_view(words@, entries@, blob@) =~= kept(next));
                assert forall|k: int| 0 <= k < entries@.len() implies
                    entry_error(k, #[trigger] entries@[k], words@, blob@.len()) is None by {
                    if k < old_entries.len() {
                        lemma_error_free_at(old_entries, 0, k, old_words, old_blob.len());
                        let e = old_entries[k];
                        assert(words@.subrange(e.word_start as int, e.word_start + e.word_len) =~= old_words.subrange(e.word_start as int, e.word_start + e.word_len));
                    }
                }
                lemma_sections_error_from(entries@, 0, words@, blob@.len());
                assert(kept(next).drop_last() =~= kept(prefix));
            }
            let ghost before_keys = keys@;
            keys.push(key);
            assert(views(keys@) =~= views(before_keys).push(word_key(item.0@)));
            i = i + 1;
        }
        assert(items@.take(items@.len() as int) =~= items@);
        Ok(AudioLibrary { words, entries, blob })
    }

    /// Looks a word up, ignoring case and surrounding whitespace; `None` when it is not there.
    pub fn get(&self, word: &str) -> (res: Option<Pronunciation<'_>>)
        requires
            self.wf(),
        ensures
            match res {
                Some(p) => lookup(self@, key_bytes(word@)) == Some(
                    EntryView {
                        word: key_bytes(word@),
                        codec: p.codec,
                        source: p.source,
                        audio: p.audio@,
                    },
                ),
                None => lookup(self@, key_bytes(word@)) is None,
            },
    {
        let key = word_key_of(word);
        let kb = key.as_str().as_bytes();
        let blob_len = self.blob.len();
        let mut j: usize = 0;
        while j < self.entries.len()
            invariant
                self.wf(),
                blob_len == self.blob@.len(),
                kb@ == key_bytes(word@),
                j <= self@.len(),
                forall|k: int| 0 <= k < j ==> (#[trigger] self@[k]).word != kb@,
            decreases self@.len() - j,
        {
            let e = self.entries[j];
            proof {
                lemma_error_free_at(self.entries@, 0, j as int, self.words@, self.blob@.len());
            }
            if bytes_match(&self.words, e.word_start as usize, e.word_len as usize, kb) {
                proof {
                    lemma_lookup(self@, kb@, j as int);
                }
                let start = e.audio_start as usize;
                let end = start + e.audio_len as usize;
                let codec = Codec::from_code(e.codec);
                let source = Source::from_code(e.source);
                match (codec, source) {
                    (Some(codec), Some(source)) => {
                        return Some(Pronunciation {
                            audio: vstd::slice::slice_subrange(self.blob.as_slice(), start, end),
                            codec,
                            source,
                        });
                    },
                    _ => {
                        return None;
                    },
                }
            }
            j = j + 1;
        }
        proof {
            lemma_lookup(self@, kb@, j as int);
        }
        None
    }
}


/// `String::from_utf8`: the bytes decoded when they are valid UTF-8.
#[verifier::external_body]
fn string_from_utf8(bytes: Vec<u8>) -> (res: Option<String>)
    ensures
        res is Some <==> valid_utf8(bytes@),
        res matches Some(s) ==> s@ == decode_utf8(bytes@),
{
    String::from_utf8(bytes).ok()
}

/// The bytes `v[start .. end]` as a vector.
fn copy_range(v: &Vec<u8>, start: usize, end: usize) -> (res: Vec<u8>)
    requires
        start <= end <= v@.len(),
    ensures
        res@ == v@.subrange(start as int, end as int),
{
    let mut out: Vec<u8> = Vec::new();
    let mut k: usize = start;
    while k < end
        invariant
            start <= k <= end <= v@.len(),
            out@ == v@.subrange(start as int, k as int),
        decreases end - k,
    {
        out.push(v[k]);
        assert(out@ =~= v@.subrange(start as int, k + 1));
        k = k + 1;
    }
    out
}

/// The decoded words of a library view.
pub open spec fn view_words(v: Seq<EntryView>) -> Seq<Seq<char>> {
    v.map_values(|e: EntryView| decode_utf8(e.word))
}


impl AudioLibrary {
    /// Takes the sections of a packed library and checks every entry: it must point inside the
    /// word arena and the audio blob, carry known codec and source codes, and hold a UTF-8 word.
    /// The first entry that fails decides the error.
    pub fn from_sections(words: Vec<u8>, entries: Vec<Entry>, blob: Vec<u8>) -> (res: Result<
        Self,
        AudioError,
    >)
        ensures
            match res {
                Ok(lib) => {
                    &&& sections_error(entries@, words@, blob@.len()) is None
                    &&& lib.wf()
                    &&& lib@ == sections_view(words@, entries@, blob@)
                    &&& lib.spec_words() == words@
                    &&& lib.spec_entries() == entries@
                    &&& lib.spec_blob() == blob@
                },
                Err(e) => sections_error(entries@, words@, blob@.len()) == Some(e),
            },
    {
        let words_n = words.len();
        let blob_n = blob.len();
        let mut i: usize = 0;
        while i < entries.len()
            invariant
                words_n == words@.len(),
                blob_n == blob@.len(),
                i <= entries@.len(),
                forall|k: int| 0 <= k < i ==> entry_error(k, #[trigger] entries@[k], words@, blob@.len()) is None,
            decreases entries@.len() - i,
        {
            let e = entries[i];
            proof {
                lemma_sections_error_skip(entries@, i as int, words@, blob@.len());
            }
            if e.audio_start as u64 + e.audio_len as u64 > blob_n as u64
                || e.word_start as u64 + e.word_len as u64 > words_n as u64 {
                return Err(AudioError::OutOfBounds { index: i });
            }
            if Codec::from_code(e.codec).is_none() {
                return Err(AudioError::UnknownCodec(e.codec));
            }
            if Source::from_code(e.source).is_none() {
                return Err(AudioError::UnknownSource(e.source));
            }
            let start = e.word_start as usize;
            let end = start + e.word_len as usize;
            if string_from_utf8(copy_range(&words, start, end)).is_none() {
                return Err(AudioError::BadWord { index: i });
            }
            i = i + 1;
        }
        proof {
            lemma_sections_error_from(entries@, 0, words@, blob@.len());
        }
        Ok(AudioLibrary { words, entries, blob })
    }

    /// The word arena, as written into a packed library.
    pub fn words_section(&self) -> (res: &[u8])
        ensures
            res@ == self.spec_words(),
    {
        self.words.as_slice()
    }

    /// The entry table, as written into a packed library.
    pub fn entries_section(&self) -> (res: &[Entry])
        ensures
            res@ == self.spec_entries(),
    {
        self.entries.as_slice()
    }

    /// The audio blob, as written into a packed library.
    pub fn blob_section(&self) -> (res: &[u8])
        ensures
            res@ == self.spec_blob(),
    {
        self.blob.as_slice()
    }

    /// The words held (lower case), in the order they were added.
    pub fn words(&self) -> (res: Vec<String>)
        requires
            self.wf(),
        ensures
            res@.map_values(|s: String| s@) == view_words(self@),
    {
        let mut out: Vec<String> = Vec::new();
        let words_n = self.words.len();
        let mut j: usize = 0;
        while j < self.entries.len()
            invariant
                self.wf(),
                words_n == self.words@.len(),
                j <= self@.len(),
                out@.map_values(|s: String| s@) == view_words(self@).take(j as int),
            decreases self@.len() - j,
        {
            let e = self.entries[j];
            proof {
                lemma_error_free_at(self.entries@, 0, j as int, self.words@, self.blob@.len());
            }
            let start = e.word_start as usize;
            let end = start + e.word_len as usize;
            assert(self@[j as int].word == self.words@.subrange(start as int, end as int));
            let bytes = copy_range(&self.words, start, end);
            assert(view_words(self@)[j as int] == decode_utf8(bytes@));
            let ghost before = out@;
            match string_from_utf8(bytes) {
                Some(word) => {
                    out.push(word);
                    assert(out@.map_values(|s: String| s@) =~= before.map_values(|s: String| s@).push(word@));
                },
                None => {
                    assert(false);
                },
            }
            assert(out@.map_values(|s: String| s@) =~= view_words(self@).take(j + 1));
            j = j + 1;
        }
        assert(view_words(self@).take(self@.len() as int) =~= view_words(self@));
        out
    }

    /// How many pronunciations the library holds.
    pub fn len(&self) -> (res: usize)
        ensures
            res == self@.len(),
    {
        self.entries.len()
    }

    /// Whether the library holds no pronunciation.
    pub fn is_empty(&self) -> (res: bool)
        ensures
            res == (self@.len() == 0),
    {
        self.entries.len() == 0
    }

    /// Total bytes of audio (reported when packing). For a built library this is the sum of the
    /// audio of its entries.
    pub fn audio_bytes(&self) -> (res: usize)
        ensures
            res == self.spec_blob().len(),
    {
        self.blob.len()
    }
}

impl Default for AudioLibrary {
    fn default() -> (res: Self)
        ensures
            res.wf(),
            res@.len() == 0,
    {
        AudioLibrary::new()
    }
}

/// What a library's own sections give back when they are checked and read again (what a packed
/// file written from a library yields when it is opened): no error, and the same contents.
pub proof fn lemma_sections_reopen(lib: AudioLibrary)
    requires
        lib.wf(),
    ensures
        sections_error(lib.spec_entries(), lib.spec_words(), lib.spec_blob().len()) is None,
        sections_view(lib.spec_words(), lib.spec_entries(), lib.spec_blob()) == lib@,
{
}

/// Of the items given to a build, the first item with a word and audio wins: looking that word
/// up in the built contents gives its source, codec and audio. (A word of 65535 bytes or more
/// is left out: it may be stored cut, where a longer word cut to it would be found first.)
pub proof fn lemma_first_item_wins(items: Seq<Item>, i: int)
    requires
        0 <= i < items.len(),
        0 < key_bytes(items[i].0@).len() < 65535,
        items[i].3@.len() > 0,
        forall|j: int|
            0 <= j < i && key_bytes((#[trigger] items[j]).0@) == key_bytes(items[i].0@) ==> items[j].3@.len() == 0,
    ensures
        lookup(kept(items), key_bytes(items[i].0@)) == Some(
            EntryView {
                word: key_bytes(items[i].0@),
                codec: items[i].2,
                source: items[i].1,
                audio: items[i].3@,
            },
        ),
    decreases items.len(),
{
    let k = key_bytes(items[i].0@);
    let prev_items = items.drop_last();
    if i == items.len() - 1 {
        assert(prev_items =~= items.take(i));
        lemma_kept_from_items(prev_items);
        lemma_kept_keys_from_items(prev_items);
        let wk = word_key(items[i].0@);
        if wk.len() == 0 {
            assert(encode_utf8(wk) =~= Seq::<u8>::empty());
        }
        if kept_keys(prev_items).contains(wk) {
            let m = choose|m: int| 0 <= m < kept_keys(prev_items).len() && kept_keys(prev_items)[m] == wk;
            let j = choose|j: int|
                0 <= j < prev_items.len() && kept_keys(prev_items)[m] == word_key((#[trigger] prev_items[j]).0@)
                    && prev_items[j].3@.len() > 0;
            assert(items[j] == prev_items[j]);
            assert(false);
        }
        if lookup(kept(prev_items), k) is Some {
            lemma_lookup_some(kept(prev_items), k);
            let e = lookup(kept(prev_items), k)->0;
            let m = choose|m: int| 0 <= m < kept(prev_items).len() && kept(prev_items)[m] == e;
            let j = choose|j: int|
                0 <= j < prev_items.len() && kept(prev_items)[m].word == stored_word(
                    key_bytes((#[trigger] prev_items[j]).0@),
                ) && prev_items[j].3@.len() > 0;
            assert(items[j] == prev_items[j]);
            assert(false);
        }
        lemma_lookup_push(
            kept(prev_items),
            EntryView { word: k, codec: items[i].2, source: items[i].1, audio: items[i].3@ },
            k,
        );
    } else {
        assert forall|j: int|
            0 <= j < i && key_bytes((#[trigger] prev_items[j]).0@) == key_bytes(prev_items[i].0@)
                implies prev_items[j].3@.len() == 0 by {
            assert(prev_items[j] == items[j]);
        }
        assert(prev_items[i] == items[i]);
        lemma_first_item_wins(prev_items, i);
        let last = items.last();
        lemma_lookup_push(
            kept(prev_items),
            EntryView {
                word: stored_word(key_bytes(last.0@)),
                codec: last.2,
                source: last.1,
                audio: last.3@,
            },
            k,
        );
    }
}

proof fn lemma_lookup_push(v: Seq<EntryView>, x: EntryView, key: Seq<u8>)
    ensures
        lookup(v.push(x), key) == if lookup(v, key) is Some {
            lookup(v, key)
        } else if x.word == key {
            Some(x)
        } else {
            None::<EntryView>
        },
    decreases v.len(),
{
    let w = v.push(x);
    if v.len() > 0 {
        assert(w[0] == v[0]);
        assert(w.drop_first() =~= v.drop_first().push(x));
        lemma_lookup_push(v.drop_first(), x, key);
        if v[0].word != key {
            assert(lookup(w, key) == lookup(w.drop_first(), key));
            assert(lookup(v, key) == lookup(v.drop_first(), key));
        }
    } else {
        assert(w.drop_first() =~= Seq::<EntryView>::empty());
        assert(lookup(Seq::<EntryView>::empty(), key) is None);
        assert(w[0] == x);
        if x.word != key {
            assert(lookup(w, key) == lookup(w.drop_first(), key));
        }
    }
}

proof fn lemma_lookup_some(v: Seq<EntryView>, key: Seq<u8>)
    ensures
        lookup(v, key) matches Some(e) ==> e.word == key && exists|m: int|
            0 <= m < v.len() && v[m] == e,
    decreases v.len(),
{
    if v.len() > 0 && v[0].word != key {
        lemma_lookup_some(v.drop_first(), key);
        if lookup(v, key) is Some {
            let e = lookup(v, key)->0;
            let m = choose|m: int| 0 <= m < v.drop_first().len() && v.drop_first()[m] == e;
            assert(v[m + 1] == e);
        }
    }
}

proof fn lemma_kept_from_items(items: Seq<Item>)
    ensures
        forall|m: int|
            0 <= m < kept(items).len() ==> exists|j: int|
                0 <= j < items.len() && (#[trigger] kept(items)[m]).word == stored_word(
                    key_bytes((#[trigger] items[j]).0@),
                ) && items[j].3@.len() > 0,
    decreases items.len(),
{
    if items.len() > 0 {
        let prev_items = items.drop_last();
        lemma_kept_from_items(prev_items);
        assert forall|m: int| 0 <= m < kept(items).len() implies exists|j: int|
            0 <= j < items.len() && (#[trigger] kept(items)[m]).word == stored_word(
                key_bytes((#[trigger] items[j]).0@),
            ) && items[j].3@.len() > 0 by {
            if m < kept(prev_items).len() {
                assert(kept(items)[m] == kept(prev_items)[m]);
                let j = choose|j: int|
                    0 <= j < prev_items.len() && kept(prev_items)[m].word == stored_word(
                        key_bytes((#[trigger] prev_items[j]).0@),
                    ) && prev_items[j].3@.len() > 0;
                assert(items[j] == prev_items[j]);
            } else {
                let j = items.len() - 1;
                assert(kept(items)[m].word == stored_word(key_bytes(items[j].0@)));
            }
        }
    }
}

proof fn lemma_kept_keys_from_items(items: Seq<Item>)
    ensures
        forall|m: int|
            0 <= m < kept_keys(items).len() ==> exists|j: int|
                0 <= j < items.len() && #[trigger] kept_keys(items)[m] == word_key((#[trigger] items[j]).0@)
                    && items[j].3@.len() > 0,
    decreases items.len(),
{
    if items.len() > 0 {
        let prev_items = items.drop_last();
        lemma_kept_keys_from_items(prev_items);
        assert forall|m: int| 0 <= m < kept_keys(items).len() implies exists|j: int|
            0 <= j < items.len() && #[trigger] kept_keys(items)[m] == word_key((#[trigger] items[j]).0@)
                && items[j].3@.len() > 0 by {
            if m < kept_keys(prev_items).len() {
                assert(kept_keys(items)[m] == kept_keys(prev_items)[m]);
                let j = choose|j: int|
                    0 <= j < prev_items.len() && kept_keys(prev_items)[m] == word_key((#[trigger] prev_items[j]).0@)
                        && prev_items[j].3@.len() > 0;
                assert(items[j] == prev_items[j]);
            } else {
                let j = items.len() - 1;
                assert(kept_keys(items)[m] == word_key(items[j].0@));
            }
        }
    }
}

proof fn lemma_builds_prefix(items: Seq<Item>, i: int)
    requires
        0 <= i <= items.len(),
        builds(items),
    ensures
        builds(items.take(i)),
    decreases items.len() - i,
{
    if i == items.len() {
        assert(items.take(i) =~= items);
    } else {
        assert(items.drop_last() =~= items.take(items.len() - 1));
        lemma_builds_prefix(items.drop_last(), i);
        assert(items.drop_last().take(i) =~= items.take(i));
    }
}

} // verus!
