use vstd::prelude::*;

use crate::entry::Codec;
use crate::index::{
    apply_lines, char_views, index_body, index_line_string, split_chars, split_on,
    to_map, CachedWord, CachedWordView, INDEX_HEADER, parse_index_line,
};
use crate::order::{chars_lt, lemma_lt_irreflexive, lemma_lt_total, lemma_lt_transitive, seq_lt};
use crate::source::Source;
use crate::text::{
    chars_eq, chars_of, is_space, lowercase_of, single_line, squash, squash_chars, str_eq, string_of, trim, word_key,
    word_key_of,
};

verus! {

/// What a cache holds: its directory, its records listed by word in sorted order, and the words
/// known to be missing upstream.
pub struct CacheView {
    pub dir: Seq<char>,
    pub entries: Seq<(Seq<char>, CachedWordView)>,
    pub missing: Set<Seq<char>>,
}

impl CacheView {
    /// Word (lower case) → record.
    pub open spec fn words(self) -> Map<Seq<char>, CachedWordView> {
        to_map(self.entries)
    }
}

/// The words of `v` are strictly increasing (so no word occurs twice).
pub open spec fn sorted_keys(v: Seq<(Seq<char>, CachedWordView)>) -> bool {
    forall|i: int, j: int| 0 <= i < j < v.len() ==> seq_lt(#[trigger] v[i].0, #[trigger] v[j].0)
}

/// A word in lower case: what `str::to_lowercase` gives for some text.
pub open spec fn lower_case(k: Seq<char>) -> bool {
    exists|s: Seq<char>| #[trigger] lowercase_of(s) == k
}

/// Every word of `v` is in lower case.
pub open spec fn keys_lower(v: Seq<(Seq<char>, CachedWordView)>) -> bool {
    forall|i: int| 0 <= i < v.len() ==> lower_case(#[trigger] v[i].0)
}

/// The views of a list of (word, record) pairs.
pub open spec fn pair_views(s: Seq<(String, CachedWord)>) -> Seq<(Seq<char>, CachedWordView)> {
    s.map_values(|e: (String, CachedWord)| (e.0@, e.1@))
}

/// The record a new download is stored under: `None` when the word's key is empty or there is
/// no audio; otherwise the key, the file `<key>.<extension>`, the credits collapsed onto one
/// line each (Commons author fields often hold line breaks, which would break the index), and
/// the gain.
pub open spec fn spec_new_record(
    word: Seq<char>,
    audio_len: nat,
    extension: Seq<char>,
    license: Seq<char>,
    author: Seq<char>,
    page: Seq<char>,
    gain: i32,
) -> Option<(Seq<char>, CachedWordView)> {
    let key = word_key(word);
    if key.len() == 0 || audio_len == 0 {
        None
    } else {
        Some(
            (
                key,
                CachedWordView {
                    file: key + "."@ + extension,
                    license: squash(license),
                    author: squash(author),
                    page: squash(page),
                    gain,
                },
            ),
        )
    }
}

/// A record made for a download is stored under the trimmed, lower-cased word, and names the
/// file `<word>.<extension>`: the key, then a dot, then the extension it was given.
pub proof fn lemma_new_record_names_a_file(
    word: Seq<char>,
    audio_len: nat,
    extension: Seq<char>,
    license: Seq<char>,
    author: Seq<char>,
    page: Seq<char>,
    gain: i32,
)
    ensures
        spec_new_record(word, audio_len, extension, license, author, page, gain) is Some <==> (word_key(word).len()
            > 0 && audio_len > 0),
        spec_new_record(word, audio_len, extension, license, author, page, gain) matches Some((k, r)) ==> {
            &&& k == word_key(word)
            &&& r.file.len() == k.len() + 1 + extension.len()
            &&& r.file.take(k.len() as int) == k
            &&& r.file[k.len() as int] == '.'
            &&& r.file.skip(k.len() as int + 1) == extension
            &&& r.gain == gain
        },
{
    if let Some((k, r)) = spec_new_record(word, audio_len, extension, license, author, page, gain) {
        reveal_strlit(".");
        assert(r.file =~= k + seq!['.'] + extension);
        assert(r.file.take(k.len() as int) =~= k);
        assert(r.file.skip(k.len() as int + 1) =~= extension);
    }
}

/// The codec a cached file is played with, by extension: `m4a`, `aac` and `mp4` are AAC, all
/// else (`ogg`, `oga`: Vorbis or Opus, both played by the system) counts as Ogg.
pub open spec fn spec_codec_of(extension: Seq<char>) -> Codec {
    if extension == "m4a"@ || extension == "aac"@ || extension == "mp4"@ {
        Codec::AacM4a
    } else {
        Codec::OpusOgg
    }
}

/// The on-demand download cache of pronunciations: a directory and its index.
///
/// The index is kept in memory as records sorted by word; the caller writes the audio files and
/// the index text this type produces.
pub struct AudioCache {
    /// The cache directory.
    dir: String,
    /// (word in lower case, record), sorted by word.
    words: Vec<(String, CachedWord)>,
    /// Words asked for upstream that have no free recording. Only in memory: after a restart
    /// they are asked for once more.
    missing: Vec<String>,
}

impl View for AudioCache {
    type V = CacheView;

    closed spec fn view(&self) -> CacheView {
        CacheView {
            dir: self.dir@,
            entries: pair_views(self.words@),
            missing: self.missing@.map_values(|s: String| s@).to_set(),
        }
    }
}

proof fn lemma_to_map_dom(v: Seq<(Seq<char>, CachedWordView)>)
    ensures
        forall|k: Seq<char>|
            #![trigger to_map(v).dom().contains(k)]
            to_map(v).dom().contains(k) <==> exists|i: int| 0 <= i < v.len() && (#[trigger] v[i]).0 == k,
    decreases v.len(),
{
    if v.len() > 0 {
        let prev = v.drop_last();
        lemma_to_map_dom(prev);
        assert forall|k: Seq<char>| #![trigger to_map(v).dom().contains(k)]
            to_map(v).dom().contains(k) <==> exists|i: int| 0 <= i < v.len() && (#[trigger] v[i]).0 == k by {
            if to_map(v).dom().contains(k) {
                if k == v.last().0 {
                    assert(v[v.len() - 1].0 == k);
                } else {
                    assert(to_map(prev).dom().contains(k));
                    let i = choose|i: int| 0 <= i < prev.len() && (#[trigger] prev[i]).0 == k;
                    assert(v[i] == prev[i]);
                }
            }
            if exists|i: int| 0 <= i < v.len() && (#[trigger] v[i]).0 == k {
                let i = choose|i: int| 0 <= i < v.len() && (#[trigger] v[i]).0 == k;
                if i < v.len() - 1 {
                    assert(prev[i] == v[i]);
                    assert(to_map(prev).dom().contains(k));
                }
            }
        }
    }
}

proof fn lemma_to_map_value(v: Seq<(Seq<char>, CachedWordView)>, i: int)
    requires
        sorted_keys(v),
        0 <= i < v.len(),
    ensures
        to_map(v)[v[i].0] == v[i].1,
    decreases v.len(),
{
    let prev = v.drop_last();
    if i < v.len() - 1 {
        assert(seq_lt(v[i].0, v[v.len() - 1].0));
        lemma_lt_irreflexive(v[i].0);
        assert(sorted_keys(prev)) by {
            assert forall|a: int, b: int| 0 <= a < b < prev.len() implies seq_lt(#[trigger] prev[a].0, #[trigger] prev[b].0) by {
                assert(prev[a] == v[a] && prev[b] == v[b]);
            }
        }
        assert(prev[i] == v[i]);
        lemma_to_map_value(prev, i);
    }
}

/// A map equals the map of a sorted list when they hold the same words with the same records.
proof fn lemma_to_map_is(v: Seq<(Seq<char>, CachedWordView)>, m: Map<Seq<char>, CachedWordView>)
    requires
        sorted_keys(v),
        forall|k: Seq<char>| #![trigger m.dom().contains(k)]
            m.dom().contains(k) <==> exists|i: int| 0 <= i < v.len() && (#[trigger] v[i]).0 == k,
        forall|i: int| 0 <= i < v.len() ==> m[(#[trigger] v[i]).0] == v[i].1,
    ensures
        to_map(v) == m,
{
    lemma_to_map_dom(v);
    assert forall|k: Seq<char>| #![trigger to_map(v).dom().contains(k)] to_map(v).dom().contains(k) implies to_map(v)[k] == m[k] by {
        let i = choose|i: int| 0 <= i < v.len() && (#[trigger] v[i]).0 == k;
        lemma_to_map_value(v, i);
    }
    assert(to_map(v) =~= m);
}

proof fn lemma_sorted_unique(v: Seq<(Seq<char>, CachedWordView)>, i: int, j: int)
    requires
        sorted_keys(v),
        0 <= i < v.len(),
        0 <= j < v.len(),
        v[i].0 == v[j].0,
    ensures
        i == j,
{
    lemma_lt_irreflexive(v[i].0);
    if i < j {
        assert(seq_lt(v[i].0, v[j].0));
    } else if j < i {
        assert(seq_lt(v[j].0, v[i].0));
    }
}


proof fn lemma_to_map_replace(v: Seq<(Seq<char>, CachedWordView)>, p: int, kv: (Seq<char>, CachedWordView))
    requires
        sorted_keys(v),
        0 <= p < v.len(),
        v[p].0 == kv.0,
    ensures
        sorted_keys(v.update(p, kv)),
        to_map(v.update(p, kv)) == to_map(v).insert(kv.0, kv.1),
{
    let w = v.update(p, kv);
    assert(sorted_keys(w)) by {
        assert forall|a: int, b: int| 0 <= a < b < w.len() implies seq_lt(#[trigger] w[a].0, #[trigger] w[b].0) by {
            assert(seq_lt(v[a].0, v[b].0));
        }
    }
    let m = to_map(v).insert(kv.0, kv.1);
    lemma_to_map_dom(v);
    assert forall|x: Seq<char>| #![trigger m.dom().contains(x)]
        m.dom().contains(x) <==> exists|i: int| 0 <= i < w.len() && (#[trigger] w[i]).0 == x by {
        if m.dom().contains(x) && x != kv.0 {
            let i = choose|i: int| 0 <= i < v.len() && (#[trigger] v[i]).0 == x;
            assert(w[i].0 == x);
        }
        if x == kv.0 {
            assert(w[p].0 == x);
        }
        if exists|i: int| 0 <= i < w.len() && (#[trigger] w[i]).0 == x {
            let i = choose|i: int| 0 <= i < w.len() && (#[trigger] w[i]).0 == x;
            if i != p {
                assert(v[i].0 == x);
            }
        }
    }
    assert forall|i: int| 0 <= i < w.len() implies m[(#[trigger] w[i]).0] == w[i].1 by {
        if i != p {
            assert(w[i] == v[i]);
            if v[i].0 == kv.0 {
                lemma_sorted_unique(v, i, p);
            }
            lemma_to_map_value(v, i);
        }
    }
    lemma_to_map_is(w, m);
}

proof fn lemma_to_map_remove(v: Seq<(Seq<char>, CachedWordView)>, p: int)
    requires
        sorted_keys(v),
        0 <= p < v.len(),
    ensures
        sorted_keys(v.remove(p)),
        to_map(v.remove(p)) == to_map(v).remove(v[p].0),
{
    let w = v.remove(p);
    let k = v[p].0;
    assert(sorted_keys(w)) by {
        assert forall|a: int, b: int| 0 <= a < b < w.len() implies seq_lt(#[trigger] w[a].0, #[trigger] w[b].0) by {
            let a2 = if a < p { a } else { a + 1 };
            let b2 = if b < p { b } else { b + 1 };
            assert(w[a] == v[a2] && w[b] == v[b2]);
            assert(seq_lt(v[a2].0, v[b2].0));
        }
    }
    let m = to_map(v).remove(k);
    lemma_to_map_dom(v);
    assert forall|x: Seq<char>| #![trigger m.dom().contains(x)]
        m.dom().contains(x) <==> exists|i: int| 0 <= i < w.len() && (#[trigger] w[i]).0 == x by {
        if m.dom().contains(x) {
            let i = choose|i: int| 0 <= i < v.len() && (#[trigger] v[i]).0 == x;
            assert(i != p);
            if i < p {
                assert(w[i].0 == x);
            } else {
                assert(w[i - 1].0 == x);
            }
        }
        if exists|i: int| 0 <= i < w.len() && (#[trigger] w[i]).0 == x {
            let i = choose|i: int| 0 <= i < w.len() && (#[trigger] w[i]).0 == x;
            let i2 = if i < p { i } else { i + 1 };
            assert(v[i2].0 == x);
            if x == k {
                lemma_sorted_unique(v, i2, p);
            }
            assert(to_map(v).dom().contains(x));
        }
    }
    assert forall|i: int| 0 <= i < w.len() implies m[(#[trigger] w[i]).0] == w[i].1 by {
        let i2 = if i < p { i } else { i + 1 };
        assert(w[i] == v[i2]);
        if v[i2].0 == k {
            lemma_sorted_unique(v, i2, p);
        }
        lemma_to_map_value(v, i2);
    }
    lemma_to_map_is(w, m);
}

/// The record `r` with its gain set to `gain`.
pub open spec fn with_gain(r: CachedWordView, gain: i32) -> CachedWordView {
    CachedWordView { file: r.file, license: r.license, author: r.author, page: r.page, gain }
}

/// Whether the character sequence `s` has no tab and no line break.
pub open spec fn no_breaks(s: Seq<char>) -> bool {
    !s.contains('\t') && !s.contains('\n')
}

proof fn lemma_single_line_no_breaks(s: Seq<char>)
    requires
        single_line(s),
    ensures
        no_breaks(s),
{
    if s.contains('\t') {
        let k = choose|k: int| 0 <= k < s.len() && s[k] == '\t';
        assert(is_space(s[k]));
    }
    if s.contains('\n') {
        let k = choose|k: int| 0 <= k < s.len() && s[k] == '\n';
        assert(is_space(s[k]));
    }
}

/// A credit field made safe for the index: every whitespace run (tabs and line breaks among
/// them, which would break the tab-separated lines) becomes one space, the ends are trimmed.
pub fn sanitize(text: &str) -> (res: String)
    ensures
        res@ == squash(text@),
        single_line(res@),
{
    string_of(&squash_chars(&chars_of(text)))
}

impl AudioCache {
    /// The records are sorted by word, and every word is in lower case.
    pub open spec fn wf(&self) -> bool {
        sorted_keys(self@.entries) && keys_lower(self@.entries)
    }

    /// An empty cache for the directory `dir` (the caller creates the directory and reads the
    /// index into it with [`AudioCache::parse_index`]).
    pub fn new(dir: String) -> (res: Self)
        ensures
            res.wf(),
            res@.dir == dir@,
            res@.entries.len() == 0,
            res@.missing.is_empty(),
    {
        let res = AudioCache { dir, words: Vec::new(), missing: Vec::new() };
        assert(res@.missing =~= Set::<Seq<char>>::empty());
        res
    }

    /// The index of the record of `key`, if any.
    fn position_of(&self, key: &Vec<char>) -> (res: Option<usize>)
        requires
            self.wf(),
        ensures
            match res {
                Some(p) => p < self@.entries.len() && self@.entries[p as int].0 == key@,
                None => forall|i: int| 0 <= i < self@.entries.len() ==> (#[trigger] self@.entries[i]).0 != key@,
            },
    {
        let mut p: usize = 0;
        while p < self.words.len()
            invariant
                p <= self@.entries.len(),
                self@.entries.len() == self.words@.len(),
                pair_views(self.words@) == self@.entries,
                forall|i: int| 0 <= i < p ==> (#[trigger] self@.entries[i]).0 != key@,
            decreases self@.entries.len() - p,
        {
            let word = chars_of(self.words[p].0.as_str());
            if chars_eq(&word, key) {
                return Some(p);
            }
            p = p + 1;
        }
        None
    }

    /// The record of a word (looked up trimmed and in lower case), if cached. Whether its audio
    /// file is still on disk is for the caller to check.
    pub fn get(&self, word: &str) -> (res: Option<&CachedWord>)
        requires
            self.wf(),
        ensures
            match res {
                Some(r) => self@.words().dom().contains(word_key(word@)) && self@.words()[word_key(word@)] == r@,
                None => !self@.words().dom().contains(word_key(word@)),
            },
    {
        let key = chars_of(word_key_of(word).as_str());
        proof {
            lemma_to_map_dom(self@.entries);
        }
        match self.position_of(&key) {
            Some(p) => {
                proof {
                    lemma_to_map_value(self@.entries, p as int);
                }
                Some(&self.words[p].1)
            },
            None => None,
        }
    }

    /// The word was asked for upstream and has no free recording.
    pub fn is_known_missing(&self, word: &str) -> (res: bool)
        ensures
            res == self@.missing.contains(word_key(word@)),
    {
        let key = word_key_of(word);
        self.missing_index(key.as_str()).is_some()
    }

    fn missing_index(&self, key: &str) -> (res: Option<usize>)
        ensures
            res is Some <==> self@.missing.contains(key@),
    {
        let mut i: usize = 0;
        while i < self.missing.len()
            invariant
                i <= self.missing@.len(),
                forall|k: int| 0 <= k < i ==> (#[trigger] self.missing@[k])@ != key@,
            decreases self.missing@.len() - i,
        {
            if str_eq(self.missing[i].as_str(), key) {
                assert(self.missing@.map_values(|s: String| s@)[i as int] == key@);
                return Some(i);
            }
            i = i + 1;
        }
        proof {
            if self@.missing.contains(key@) {
                let mv = self.missing@.map_values(|s: String| s@);
                let k = choose|k: int| 0 <= k < mv.len() && #[trigger] mv[k] == key@;
                assert(self.missing@[k]@ == key@);
            }
        }
        None
    }

    /// Remembers that upstream has no recording of the word, so it is not asked for again.
    pub fn note_missing(&mut self, word: &str)
        ensures
            final(self)@.missing == old(self)@.missing.insert(word_key(word@)),
            final(self)@.entries == old(self)@.entries,
            final(self)@.dir == old(self)@.dir,
    {
        let key = word_key_of(word);
        if self.missing_index(key.as_str()).is_none() {
            let ghost before = self.missing@.map_values(|s: String| s@);
            self.missing.push(key);
            let ghost after = self.missing@.map_values(|s: String| s@);
            assert(after =~= before.push(word_key(word@)));
            assert forall|x: Seq<char>| #[trigger] after.contains(x) <==> before.contains(x) || x == word_key(word@) by {
                if after.contains(x) {
                    let i = choose|i: int| 0 <= i < after.len() && after[i] == x;
                    if i < before.len() {
                        assert(before[i] == x);
                    }
                }
                if before.contains(x) {
                    let i = choose|i: int| 0 <= i < before.len() && before[i] == x;
                    assert(after[i] == x);
                }
                if x == word_key(word@) {
                    assert(after[before.len() as int] == x);
                }
            }
            assert(self@.missing =~= old(self)@.missing.insert(word_key(word@)));
        } else {
            assert(key@ == word_key(word@));
            assert(self@.missing.contains(word_key(word@)));
            assert(self@.missing =~= old(self)@.missing.insert(word_key(word@)));
        }
    }

    /// The record a freshly downloaded recording is stored under (see [`spec_new_record`]):
    /// `credit` is (licence, author, source page), all three needed for CC-BY attribution.
    pub fn new_record(
        word: &str,
        audio_len: usize,
        extension: &str,
        credit: (&str, &str, &str),
        gain_centi_db: i32,
    ) -> (res: Option<(String, CachedWord)>)
        ensures
            match res {
                Some((k, r)) => {
                    &&& spec_new_record(word@, audio_len as nat, extension@, credit.0@, credit.1@, credit.2@, gain_centi_db) == Some((k@, r@))
                    &&& no_breaks(r.license@) && no_breaks(r.author@) && no_breaks(r.page@)
                },
                None => spec_new_record(word@, audio_len as nat, extension@, credit.0@, credit.1@, credit.2@, gain_centi_db) is None,
            },
    {
        let key = word_key_of(word);
        if key.as_str().is_empty() || audio_len == 0 {
            return None;
        }
        let (license, author, page) = credit;
        let file = key.as_str().to_owned().concat(".").concat(extension);
        let license = sanitize(license);
        let author = sanitize(author);
        let page = sanitize(page);
        proof {
            lemma_single_line_no_breaks(license@);
            lemma_single_line_no_breaks(author@);
            lemma_single_line_no_breaks(page@);
        }
        let record = CachedWord { file, license, author, page, gain_centi_db };
        Some((key, record))
    }

    /// Stores `record` under the word (trimmed, in lower case), replacing the record it had.
    pub fn insert(&mut self, word: &str, record: CachedWord)
        requires
            old(self).wf(),
        ensures
            final(self).wf(),
            final(self)@.words() == old(self)@.words().insert(word_key(word@), record@),
            final(self)@.missing == old(self)@.missing,
            final(self)@.dir == old(self)@.dir,
    {
        let key = word_key_of(word);
        assert(lowercase_of(trim(word@)) == key@);
        self.insert_key(key, record);
    }

    /// Stores `record` under the lower-case word `key`, replacing the record the key had.
    fn insert_key(&mut self, key: String, record: CachedWord)
        requires
            old(self).wf(),
            lower_case(key@),
        ensures
            final(self).wf(),
            final(self)@.words() == old(self)@.words().insert(key@, record@),
            final(self)@.missing == old(self)@.missing,
            final(self)@.dir == old(self)@.dir,
    {
        let k = chars_of(key.as_str());
        let ghost v = self@.entries;
        let mut p: usize = 0;
        while p < self.words.len() && chars_lt(&chars_of(self.words[p].0.as_str()), &k)
            invariant
                p <= v.len(),
                v.len() == self.words@.len(),
                pair_views(self.words@) == v,
                forall|i: int| 0 <= i < p ==> seq_lt((#[trigger] v[i]).0, k@),
            decreases v.len() - p,
        {
            p = p + 1;
        }
        let ghost kv = (k@, record@);
        if p < self.words.len() && chars_eq(&chars_of(self.words[p].0.as_str()), &k) {
            // same word: replace the record
            self.words.set(p, (key, record));
            proof {
                lemma_to_map_replace(v, p as int, kv);
            }
            assert(self@.entries =~= v.update(p as int, kv));
            assert forall|i: int| 0 <= i < self@.entries.len() implies lower_case(#[trigger] self@.entries[i].0) by {
                if i != p {
                    assert(self@.entries[i] == v[i]);
                }
            }
        } else {
            // a new word: insert it where it keeps the order
            self.words.insert(p, (key, record));
            let ghost w = v.insert(p as int, kv);
            assert(self@.entries =~= w);
            proof {
                assert forall|i: int| 0 <= i < w.len() implies lower_case(#[trigger] w[i].0) by {
                    if i < p {
                        assert(w[i] == v[i]);
                    } else if i > p {
                        assert(w[i] == v[i - 1]);
                    }
                }
                assert forall|j: int| p <= j < v.len() implies seq_lt(k@, #[trigger] v[j].0) by {
                    lemma_lt_total(v[p as int].0, k@);
                    if j > p {
                        assert(seq_lt(v[p as int].0, v[j].0));
                        if seq_lt(k@, v[p as int].0) {
                            lemma_lt_transitive(k@, v[p as int].0, v[j].0);
                        }
                    }
                }
                assert(sorted_keys(w)) by {
                    assert forall|a: int, b: int| 0 <= a < b < w.len() implies seq_lt(#[trigger] w[a].0, #[trigger] w[b].0) by {
                        if b < p {
                            assert(w[a] == v[a] && w[b] == v[b]);
                        } else if b == p {
                            assert(w[a] == v[a]);
                        } else if a < p {
                            assert(w[a] == v[a] && w[b] == v[b - 1]);
                            assert(seq_lt(v[a].0, v[b - 1].0));
                        } else if a == p {
                            assert(w[b] == v[b - 1]);
                        } else {
                            assert(w[a] == v[a - 1] && w[b] == v[b - 1]);
                        }
                    }
                }
                let m = to_map(v).insert(k@, record@);
                lemma_to_map_dom(v);
                assert forall|i: int| 0 <= i < v.len() implies (#[trigger] v[i]).0 != k@ by {
                    lemma_lt_irreflexive(k@);
                    if i >= p {
                        lemma_lt_irreflexive(v[i].0);
                    }
                }
                assert forall|x: Seq<char>| #![trigger m.dom().contains(x)]
                    m.dom().contains(x) <==> exists|i: int| 0 <= i < w.len() && (#[trigger] w[i]).0 == x by {
                    if m.dom().contains(x) && x != k@ {
                        let i = choose|i: int| 0 <= i < v.len() && (#[trigger] v[i]).0 == x;
                        if i < p {
                            assert(w[i].0 == x);
                        } else {
                            assert(w[i + 1].0 == x);
                        }
                    }
                    if x == k@ {
                        assert(w[p as int].0 == x);
                    }
                    if exists|i: int| 0 <= i < w.len() && (#[trigger] w[i]).0 == x {
                        let i = choose|i: int| 0 <= i < w.len() && (#[trigger] w[i]).0 == x;
                        if i < p {
                            assert(v[i].0 == x);
                        } else if i > p {
                            assert(v[i - 1].0 == x);
                        }
                    }
                }
                assert forall|i: int| 0 <= i < w.len() implies m[(#[trigger] w[i]).0] == w[i].1 by {
                    if i < p {
                        assert(w[i] == v[i]);
                        lemma_to_map_value(v, i);
                    } else if i > p {
                        assert(w[i] == v[i - 1]);
                        lemma_to_map_value(v, i - 1);
                    }
                }
                lemma_to_map_is(w, m);
            }
        }
        assert(self@.missing == old(self)@.missing);
    }

    /// Sets the gain of a cached word. A fresh download is stored with gain 0 and written back
    /// once its level has been measured. Returns whether the word was cached (only then must the
    /// caller rewrite the index).
    pub fn set_gain(&mut self, word: &str, gain_centi_db: i32) -> (res: bool)
        requires
            old(self).wf(),
        ensures
            final(self).wf(),
            res == old(self)@.words().dom().contains(word_key(word@)),
            res ==> final(self)@.words() == old(self)@.words().insert(
                word_key(word@),
                with_gain(old(self)@.words()[word_key(word@)], gain_centi_db),
            ),
            !res ==> final(self)@.words() == old(self)@.words(),
            final(self)@.missing == old(self)@.missing,
            final(self)@.dir == old(self)@.dir,
    {
        let key = chars_of(word_key_of(word).as_str());
        proof {
            lemma_to_map_dom(self@.entries);
        }
        match self.position_of(&key) {
            Some(p) => {
                let ghost v = self@.entries;
                proof {
                    lemma_to_map_value(v, p as int);
                }
                let (w, mut record) = self.words.remove(p);
                record.gain_centi_db = gain_centi_db;
                let ghost kv = (w@, record@);
                self.words.insert(p, (w, record));
                proof {
                    lemma_to_map_replace(v, p as int, kv);
                }
                assert(self@.entries =~= v.update(p as int, kv));
                assert forall|i: int| 0 <= i < self@.entries.len() implies lower_case(#[trigger] self@.entries[i].0) by {
                    assert(self@.entries[i].0 == v[i].0);
                }
                assert(self@.missing == old(self)@.missing);
                true
            },
            None => false,
        }
    }

    /// Forgets a word (when its downloaded audio yields no samples): returns its record so the
    /// caller deletes the file and rewrites the index, `None` when the word was not cached.
    pub fn forget(&mut self, word: &str) -> (res: Option<CachedWord>)
        requires
            old(self).wf(),
        ensures
            final(self).wf(),
            final(self)@.words() == old(self)@.words().remove(word_key(word@)),
            match res {
                Some(r) => old(self)@.words().dom().contains(word_key(word@)) && old(self)@.words()[word_key(word@)] == r@,
                None => !old(self)@.words().dom().contains(word_key(word@)),
            },
            final(self)@.missing == old(self)@.missing,
            final(self)@.dir == old(self)@.dir,
    {
        let key = chars_of(word_key_of(word).as_str());
        proof {
            lemma_to_map_dom(self@.entries);
        }
        match self.position_of(&key) {
            Some(p) => {
                let ghost v = self@.entries;
                proof {
                    lemma_to_map_value(v, p as int);
                    lemma_to_map_remove(v, p as int);
                }
                let (_, record) = self.words.remove(p);
                assert(self@.entries =~= v.remove(p as int));
                assert forall|i: int| 0 <= i < self@.entries.len() implies lower_case(#[trigger] self@.entries[i].0) by {
                    if i < p {
                        assert(self@.entries[i] == v[i]);
                    } else {
                        assert(self@.entries[i] == v[i + 1]);
                    }
                }
                assert(self@.missing == old(self)@.missing);
                Some(record)
            },
            None => {
                assert(old(self)@.words().remove(word_key(word@)) =~= old(self)@.words());
                None
            },
        }
    }

    /// Reads index text into the cache: lines in order, each well-formed line storing its record
    /// (a later line for a word replaces an earlier one); malformed lines are skipped, the cache
    /// holds nothing important enough to fail over one bad line.
    pub fn parse_index(&mut self, text: &str)
        requires
            old(self).wf(),
        ensures
            final(self).wf(),
            final(self)@.words() == apply_lines(old(self)@.words(), split_on(text@, '\n')),
            final(self)@.missing == old(self)@.missing,
            final(self)@.dir == old(self)@.dir,
    {
        let chars = chars_of(text);
        let lines = split_chars(&chars, '\n');
        let ghost m0 = self@.words();
        let ghost all = char_views(lines@);
        let mut i: usize = 0;
        while i < lines.len()
            invariant
                self.wf(),
                i <= lines@.len(),
                all == char_views(lines@),
                all == split_on(text@, '\n'),
                self@.words() == apply_lines(m0, all.take(i as int)),
                self@.missing == old(self)@.missing,
                self@.dir == old(self)@.dir,
            decreases lines@.len() - i,
        {
            let ghost t = all.take(i + 1);
            assert(t.drop_last() =~= all.take(i as int));
            assert(t.last() == lines@[i as int]@);
            match parse_index_line(&lines[i]) {
                Some((k, r)) => {
                    assert(lowercase_of(split_on(trim(lines@[i as int]@), '\t')[0]) == k@);
                    self.insert_key(k, r);
                },
                None => {},
            }
            i = i + 1;
        }
        assert(all.take(all.len() as int) =~= all);
    }

    /// The whole index text: the header, then one line per word in word order, each line ended
    /// by a line break. Written whole (to a temporary file renamed over the index) when a gain
    /// changes or a word is forgotten.
    pub fn index_text(&self) -> (res: String)
        ensures
            res@ == crate::index::index_text(self@.entries),
    {
        let mut out = INDEX_HEADER.to_owned();
        proof {
            reveal_strlit("# 词\t文件\t许可证\t作者\t来源页\t增益(dB)");
        }
        let mut i: usize = 0;
        while i < self.words.len()
            invariant
                i <= self@.entries.len(),
                self@.entries.len() == self.words@.len(),
                pair_views(self.words@) == self@.entries,
                out@ == index_body(self@.entries.take(i as int)),
            decreases self@.entries.len() - i,
        {
            let line = index_line_string(self.words[i].0.as_str(), &self.words[i].1);
            out = out.concat("\n").concat(line.as_str());
            proof {
                reveal_strlit("\n");
                let t = self@.entries.take(i + 1);
                assert(t.drop_last() =~= self@.entries.take(i as int));
                assert(t.last() == self@.entries[i as int]);
            }
            assert(out@ =~= index_body(self@.entries.take(i + 1)));
            i = i + 1;
        }
        assert(self@.entries.take(self@.entries.len() as int) =~= self@.entries);
        proof {
            reveal_strlit("\n");
        }
        let res = out.concat("\n");
        assert(res@ =~= index_body(self@.entries).push('\n'));
        res
    }

    /// All records, by word in sorted order (for the credits list and the preferences).
    pub fn entries(&self) -> (res: &[(String, CachedWord)])
        ensures
            pair_views(res@) == self@.entries,
    {
        self.words.as_slice()
    }

    /// How many words are cached.
    pub fn len(&self) -> (res: usize)
        ensures
            res == self@.entries.len(),
    {
        self.words.len()
    }

    pub fn is_empty(&self) -> (res: bool)
        ensures
            res == (self@.entries.len() == 0),
    {
        self.words.len() == 0
    }

    /// The cache directory.
    pub fn dir(&self) -> (res: &str)
        ensures
            res@ == self@.dir,
    {
        self.dir.as_str()
    }

    /// Empties the cache: no records, no words known missing; the directory stays (the caller
    /// deletes the audio files and the index).
    pub fn clear(&mut self)
        ensures
            final(self).wf(),
            final(self)@.entries.len() == 0,
            final(self)@.missing.is_empty(),
            final(self)@.dir == old(self)@.dir,
    {
        self.words = Vec::new();
        self.missing = Vec::new();
        assert(self@.missing =~= Set::<Seq<char>>::empty());
    }

    /// Every cached word is a human recording: only Wikimedia Commons is downloaded from,
    /// synthetic voices never enter the cache.
    pub fn source() -> (res: Source)
        ensures
            res == Source::Human,
    {
        Source::Human
    }

    /// The codec of a cached file by its extension (see [`spec_codec_of`]).
    pub fn codec_of(extension: &str) -> (res: Codec)
        ensures
            res == spec_codec_of(extension@),
    {
        if str_eq(extension, "m4a") || str_eq(extension, "aac") || str_eq(extension, "mp4") {
            Codec::AacM4a
        } else {
            Codec::OpusOgg
        }
    }

}

} // verus!
