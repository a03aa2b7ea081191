//! Which word to read aloud when the highlight rests, and what to do next.
//!
//! English candidates are read as themselves; other candidates through their first English
//! gloss, and only while the learning language is English (the recordings are English); notices
//! that borrow the cloud candidate row ("翻译中…") are not words. A word missing locally is
//! requested from Wikimedia once; in private input (password fields) nothing is read and nothing
//! is requested.

use vstd::prelude::*;

use crate::fetch::FoundAudio;
use crate::index::{nat_text, push_nat_text};
use crate::pack::{credit_row, push_credit_row, push_str_chars};
use crate::speaker::Speaker;
use crate::text::{ascii_lower, chars_of, string_of, trim, trim_chars, word_key};

verus! {

/// The kind of a candidate, as far as reading it aloud is concerned.
#[derive(Debug, Clone, Copy, PartialEq, Eq, Structural)]
pub enum CandidateKind {
    /// A Chinese word.
    Chinese,
    /// An English word.
    English,
    /// A cloud candidate (its row also shows notices).
    Cloud,
}

/// A learning language: the language of the glosses shown beside candidates.
#[derive(Debug, Clone, Copy, PartialEq, Eq, Structural)]
pub enum Language {
    English,
    Japanese,
    Spanish,
}

/// What reading a candidate needs to know of it.
#[derive(Debug, Clone)]
pub struct Candidate {
    /// The candidate text.
    pub text: String,
    pub kind: CandidateKind,
    /// The text of the first sense of its gloss, if it has a gloss with a sense.
    pub gloss: Option<String>,
}

/// The word to read for a candidate: an English candidate itself; for a notice in the cloud
/// row nothing; otherwise the first gloss, only when the learning language is English.
pub open spec fn spec_word_to_speak(
    kind: CandidateKind,
    text: Seq<char>,
    gloss: Option<Seq<char>>,
    learning_language: Option<Language>,
    placeholder: bool,
) -> Option<Seq<char>> {
    match kind {
        CandidateKind::English => Some(text),
        CandidateKind::Cloud if placeholder => None,
        _ => if learning_language != Some(Language::English) {
            None
        } else {
            gloss
        },
    }
}

/// Which word is read for a candidate: an English candidate is read as itself whatever the
/// learning language; any other candidate is read only through its gloss, and only when the
/// learning language is English (the recordings are English); a notice in the cloud row is
/// never read.
pub proof fn lemma_words_read_for_candidates(
    kind: CandidateKind,
    text: Seq<char>,
    gloss: Option<Seq<char>>,
    learning_language: Option<Language>,
    placeholder: bool,
)
    ensures
        kind == CandidateKind::English ==> spec_word_to_speak(kind, text, gloss, learning_language, placeholder)
            == Some(text),
        kind != CandidateKind::English && learning_language != Some(Language::English) ==> spec_word_to_speak(
            kind,
            text,
            gloss,
            learning_language,
            placeholder,
        ) is None,
        kind == CandidateKind::Cloud && placeholder ==> spec_word_to_speak(kind, text, gloss, learning_language, placeholder)
            is None,
        kind != CandidateKind::English && learning_language == Some(Language::English) && !(kind
            == CandidateKind::Cloud && placeholder) ==> spec_word_to_speak(kind, text, gloss, learning_language, placeholder)
            == gloss,
{
}

/// The view of an optional string.
pub open spec fn opt_view(s: Option<String>) -> Option<Seq<char>> {
    match s {
        Some(s) => Some(s@),
        None => None,
    }
}

/// The English word to read for this candidate, `None` when there is nothing to read.
/// `placeholder` says the candidate window shows a notice rather than candidates.
pub fn word_to_speak(
    candidate: &Candidate,
    learning_language: Option<Language>,
    placeholder: bool,
) -> (res: Option<String>)
    ensures
        opt_view(res) == spec_word_to_speak(
            candidate.kind,
            candidate.text@,
            opt_view(candidate.gloss),
            learning_language,
            placeholder,
        ),
{
    match candidate.kind {
        CandidateKind::English => Some(candidate.text.clone()),
        CandidateKind::Cloud if placeholder => None,
        _ => {
            // the recordings are English: a gloss in another language must not be read
            let english = match learning_language {
                Some(Language::English) => true,
                _ => false,
            };
            if !english {
                return None;
            }
            match &candidate.gloss {
                Some(gloss) => Some(gloss.clone()),
                None => None,
            }
        },
    }
}

/// Equal when ASCII case is ignored (`str::eq_ignore_ascii_case`).
pub open spec fn eq_ignore_ascii_case(a: Seq<char>, b: Seq<char>) -> bool {
    a.len() == b.len() && forall|i: int| 0 <= i < a.len() ==> ascii_lower(#[trigger] a[i]) == ascii_lower(b[i])
}

fn lower_char(c: char) -> (res: char)
    ensures
        res == ascii_lower(c),
{
    if 'A' <= c && c <= 'Z' {
        ((c as u8) + 32) as char
    } else {
        c
    }
}

/// Whether the two strings are equal when ASCII case is ignored.
pub fn str_eq_ignore_ascii_case(a: &str, b: &str) -> (res: bool)
    ensures
        res == eq_ignore_ascii_case(a@, b@),
{
    let x = chars_of(a);
    let y = chars_of(b);
    if x.len() != y.len() {
        return false;
    }
    let mut i: usize = 0;
    while i < x.len()
        invariant
            x@ == a@,
            y@ == b@,
            x@.len() == y@.len(),
            i <= x@.len(),
            forall|k: int| 0 <= k < i ==> ascii_lower(#[trigger] x@[k]) == ascii_lower(y@[k]),
        decreases x@.len() - i,
    {
        if lower_char(x[i]) != lower_char(y[i]) {
            return false;
        }
        i = i + 1;
    }
    true
}

/// Whether the reading-aloud switch of the preferences is enabled: the recordings are English,
/// so only when the configured learning language is `en` (any case, surrounding whitespace
/// ignored).
pub fn speak_switch_enabled(learning_language: &str) -> (res: bool)
    ensures
        res == eq_ignore_ascii_case(trim(learning_language@), "en"@),
{
    let t = string_of(&trim_chars(&chars_of(learning_language)));
    str_eq_ignore_ascii_case(t.as_str(), "en")
}

/// The first step of reading the highlighted word when the highlight has rested.
#[derive(Debug, Clone, PartialEq, Eq)]
pub enum SpeakStep {
    /// Reading aloud is switched off.
    Off,
    /// Private input: stop any playback, read and request nothing.
    Stop,
    /// Nothing to read (no word, or the word was just handled).
    Idle,
    /// Read this word from local audio if there is some.
    Local(String),
}

/// What a [`SpeakStep`] says, with the word as its characters.
pub enum SpeakStepView {
    Off,
    Stop,
    Idle,
    Local(Seq<char>),
}

/// The view of a [`SpeakStep`].
pub open spec fn step_view(step: SpeakStep) -> SpeakStepView {
    match step {
        SpeakStep::Off => SpeakStepView::Off,
        SpeakStep::Stop => SpeakStepView::Stop,
        SpeakStep::Idle => SpeakStepView::Idle,
        SpeakStep::Local(w) => SpeakStepView::Local(w@),
    }
}

/// The first step when the highlight has rested on `word`: nothing when reading aloud is off;
/// stop for private input; idle without a word or for the word handled last (`last`, trimmed
/// and lower-cased); otherwise read the word from local audio.
pub open spec fn spec_speak_step(
    speak_candidate: bool,
    private: bool,
    last: Option<Seq<char>>,
    word: Option<Seq<char>>,
) -> SpeakStepView {
    if !speak_candidate {
        SpeakStepView::Off
    } else if private {
        SpeakStepView::Stop
    } else {
        match word {
            None => SpeakStepView::Idle,
            Some(w) => if last == Some(word_key(w)) {
                SpeakStepView::Idle
            } else {
                SpeakStepView::Local(w)
            },
        }
    }
}

/// A word is read or requested at most once while the highlight rests on it: once a rest left
/// the word as the one handled last (it was played, or requested upstream), the next rest on
/// the same word reads nothing and requests nothing.
pub proof fn lemma_handled_word_is_not_read_again(speak_candidate: bool, private: bool, w: Seq<char>)
    ensures
        !(spec_speak_step(speak_candidate, private, Some(word_key(w)), Some(w)) is Local),
{
}

/// What a poll for download results asks of the caller.
#[derive(Debug, Clone)]
pub enum PollStep {
    /// Stop polling (no downloader, or waited too long).
    StopPolling,
    /// Keep polling.
    Wait,
    /// Store the download; play it when `speak_now` (the user still looks at that word and
    /// input is not private).
    Store {
        word: String,
        found: FoundAudio,
        speak_now: bool,
    },
    /// Upstream has no recording of the word; it was noted as missing. Stop polling.
    Missing,
}

/// What the host knows of reading words aloud: whether it is switched on, and the speaker's
/// state.
pub struct Host {
    speak_candidate: bool,
    speaker: Speaker,
}

impl Host {
    /// The speaker is well formed.
    pub open spec fn wf(&self) -> bool {
        self.spec_speaker().wf()
    }

    /// Whether reading aloud is switched on.
    pub closed spec fn spec_speak_candidate(&self) -> bool {
        self.speak_candidate
    }

    /// The speaker's state.
    pub closed spec fn spec_speaker(&self) -> Speaker {
        self.speaker
    }

    pub fn new(speak_candidate: bool, speaker: Speaker) -> (res: Self)
        ensures
            res.spec_speak_candidate() == speak_candidate,
            res.spec_speaker() == speaker,
    {
        Host { speak_candidate, speaker }
    }

    /// Switches reading aloud on or off.
    pub fn set_speak_candidate(&mut self, on: bool)
        ensures
            final(self).spec_speak_candidate() == on,
            final(self).spec_speaker() == old(self).spec_speaker(),
    {
        self.speak_candidate = on;
    }

    /// The speaker.
    pub fn speaker(&self) -> (res: &Speaker)
        ensures
            *res == self.spec_speaker(),
    {
        &self.speaker
    }

    /// The speaker, to store downloads and play local audio.
    pub fn speaker_mut(&mut self) -> (res: &mut Speaker)
        ensures
            *res == old(self).spec_speaker(),
            final(self).spec_speaker() == *final(res),
            final(self).spec_speak_candidate() == old(self).spec_speak_candidate(),
    {
        &mut self.speaker
    }

    /// The highlight moved (new candidates, arrow keys, paging): whether to restart the debounce
    /// timer — only when reading aloud is on.
    pub fn schedule_speech(&self) -> (res: bool)
        ensures
            res == self.spec_speak_candidate(),
    {
        self.speak_candidate
    }

    /// The debounce timer fired (the caller cancels it first): what to do with the highlighted
    /// `word` (`None` when the highlight shows nothing to read).
    pub fn speak_highlighted(&self, private: bool, word: Option<String>) -> (res: SpeakStep)
        ensures
            step_view(res) == spec_speak_step(self.spec_speak_candidate(), private, self.spec_speaker()@.last, opt_view(word)),
    {
        if !self.speak_candidate {
            return SpeakStep::Off;
        }
        // password fields: no sound, and above all no request
        if private {
            return SpeakStep::Stop;
        }
        match word {
            None => SpeakStep::Idle,
            Some(word) => {
                if self.speaker.is_repeat(word.as_str()) {
                    SpeakStep::Idle
                } else {
                    SpeakStep::Local(word)
                }
            },
        }
    }

    /// After trying local audio for `word`: whether to request it from upstream. Not when it
    /// was played, is known to be missing upstream, or there is no downloader; a request marks
    /// the word as handled so that the timer firing again does not request it twice.
    pub fn after_local(&mut self, word: &str, played: bool, can_download: bool) -> (res: bool)
        ensures
            res == (!played && !(old(self).spec_speaker()@.cache matches Some(c) && c.missing.contains(
                word_key(word@),
            )) && can_download),
            res ==> final(self).spec_speaker()@.last == Some(word_key(word@)),
            !res ==> final(self).spec_speaker() == old(self).spec_speaker(),
            final(self).spec_speaker()@.cache == old(self).spec_speaker()@.cache,
            final(self).spec_speaker()@.library == old(self).spec_speaker()@.library,
            final(self).spec_speaker().wf() == old(self).spec_speaker().wf(),
            final(self).spec_speak_candidate() == old(self).spec_speak_candidate(),
    {
        if played {
            return false;
        }
        // asked before and upstream has nothing: do not ask again
        if self.speaker.is_known_missing(word) {
            return false;
        }
        if !can_download {
            return false;
        }
        self.speaker.note_requested(word);
        true
    }

    /// A poll for download results. `fetched` is the result that came in, if any: a word and
    /// what was found (`None`: upstream has no recording). `highlighted` is the word the user
    /// looks at now.
    pub fn poll_pronunciation(
        &mut self,
        has_downloader: bool,
        fetched: Option<(String, Option<FoundAudio>)>,
        expired: bool,
        highlighted: Option<String>,
        private: bool,
    ) -> (res: PollStep)
        requires
            old(self).wf(),
        ensures
            final(self).wf(),
            final(self).spec_speak_candidate() == old(self).spec_speak_candidate(),
            !has_downloader ==> res is StopPolling && final(self).spec_speaker() == old(self).spec_speaker(),
            has_downloader && fetched is None ==> final(self).spec_speaker() == old(self).spec_speaker()
                && (if expired { res is StopPolling } else { res is Wait }),
            match fetched {
                Some((w, f)) => has_downloader ==> match f {
                    Some(found) => {
                        &&& final(self).spec_speaker() == old(self).spec_speaker()
                        &&& res matches PollStep::Store { word, found: g, speak_now }
                        &&& word@ == w@
                        &&& g == found
                        &&& speak_now == (!private && match highlighted {
                            Some(h) => eq_ignore_ascii_case(h@, w@),
                            None => false,
                        })
                    },
                    None => {
                        &&& res is Missing
                        &&& final(self).spec_speaker()@.last == Some(word_key(w@))
                        &&& final(self).spec_speaker()@.library == old(self).spec_speaker()@.library
                        &&& match old(self).spec_speaker()@.cache {
                            Some(c) => final(self).spec_speaker()@.cache matches Some(d)
                                && d.missing == c.missing.insert(word_key(w@)) && d.entries == c.entries
                                && d.dir == c.dir,
                            None => final(self).spec_speaker()@.cache is None,
                        }
                    },
                },
                None => true,
            },
    {
        if !has_downloader {
            return PollStep::StopPolling;
        }
        match fetched {
            None => {
                if expired {
                    PollStep::StopPolling
                } else {
                    PollStep::Wait
                }
            },
            Some((word, found)) => {
                match found {
                    Some(found) => {
                        // the user may have moved on: then store without playing
                        let still_looking = match &highlighted {
                            Some(current) => str_eq_ignore_ascii_case(current.as_str(), word.as_str()),
                            None => false,
                        } && !private;
                        PollStep::Store { word, found, speak_now: still_looking }
                    },
                    None => {
                        self.speaker.note_missing(word.as_str());
                        PollStep::Missing
                    },
                }
            },
        }
    }

    /// Stops reading and forgets the last word (new query, window closed): typing the same word
    /// again reads it again. The caller stops the timers and the playback.
    pub fn reset_speech(&mut self)
        ensures
            final(self).spec_speaker()@.last is None,
            final(self).spec_speaker()@.cache == old(self).spec_speaker()@.cache,
            final(self).spec_speaker()@.library == old(self).spec_speaker()@.library,
            final(self).spec_speaker().wf() == old(self).spec_speaker().wf(),
            final(self).spec_speak_candidate() == old(self).spec_speak_candidate(),
    {
        self.speaker.forget_last();
    }

    /// The English word to read for the highlighted candidate (`None` when nothing is
    /// highlighted). A notice or "translating…" borrows the cloud row: `translating` and
    /// `notice` say whether one is shown.
    pub fn highlighted_word(
        &self,
        candidate: Option<Candidate>,
        translating: bool,
        notice: bool,
        learning_language: Option<Language>,
    ) -> (res: Option<String>)
        ensures
            opt_view(res) == match candidate {
                None => None,
                Some(c) => spec_word_to_speak(
                    c.kind,
                    c.text@,
                    opt_view(c.gloss),
                    learning_language,
                    translating || notice,
                ),
            },
    {
        match candidate {
            None => None,
            Some(c) => word_to_speak(&c, learning_language, translating || notice),
        }
    }

    /// The credits list of the cached recordings, to export as Markdown: `None` when nothing
    /// was downloaded yet. Writing it out is the caller's.
    pub fn export_audio_credits(&self) -> (res: Option<String>)
        ensures
            match self.spec_speaker()@.cache {
                Some(c) if c.entries.len() > 0 => res matches Some(text) && text@ == credits_markdown(c.entries),
                _ => res is None,
            },
    {
        let credits = self.speaker.credits();
        if credits.len() == 0 {
            return None;
        }
        let ghost entries = self.spec_speaker()@.cache->0.entries;
        let mut out: Vec<char> = Vec::new();
        push_str_chars(&mut out, CREDITS_TITLE);
        push_nat_text(credits.len() as u64, &mut out);
        push_str_chars(&mut out, CREDITS_INTRO);
        let mut i: usize = 0;
        while i < credits.len()
            invariant
                i <= credits@.len(),
                credits@.len() == entries.len(),
                forall|k: int| 0 <= k < credits@.len() ==> {
                    &&& (#[trigger] credits@[k]).0@ == entries[k].0
                    &&& credits@[k].1@ == entries[k].1.license
                    &&& credits@[k].2@ == entries[k].1.author
                    &&& credits@[k].3@ == entries[k].1.page
                },
                out@ == CREDITS_TITLE@ + nat_text(entries.len()) + CREDITS_INTRO@ + credit_rows(entries.take(i as int)),
            decreases credits@.len() - i,
        {
            let (word, license, author, page) = &credits[i];
            push_credit_row(&mut out, word.as_str(), license.as_str(), author.as_str(), page.as_str());
            assert(entries.take(i + 1).drop_last() =~= entries.take(i as int));
            i = i + 1;
        }
        assert(entries.take(entries.len() as int) =~= entries);
        Some(string_of(&out))
    }
}

/// The title of the exported credits list.
pub const CREDITS_TITLE: &'static str = "# 单词发音署名清单\n\n本机已下载 ";

/// What follows the count in the exported credits list, down to the table header.
pub const CREDITS_INTRO: &'static str = " 条真人录音，来自 Wikimedia Commons。CC BY-SA / CC BY 要求逐条署名。\n\n| 词 | 许可证 | 录音人 | 来源 |\n| --- | --- | --- | --- |\n";

/// The table rows of cached recordings, one per recording in order.
pub open spec fn credit_rows(entries: Seq<(Seq<char>, crate::index::CachedWordView)>) -> Seq<char>
    decreases entries.len(),
{
    if entries.len() == 0 {
        Seq::empty()
    } else {
        let e = entries.last();
        credit_rows(entries.drop_last()) + credit_row(e.0, e.1.license, e.1.author, e.1.page)
    }
}

/// The exported credits list of cached recordings: title, how many there are, an introduction
/// and one table row per recording.
pub open spec fn credits_markdown(entries: Seq<(Seq<char>, crate::index::CachedWordView)>) -> Seq<char> {
    CREDITS_TITLE@ + nat_text(entries.len()) + CREDITS_INTRO@ + credit_rows(entries)
}

} // verus!
