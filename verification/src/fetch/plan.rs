//! The order in which upstream is asked for a word: the usual file titles first, then a Lingua
//! Libre search, then the title the search found. Each step is an outgoing request made by the
//! caller; what to ask next is decided here from the answer to the last one.

use vstd::prelude::*;

use super::found::FoundAudio;
use super::select::{
    candidate_titles, fetchable_word, first_hit, lingua_libre_query, pick_lingua_libre, spec_candidate_titles,
    spec_fetchable_word, spec_lingua_libre_query, views,
};

verus! {

/// Where a lookup stands.
#[derive(Debug, Clone, Copy, PartialEq, Eq, Structural)]
pub enum FetchStage {
    /// The usual titles were asked for.
    Titles,
    /// Lingua Libre was searched.
    Search,
    /// The title found by the search was asked for.
    LinguaLibre,
    /// The answer is known.
    Finished,
}

/// What the caller does next.
#[derive(Debug)]
pub enum FetchAction {
    /// Ask for these file titles, in order of preference, and take the first usable recording.
    TryTitles(Vec<String>),
    /// Search Lingua Libre with this text.
    Search(String),
    /// Done: the recording, or `None` when upstream has nothing usable (the word is then noted
    /// as missing and not asked for again).
    Done(Option<FoundAudio>),
}

/// One lookup of a word upstream.
pub struct FetchPlan {
    word: String,
    stage: FetchStage,
}

impl FetchPlan {
    /// The word looked up (trimmed and lower-cased).
    pub closed spec fn spec_word(&self) -> Seq<char> {
        self.word@
    }

    /// Where the lookup stands.
    pub closed spec fn spec_stage(&self) -> FetchStage {
        self.stage
    }

    /// Starts looking up `word`: nothing is asked for a word that is not a single English word
    /// of ASCII letters; otherwise its usual titles are.
    pub fn start(word: &str) -> (res: (FetchPlan, FetchAction))
        ensures
            match spec_fetchable_word(word@) {
                None => res.0.spec_stage() == FetchStage::Finished && res.1 matches FetchAction::Done(None),
                Some(w) => {
                    &&& res.0.spec_word() == w
                    &&& res.0.spec_stage() == FetchStage::Titles
                    &&& res.1 matches FetchAction::TryTitles(t)
                    &&& views(t@) == spec_candidate_titles(w)
                },
            },
    {
        match fetchable_word(word) {
            None => (FetchPlan { word: String::new(), stage: FetchStage::Finished }, FetchAction::Done(None)),
            Some(w) => {
                let titles = candidate_titles(w.as_str());
                (FetchPlan { word: w, stage: FetchStage::Titles }, FetchAction::TryTitles(titles))
            },
        }
    }

    /// The titles asked for were answered with `found`. A recording ends the lookup; after the
    /// usual titles, none leads to the Lingua Libre search; after the searched title, none ends
    /// it with nothing.
    pub fn titles_answered(&mut self, found: Option<FoundAudio>) -> (res: FetchAction)
        requires
            old(self).spec_stage() == FetchStage::Titles || old(self).spec_stage() == FetchStage::LinguaLibre,
        ensures
            final(self).spec_word() == old(self).spec_word(),
            match found {
                Some(f) => final(self).spec_stage() == FetchStage::Finished && res == FetchAction::Done(Some(f)),
                None => if old(self).spec_stage() == FetchStage::Titles {
                    &&& final(self).spec_stage() == FetchStage::Search
                    &&& res matches FetchAction::Search(q)
                    &&& q@ == spec_lingua_libre_query(old(self).spec_word())
                } else {
                    final(self).spec_stage() == FetchStage::Finished && res matches FetchAction::Done(None)
                },
            },
    {
        match found {
            Some(f) => {
                self.stage = FetchStage::Finished;
                FetchAction::Done(Some(f))
            },
            None => {
                if self.stage == FetchStage::Titles {
                    self.stage = FetchStage::Search;
                    FetchAction::Search(lingua_libre_query(self.word.as_str()))
                } else {
                    self.stage = FetchStage::Finished;
                    FetchAction::Done(None)
                }
            },
        }
    }

    /// The Lingua Libre search was answered with the titles `hits`: the first that names the word
    /// exactly is asked for next; with none, the lookup ends with nothing.
    pub fn search_answered(&mut self, hits: &Vec<String>) -> (res: FetchAction)
        requires
            old(self).spec_stage() == FetchStage::Search,
        ensures
            final(self).spec_word() == old(self).spec_word(),
            match first_hit(old(self).spec_word(), views(hits@)) {
                Some(t) => {
                    &&& final(self).spec_stage() == FetchStage::LinguaLibre
                    &&& res matches FetchAction::TryTitles(v)
                    &&& views(v@) == seq![t]
                },
                None => final(self).spec_stage() == FetchStage::Finished && res matches FetchAction::Done(None),
            },
    {
        match pick_lingua_libre(self.word.as_str(), hits) {
            Some(t) => {
                self.stage = FetchStage::LinguaLibre;
                let mut v: Vec<String> = Vec::new();
                v.push(t);
                assert(views(v@) =~= seq![v@[0]@]);
                FetchAction::TryTitles(v)
            },
            None => {
                self.stage = FetchStage::Finished;
                FetchAction::Done(None)
            },
        }
    }
}

} // verus!
