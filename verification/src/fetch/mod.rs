//! Finding the human pronunciation of an English word on Wikimedia Commons.
//!
//! Asking Commons is an outgoing request: it tells Wikimedia which English word is being looked
//! at, so callers only ask when the user switched pronunciation on and the word is not cached.
//! Recordings follow community naming: `En-us-<word>.ogg` (US), `En-uk-<word>.ogg` (UK), and
//! `LL-Q1860 (eng)-<speaker>-<word>.wav` for Lingua Libre, tried in that order of preference.
//!
//! The requests themselves are made by the caller; this module decides what to ask for and what
//! to accept from the answers.

mod clean;
mod found;
mod plan;
pub(crate) mod select;

pub use clean::{extension_of, extension_to_store, licence_name_is_free, license_allowed, strip_html};
pub use found::FoundAudio;
pub use plan::{FetchAction, FetchPlan, FetchStage};
pub use select::{
    candidate_titles, fetchable_word, hit_names_word, lingua_libre_query, pick_lingua_libre, pick_offers,
    CommonsFile, CommonsPage, Offer, OfferView,
};

use vstd::prelude::*;

verus! {

/// The identity sent with every request: Wikimedia asks for purpose and contact, and limits
/// anonymous clients sooner.
pub const USER_AGENT: &'static str =
    "qingjian-inputmethod/0.1 (https://github.com/qingjian-team/qingjian) pronunciation-fetch";

/// The largest audio file accepted: word recordings are small, files of megabytes are long
/// readings, not what is wanted.
pub const MAX_AUDIO_BYTES: u64 = 2_000_000;

/// The Commons API endpoint.
pub const API: &'static str = "https://commons.wikimedia.org/w/api.php";

/// Whether a downloaded body of `len` bytes is small enough to be kept.
pub fn download_fits(len: usize) -> (res: bool)
    ensures
        res == (len <= MAX_AUDIO_BYTES),
{
    (len as u64) <= MAX_AUDIO_BYTES
}

} // verus!
