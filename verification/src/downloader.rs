//! The pronunciation downloader's two ends: requests go to a background thread that fetches,
//! results come back to the main thread, which polls. Network requests never run in the
//! key-press callback. The thread itself is started by the caller.

use std::sync::mpsc::{Receiver, Sender};

use vstd::prelude::*;

use crate::fetch::FoundAudio;

verus! {

#[verifier::external_type_specification]
#[verifier::external_body]
#[verifier::reject_recursive_types(T)]
pub struct ExSender<T>(Sender<T>);

#[verifier::external_type_specification]
#[verifier::external_body]
#[verifier::reject_recursive_types(T)]
pub struct ExReceiver<T>(Receiver<T>);

/// A download result: the word and what was found (`None`: upstream has no recording).
pub type Fetched = (String, Option<FoundAudio>);

/// `Sender::send`: hands `word` to the receiving thread; `false` when that thread is gone.
/// Whether it is gone depends on the other thread, so nothing is promised of the result.
#[verifier::external_body]
fn send_word(requests: &Sender<String>, word: String) -> bool {
    requests.send(word).is_ok()
}

/// `Receiver::try_recv`: a finished result if one is waiting, `None` when none is (or the
/// sending thread is gone). What arrives depends on the other thread, so nothing is promised.
#[verifier::external_body]
fn try_receive(results: &Receiver<Fetched>) -> Option<Fetched> {
    results.try_recv().ok()
}

/// The downloader: the request end and the result end of one resident fetching thread.
pub struct Downloader {
    /// Requests out; once the thread is gone sending fails and nothing more is downloaded.
    requests: Sender<String>,
    /// Results in.
    results: Receiver<Fetched>,
}

impl Downloader {
    /// The end requests are sent on.
    pub closed spec fn spec_requests(&self) -> Sender<String> {
        self.requests
    }

    /// The end results are received from.
    pub closed spec fn spec_results(&self) -> Receiver<Fetched> {
        self.results
    }

    /// The downloader over the channels of a started fetching thread: it sends its requests on
    /// `requests` and takes its results from `results`.
    pub fn new(requests: Sender<String>, results: Receiver<Fetched>) -> (res: Self)
        ensures
            res.spec_requests() == requests,
            res.spec_results() == results,
    {
        Downloader { requests, results }
    }

    /// Asks for a word to be downloaded. If the thread is gone the request is silently dropped.
    pub fn request(&self, word: &str) {
        let _ = send_word(&self.requests, word.to_owned());
    }

    /// A finished result, if one is waiting.
    pub fn poll(&self) -> Option<Fetched> {
        try_receive(&self.results)
    }
}

/// Of the requests waiting, only the latest is served: the user pages through candidates faster
/// than the network answers, and the words in between are no longer wanted. `first` is the
/// request received, `pending` those that queued behind it, oldest first.
pub fn latest_request(first: String, pending: Vec<String>) -> (res: String)
    ensures
        res@ == if pending@.len() > 0 {
            pending@.last()@
        } else {
            first@
        },
{
    let mut pending = pending;
    match pending.pop() {
        Some(last) => last,
        None => first,
    }
}

} // verus!
