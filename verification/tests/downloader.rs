use std::sync::mpsc::channel;

use qingjian_audio::downloader::{latest_request, Downloader};

#[test]
fn requests_go_out_and_results_come_back() {
    let (requests, requested) = channel::<String>();
    let (finished, results) = channel();
    let downloader = Downloader::new(requests, results);
    assert!(downloader.poll().is_none());
    downloader.request("hello");
    assert_eq!(requested.recv().unwrap(), "hello");
    finished.send(("hello".to_owned(), None)).unwrap();
    let (word, found) = downloader.poll().unwrap();
    assert_eq!(word, "hello");
    assert!(found.is_none());
}

#[test]
fn a_request_to_a_gone_thread_is_dropped_quietly() {
    let (requests, requested) = channel::<String>();
    let (_finished, results) = channel();
    drop(requested);
    let downloader = Downloader::new(requests, results);
    downloader.request("hello");
    assert!(downloader.poll().is_none());
}

#[test]
fn only_the_latest_waiting_request_is_served() {
    assert_eq!(latest_request("a".to_owned(), vec!["b".to_owned(), "c".to_owned()]), "c");
    assert_eq!(latest_request("a".to_owned(), Vec::new()), "a");
}
