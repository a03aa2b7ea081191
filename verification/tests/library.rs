use qingjian_audio::{AudioError, AudioLibrary, Codec, Entry, Source};

fn sample() -> AudioLibrary {
    AudioLibrary::build(vec![
        ("Hello".to_owned(), Source::Human, Codec::OpusOgg, b"human-hello".to_vec()),
        ("kubectl".to_owned(), Source::Synthetic, Codec::OpusOgg, b"synth-kubectl".to_vec()),
        // a repeated word (in another case) is dropped: the first one wins
        ("hello".to_owned(), Source::Synthetic, Codec::AacM4a, b"synth-hello".to_vec()),
        // empty audio is not kept
        ("empty".to_owned(), Source::Human, Codec::OpusOgg, Vec::new()),
    ])
    .unwrap()
}

#[test]
fn looks_up_case_insensitively_and_keeps_the_first_source() {
    let library = sample();
    assert_eq!(library.len(), 2);
    let hello = library.get("HeLLo").unwrap();
    assert_eq!(hello.audio, b"human-hello");
    assert_eq!(hello.source, Source::Human);
    assert_eq!(library.get(" kubectl ").unwrap().source, Source::Synthetic);
    assert!(library.get("nope").is_none());
}

#[test]
fn empty_library_answers_nothing() {
    let library = AudioLibrary::default();
    assert!(library.is_empty());
    assert!(library.get("hello").is_none());
}

#[test]
fn sections_reopen_to_the_same_library() {
    let library = sample();
    let opened = AudioLibrary::from_sections(
        library.words_section().to_vec(),
        library.entries_section().to_vec(),
        library.blob_section().to_vec(),
    )
    .unwrap();
    assert_eq!(opened.len(), 2);
    assert_eq!(opened.get("hello").unwrap().audio, b"human-hello");
    assert_eq!(opened.get("kubectl").unwrap().codec, Codec::OpusOgg);
    assert_eq!(opened.words(), vec!["hello".to_owned(), "kubectl".to_owned()]);
    assert_eq!(opened.audio_bytes(), b"human-hello".len() + b"synth-kubectl".len());
}

#[test]
fn words_come_in_the_order_they_were_added() {
    let library = sample();
    assert_eq!(library.words(), vec!["hello".to_owned(), "kubectl".to_owned()]);
    assert_eq!(library.audio_bytes(), 24);
}

#[test]
fn blank_words_are_not_kept() {
    let library = AudioLibrary::build(vec![
        ("   ".to_owned(), Source::Human, Codec::OpusOgg, b"a".to_vec()),
        ("word".to_owned(), Source::Human, Codec::OpusOgg, b"b".to_vec()),
    ])
    .unwrap();
    assert_eq!(library.len(), 1);
    assert!(library.get("").is_none());
}

#[test]
fn a_word_too_long_for_an_entry_is_stored_cut() {
    let long = "a".repeat(70_000);
    let library = AudioLibrary::build(vec![(long.clone(), Source::Human, Codec::OpusOgg, b"x".to_vec())]).unwrap();
    assert_eq!(library.len(), 1);
    assert_eq!(library.words()[0].len(), 65_535);
    assert!(library.get(&long).is_none());
    assert_eq!(library.get(&"a".repeat(65_535)).unwrap().audio, b"x");
}

#[test]
fn a_long_word_not_cut_on_a_character_boundary_is_refused() {
    let word = format!("{}é", "a".repeat(65_534));
    let result = AudioLibrary::build(vec![(word, Source::Human, Codec::OpusOgg, b"x".to_vec())]);
    assert_eq!(result.err(), Some(AudioError::TooLarge));
}

fn entry(word_start: u32, word_len: u16, audio_start: u32, audio_len: u32, codec: u8, source: u8) -> Entry {
    Entry { word_start, audio_start, audio_len, word_len, codec, source }
}

#[test]
fn an_entry_pointing_outside_is_refused() {
    let result = AudioLibrary::from_sections(b"hi".to_vec(), vec![entry(0, 5, 0, 1, 0, 0)], b"a".to_vec());
    assert_eq!(result.err(), Some(AudioError::OutOfBounds { index: 0 }));
    let result = AudioLibrary::from_sections(b"hi".to_vec(), vec![entry(0, 2, 0, 9, 0, 0)], b"a".to_vec());
    assert_eq!(result.err(), Some(AudioError::OutOfBounds { index: 0 }));
}

#[test]
fn unknown_codes_are_refused() {
    let result = AudioLibrary::from_sections(b"hi".to_vec(), vec![entry(0, 2, 0, 1, 7, 0)], b"a".to_vec());
    assert_eq!(result.err(), Some(AudioError::UnknownCodec(7)));
    let result = AudioLibrary::from_sections(b"hi".to_vec(), vec![entry(0, 2, 0, 1, 0, 9)], b"a".to_vec());
    assert_eq!(result.err(), Some(AudioError::UnknownSource(9)));
}

#[test]
fn a_word_that_is_not_utf8_is_refused() {
    let result = AudioLibrary::from_sections(vec![0xff, 0xfe], vec![entry(0, 2, 0, 1, 0, 0)], b"a".to_vec());
    assert_eq!(result.err(), Some(AudioError::BadWord { index: 0 }));
}

#[test]
fn the_second_bad_entry_is_named_by_its_index() {
    let result = AudioLibrary::from_sections(
        b"hi".to_vec(),
        vec![entry(0, 2, 0, 1, 0, 0), entry(0, 2, 0, 1, 1, 5)],
        b"a".to_vec(),
    );
    assert_eq!(result.err(), Some(AudioError::UnknownSource(5)));
}
