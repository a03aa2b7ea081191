use qingjian_audio::index::{gain_string, index_line_string, parse_gain_chars, parse_index_line, INDEX_HEADER};
use qingjian_audio::{sanitize, AudioCache, CachedWord, Codec, Source};

fn chars(s: &str) -> Vec<char> {
    s.chars().collect()
}

fn record(word: &str, extension: &str, credit: (&str, &str, &str), gain: i32) -> (String, CachedWord) {
    AudioCache::new_record(word, 1, extension, credit, gain).unwrap()
}

fn reopened(cache: &AudioCache) -> AudioCache {
    let mut again = AudioCache::new(cache.dir().to_owned());
    again.parse_index(&cache.index_text());
    again
}

#[test]
fn records_round_trip_through_the_index_text() {
    let mut cache = AudioCache::new("cache".to_owned());
    assert!(cache.is_empty());
    let (key, r) = record("Hello", "ogg", ("CC BY-SA 3.0", "Dvortygirl", "https://example.org/hello"), 350);
    assert_eq!(key, "hello");
    assert_eq!(r.file, "hello.ogg");
    cache.insert(&key, r);
    let found = cache.get("HELLO").expect("case does not matter");
    assert_eq!(found.license, "CC BY-SA 3.0");
    assert_eq!(found.gain_centi_db, 350);
    let again = reopened(&cache);
    assert_eq!(again.len(), 1);
    let found = again.get("hello").unwrap();
    assert_eq!(found.author, "Dvortygirl");
    assert_eq!(found.gain_centi_db, 350);
}

#[test]
fn author_newlines_stay_on_one_index_line() {
    let mut cache = AudioCache::new("cache".to_owned());
    let (key, r) = record(
        "world",
        "wav",
        ("CC0", "Speaker: Grendelkhan\nRecorder: Grendelkhan", "https://example.org/world"),
        0,
    );
    cache.insert(&key, r);
    let text = cache.index_text();
    // a header line and one record line: more means a line break broke the TSV
    assert_eq!(text.lines().count(), 2);
    assert!(text.starts_with(INDEX_HEADER));
    let again = reopened(&cache);
    assert_eq!(again.get("world").unwrap().author, "Speaker: Grendelkhan Recorder: Grendelkhan");
}

#[test]
fn missing_words_are_remembered() {
    let mut cache = AudioCache::new("cache".to_owned());
    assert!(!cache.is_known_missing("kubectl"));
    cache.note_missing("Kubectl");
    assert!(cache.is_known_missing("kubectl"));
}

#[test]
fn a_new_gain_survives_rewriting_the_index() {
    let mut cache = AudioCache::new("cache".to_owned());
    let (k1, r1) = record("hello", "ogg", ("CC0", "Someone", "url"), 0);
    let (k2, r2) = record("world", "wav", ("CC0", "Another", "url2"), 0);
    cache.insert(&k1, r1);
    cache.insert(&k2, r2);
    assert!(cache.set_gain("hello", 725));
    assert!(!cache.set_gain("absent", 1));
    let again = reopened(&cache);
    assert_eq!(again.get("hello").unwrap().gain_centi_db, 725);
    // rewriting the index keeps the other rows
    assert_eq!(again.get("world").unwrap().gain_centi_db, 0);
    assert_eq!(again.len(), 2);
}

#[test]
fn forgetting_removes_the_row() {
    let mut cache = AudioCache::new("cache".to_owned());
    let (k1, r1) = record("hello", "ogg", ("CC0", "Someone", "url"), 0);
    let (k2, r2) = record("world", "ogg", ("CC0", "Another", "url2"), 100);
    cache.insert(&k1, r1);
    cache.insert(&k2, r2);
    let gone = cache.forget("hello").unwrap();
    assert_eq!(gone.file, "hello.ogg");
    assert!(cache.get("hello").is_none());
    assert!(cache.get("world").is_some());
    assert!(cache.forget("hello").is_none());
    assert_eq!(reopened(&cache).len(), 1);
}

#[test]
fn clearing_empties_the_cache() {
    let mut cache = AudioCache::new("cache".to_owned());
    let (k, r) = record("hello", "ogg", ("CC0", "Someone", "url"), 0);
    cache.insert(&k, r);
    cache.note_missing("nope");
    cache.clear();
    assert!(cache.is_empty());
    assert!(!cache.is_known_missing("nope"));
    assert_eq!(cache.dir(), "cache");
}

#[test]
fn records_are_kept_sorted_and_a_word_stored_again_is_replaced() {
    let mut cache = AudioCache::new("cache".to_owned());
    for (word, gain) in [("zebra", 1), ("apple", 2), ("mango", 3), ("apple", 4)] {
        let (k, r) = record(word, "ogg", ("CC0", "A", "u"), gain);
        cache.insert(&k, r);
    }
    let words: Vec<&str> = cache.entries().iter().map(|(w, _)| w.as_str()).collect();
    assert_eq!(words, vec!["apple", "mango", "zebra"]);
    assert_eq!(cache.get("apple").unwrap().gain_centi_db, 4);
}

#[test]
fn blank_words_and_empty_audio_make_no_record() {
    assert!(AudioCache::new_record("  ", 3, "ogg", ("CC0", "A", "u"), 0).is_none());
    assert!(AudioCache::new_record("word", 0, "ogg", ("CC0", "A", "u"), 0).is_none());
}

#[test]
fn cached_words_are_human_and_coded_by_extension() {
    assert_eq!(AudioCache::source(), Source::Human);
    assert_eq!(AudioCache::codec_of("m4a"), Codec::AacM4a);
    assert_eq!(AudioCache::codec_of("ogg"), Codec::OpusOgg);
    assert_eq!(AudioCache::codec_of("wav"), Codec::OpusOgg);
}

#[test]
fn gains_are_written_with_two_decimals() {
    assert_eq!(gain_string(350), "3.50");
    assert_eq!(gain_string(-200), "-2.00");
    assert_eq!(gain_string(5), "0.05");
    assert_eq!(gain_string(0), "0.00");
}

#[test]
fn gains_are_read_in_hundredths() {
    assert_eq!(parse_gain_chars(&chars("6.50")), Some(650));
    assert_eq!(parse_gain_chars(&chars("-2.00")), Some(-200));
    assert_eq!(parse_gain_chars(&chars("7.25")), Some(725));
    assert_eq!(parse_gain_chars(&chars("3")), Some(300));
    assert_eq!(parse_gain_chars(&chars("loud")), None);
    assert_eq!(parse_gain_chars(&chars("")), None);
}

#[test]
fn an_index_line_reads_back_what_was_written() {
    let (_, r) = record("hello", "ogg", ("CC BY-SA 3.0", "Dvortygirl", "https://example.org/h"), 650);
    let line = index_line_string("hello", &r);
    assert_eq!(line, "hello\thello.ogg\tCC BY-SA 3.0\tDvortygirl\thttps://example.org/h\t6.50");
    let (word, back) = parse_index_line(&chars(&line)).unwrap();
    assert_eq!(word, "hello");
    assert_eq!(back, r);
    assert!(parse_index_line(&chars("hello\thello.ogg\tCC0")).is_none());
}

#[test]
fn the_index_header_and_bad_lines_are_skipped() {
    let mut cache = AudioCache::new("cache".to_owned());
    cache.parse_index(&format!(
        "{INDEX_HEADER}\nhello\thello.ogg\tCC0\tA\tu\t1.00\nbroken line\nworld\tworld.wav\tCC0\tB\tv\t-0.50\n"
    ));
    assert_eq!(cache.len(), 2);
    assert_eq!(cache.get("world").unwrap().gain_centi_db, -50);
}

#[test]
fn credit_fields_are_put_on_one_line() {
    assert_eq!(sanitize("  Speaker: A\nRecorder:\tB  "), "Speaker: A Recorder: B");
    assert_eq!(sanitize(" \n "), "");
}

#[test]
fn words_are_stored_trimmed_and_in_lower_case() {
    let mut cache = AudioCache::new("cache".to_owned());
    let (_, r) = record("hello", "ogg", ("CC0", "A", "u"), 0);
    cache.insert("  HeLLo ", r);
    assert_eq!(cache.entries()[0].0, "hello");
    assert!(cache.get("HELLO").is_some());
}
