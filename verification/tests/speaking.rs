use qingjian_audio::index::INDEX_HEADER;
use qingjian_audio::speaking::{
    speak_switch_enabled, word_to_speak, Candidate, CandidateKind, Host, Language, PollStep, SpeakStep,
};
use qingjian_audio::fetch::FoundAudio;
use qingjian_audio::{AudioCache, AudioLibrary, Codec, LocalAudio, Source, Speaker};

fn candidate(kind: CandidateKind, text: &str, gloss: Option<&str>) -> Candidate {
    Candidate { text: text.to_owned(), kind, gloss: gloss.map(str::to_owned) }
}

#[test]
fn english_candidates_are_read_as_themselves() {
    let word = candidate(CandidateKind::English, "develop", None);
    assert_eq!(word_to_speak(&word, Some(Language::English), false).as_deref(), Some("develop"));
    // an English candidate does not depend on the learning language: it is English already
    assert_eq!(word_to_speak(&word, None, false).as_deref(), Some("develop"));
}

#[test]
fn chinese_candidates_are_read_through_the_first_english_gloss() {
    let word = candidate(CandidateKind::Chinese, "开发", Some("develop"));
    assert_eq!(word_to_speak(&word, Some(Language::English), false).as_deref(), Some("develop"));
    // a gloss in another learning language is not English and is not read with English audio
    assert_eq!(word_to_speak(&word, Some(Language::Japanese), false), None);
    assert_eq!(word_to_speak(&word, None, false), None);
    // without a gloss there is nothing to read
    let plain = candidate(CandidateKind::Chinese, "开发", None);
    assert_eq!(word_to_speak(&plain, Some(Language::English), false), None);
}

#[test]
fn notices_borrowing_the_cloud_row_are_not_words() {
    let notice = candidate(CandidateKind::Cloud, "翻译中…", None);
    assert_eq!(word_to_speak(&notice, Some(Language::English), true), None);
    // a real cloud candidate with a gloss is read
    let cloud = candidate(CandidateKind::Cloud, "开发", Some("develop"));
    assert_eq!(word_to_speak(&cloud, Some(Language::English), false).as_deref(), Some("develop"));
}

fn cache_with(words: &[(&str, &str)]) -> AudioCache {
    let mut cache = AudioCache::new("cache".to_owned());
    for (word, author) in words {
        let (k, r) = AudioCache::new_record(word, 1, "ogg", ("CC0", author, "u"), 0).unwrap();
        cache.insert(&k, r);
    }
    cache
}

fn found(audio: &[u8]) -> FoundAudio {
    FoundAudio {
        audio: audio.to_vec(),
        extension: "ogg".to_owned(),
        license: "CC0".to_owned(),
        author: "A".to_owned(),
        page: "p".to_owned(),
    }
}

#[test]
fn the_highlight_is_read_once_and_only_when_switched_on() {
    let mut host = Host::new(false, Speaker::new(None, None));
    assert!(!host.schedule_speech());
    assert_eq!(host.speak_highlighted(false, Some("hello".to_owned())), SpeakStep::Off);
    host.set_speak_candidate(true);
    assert!(host.schedule_speech());
    assert_eq!(host.speak_highlighted(true, Some("hello".to_owned())), SpeakStep::Stop);
    assert_eq!(host.speak_highlighted(false, None), SpeakStep::Idle);
    assert_eq!(host.speak_highlighted(false, Some("hello".to_owned())), SpeakStep::Local("hello".to_owned()));
    // nothing played locally: ask upstream, once
    assert!(host.after_local("hello", false, true));
    assert_eq!(host.speak_highlighted(false, Some(" Hello ".to_owned())), SpeakStep::Idle);
    host.reset_speech();
    assert_eq!(host.speak_highlighted(false, Some("hello".to_owned())), SpeakStep::Local("hello".to_owned()));
}

#[test]
fn no_request_after_playing_without_downloader_or_for_a_missing_word() {
    let mut host = Host::new(true, Speaker::new(Some(AudioCache::new("c".to_owned())), None));
    assert!(!host.after_local("hello", true, true));
    assert!(!host.after_local("hello", false, false));
    host.speaker_mut().note_missing("kubectl");
    assert!(!host.after_local("kubectl", false, true));
}

#[test]
fn polling_stores_plays_or_notes_missing() {
    let mut host = Host::new(true, Speaker::new(Some(AudioCache::new("c".to_owned())), None));
    assert!(matches!(host.poll_pronunciation(false, None, false, None, false), PollStep::StopPolling));
    assert!(matches!(host.poll_pronunciation(true, None, false, None, false), PollStep::Wait));
    assert!(matches!(host.poll_pronunciation(true, None, true, None, false), PollStep::StopPolling));
    match host.poll_pronunciation(
        true,
        Some(("hello".to_owned(), Some(found(b"x")))),
        false,
        Some("HELLO".to_owned()),
        false,
    ) {
        PollStep::Store { word, found, speak_now } => {
            assert_eq!(word, "hello");
            assert_eq!(found.audio, b"x");
            assert!(speak_now);
        },
        other => panic!("unexpected {other:?}"),
    }
    // the user moved on: store without playing
    match host.poll_pronunciation(true, Some(("hello".to_owned(), Some(found(b"x")))), false, Some("world".to_owned()), false) {
        PollStep::Store { speak_now, .. } => assert!(!speak_now),
        other => panic!("unexpected {other:?}"),
    }
    assert!(matches!(
        host.poll_pronunciation(true, Some(("kubectl".to_owned(), None)), false, None, false),
        PollStep::Missing
    ));
    assert!(host.speaker().is_known_missing("kubectl"));
}

#[test]
fn the_highlighted_word_skips_notices() {
    let host = Host::new(true, Speaker::new(None, None));
    let cloud = candidate(CandidateKind::Cloud, "开发", Some("develop"));
    assert_eq!(host.highlighted_word(Some(cloud.clone()), false, false, Some(Language::English)).as_deref(), Some("develop"));
    assert_eq!(host.highlighted_word(Some(cloud.clone()), true, false, Some(Language::English)), None);
    assert_eq!(host.highlighted_word(Some(cloud), false, true, Some(Language::English)), None);
    assert_eq!(host.highlighted_word(None, false, false, Some(Language::Spanish)), None);
}

#[test]
fn credits_are_exported_only_when_something_was_downloaded() {
    let host = Host::new(true, Speaker::new(Some(AudioCache::new("c".to_owned())), None));
    assert_eq!(host.export_audio_credits(), None);
    let host = Host::new(true, Speaker::new(None, None));
    assert_eq!(host.export_audio_credits(), None);
    let host = Host::new(true, Speaker::new(Some(cache_with(&[("world", "B"), ("hello", "A")])), None));
    let text = host.export_audio_credits().unwrap();
    assert_eq!(
        text,
        "# 单词发音署名清单\n\n本机已下载 2 条真人录音，来自 Wikimedia Commons。CC BY-SA / CC BY 要求逐条署名。\n\n\
         | 词 | 许可证 | 录音人 | 来源 |\n| --- | --- | --- | --- |\n\
         | hello | CC0 | A | u |\n| world | CC0 | B | u |\n"
    );
}

#[test]
fn local_audio_prefers_the_cache_then_the_library() {
    let library = AudioLibrary::build(vec![
        ("hello".to_owned(), Source::Human, Codec::OpusOgg, b"lib-hello".to_vec()),
        ("world".to_owned(), Source::Synthetic, Codec::OpusOgg, b"lib-world".to_vec()),
    ])
    .unwrap();
    let mut speaker = Speaker::new(Some(cache_with(&[("hello", "A")])), Some(library));
    match speaker.speak_local("Hello", true) {
        LocalAudio::Cached(r) => assert_eq!(r.file, "hello.ogg"),
        _ => panic!("the cache comes first"),
    }
    assert!(speaker.is_repeat("hello"));
    // the cached file is gone: the library answers
    match speaker.speak_local("hello", false) {
        LocalAudio::Library { audio, codec } => {
            assert_eq!(audio, b"lib-hello");
            assert_eq!(codec, Codec::OpusOgg);
        },
        _ => panic!("the library answers"),
    }
    assert!(matches!(speaker.speak_local("nope", true), LocalAudio::Nothing));
    assert!(matches!(speaker.speak_local("   ", true), LocalAudio::Nothing));
    assert!(speaker.is_repeat("hello"));
}

#[test]
fn speaker_keeps_the_cache_up_to_date() {
    let mut speaker = Speaker::new(Some(AudioCache::new("c".to_owned())), None);
    let (k, r) = AudioCache::new_record("hello", 3, "ogg", ("CC0", "A", "u"), 0).unwrap();
    assert!(speaker.insert_cached(&k, r));
    assert!(speaker.set_gain("hello", 150));
    assert_eq!(speaker.cached("HELLO").unwrap().gain_centi_db, 150);
    assert_eq!(speaker.cache_len(), 1);
    assert_eq!(speaker.credits(), vec![("hello".to_owned(), "CC0".to_owned(), "A".to_owned(), "u".to_owned())]);
    assert!(speaker.cache().unwrap().index_text().starts_with(INDEX_HEADER));
    assert_eq!(speaker.forget_cached("hello").unwrap().file, "hello.ogg");
    assert_eq!(speaker.clear_cache(), 0);
    let mut none = Speaker::new(None, None);
    let (k, r) = AudioCache::new_record("hello", 3, "ogg", ("CC0", "A", "u"), 0).unwrap();
    assert!(!none.insert_cached(&k, r));
    assert_eq!(none.clear_cache(), 0);
    assert!(none.credits().is_empty());
}

#[test]
fn the_speak_switch_needs_english_as_learning_language() {
    assert!(speak_switch_enabled("en"));
    assert!(speak_switch_enabled(" EN "));
    assert!(!speak_switch_enabled("ja"));
    assert!(!speak_switch_enabled(""));
    assert!(!speak_switch_enabled("eng"));
}

#[test]
fn a_word_noted_missing_is_known_missing_whatever_its_case() {
    let mut speaker = Speaker::new(Some(AudioCache::new("c".to_owned())), None);
    speaker.note_missing("  KubeCtl ");
    assert!(speaker.is_known_missing("kubectl"));
    assert!(speaker.is_repeat("KUBECTL"));
}
