use qingjian_audio::fetch::{extension_to_store, hit_names_word, licence_name_is_free};
use qingjian_audio::fetch::{
    candidate_titles, extension_of, fetchable_word, license_allowed, lingua_libre_query, pick_lingua_libre,
    pick_offers, strip_html, CommonsFile, CommonsPage, FetchAction, FetchPlan, FetchStage, FoundAudio,
};
use qingjian_audio::fetch::download_fits;

#[test]
fn only_free_licenses_pass() {
    for allowed in ["CC0", "CC BY-SA 3.0", "CC BY 4.0", "cc-by-sa-4.0", "Public domain", "PD"] {
        assert!(license_allowed(allowed), "{allowed} 应该允许");
    }
    for rejected in ["", "Fair use", "All rights reserved", "GFDL-only", "©"] {
        assert!(!license_allowed(rejected), "{rejected} 不该允许");
    }
}

#[test]
fn extension_ignores_the_query_string() {
    // Commons URLs carry utm parameters: the last dot would give "org&utm_campaign=..."
    assert_eq!(
        extension_of(
            "https://upload.wikimedia.org/a/b/En-us-hello.ogg?utm_source=commons.wikimedia.org&utm_campaign=imageinfo"
        ),
        "ogg"
    );
    assert_eq!(extension_of("https://x/y/LL-Q1860_(eng)-A-world.wav"), "wav");
    // unknown ones fall back to ogg
    assert_eq!(extension_of("https://x/y/weird"), "ogg");
}

#[test]
fn html_and_newlines_are_stripped_from_credits() {
    assert_eq!(strip_html("<a href=\"/wiki/User:Dvortygirl\">Dvortygirl</a>"), "Dvortygirl");
    assert_eq!(
        strip_html("Speaker: Grendelkhan\nRecorder: Grendelkhan"),
        "Speaker: Grendelkhan Recorder: Grendelkhan"
    );
}

#[test]
fn licences_are_compared_trimmed_and_in_lower_case() {
    assert!(license_allowed("  Cc By-Sa 2.5  "));
    assert!(!license_allowed("   "));
}

#[test]
fn extensions_are_lower_cased_and_fragments_ignored() {
    assert_eq!(extension_of("https://x/y/Word.FLAC#top"), "flac");
    assert_eq!(extension_of("https://x/y.d/name"), "ogg");
    assert_eq!(extension_of("https://x/y/a.mp3"), "mp3");
}

#[test]
fn only_single_ascii_words_are_fetched() {
    assert_eq!(fetchable_word("  Hello "), Some("hello".to_owned()));
    assert_eq!(fetchable_word("give up"), None);
    assert_eq!(fetchable_word("don't"), None);
    assert_eq!(fetchable_word(""), None);
}

#[test]
fn us_recordings_are_tried_first() {
    assert_eq!(
        candidate_titles("hello"),
        vec![
            "File:En-us-hello.ogg".to_owned(),
            "File:En-us-hello.wav".to_owned(),
            "File:En-uk-hello.ogg".to_owned(),
            "File:En-gb-hello.ogg".to_owned(),
        ]
    );
}

fn page(title: &str, license: &str, url: Option<&str>, size: Option<u64>) -> CommonsPage {
    CommonsPage {
        title: title.to_owned(),
        missing: false,
        file: Some(CommonsFile {
            license: license.to_owned(),
            artist: "<b>Someone</b>".to_owned(),
            url: url.map(str::to_owned),
            size,
            description_url: format!("https://commons/{title}"),
        }),
    }
}

#[test]
fn offers_follow_the_order_of_the_titles() {
    let titles = candidate_titles("hello");
    // the answer lists pages in its own order: UK before US
    let pages = vec![
        page("File:En-uk-hello.ogg", "CC BY-SA 3.0", Some("https://x/En-uk-hello.ogg"), Some(100)),
        page("File:En-us-hello.ogg", "CC0", Some("https://x/En-us-hello.ogg"), Some(100)),
        page("File:En-us-hello.wav", "Fair use", Some("https://x/En-us-hello.wav"), Some(100)),
        page("File:En-gb-hello.ogg", "CC0", Some("https://x/En-gb-hello.ogg"), Some(3_000_000)),
    ];
    let offers = pick_offers(&titles, &pages);
    assert_eq!(offers.len(), 2);
    assert_eq!(offers[0].url, "https://x/En-us-hello.ogg");
    assert_eq!(offers[0].author, "Someone");
    assert_eq!(offers[0].page, "https://commons/File:En-us-hello.ogg");
    assert_eq!(offers[1].url, "https://x/En-uk-hello.ogg");
    assert_eq!(offers[1].license, "CC BY-SA 3.0");
}

#[test]
fn missing_pages_and_pages_without_url_offer_nothing() {
    let titles = vec!["File:A.ogg".to_owned(), "File:B.ogg".to_owned()];
    let mut missing = page("File:A.ogg", "CC0", Some("https://x/A.ogg"), None);
    missing.missing = true;
    let pages = vec![missing, page("File:B.ogg", "CC0", None, None)];
    assert!(pick_offers(&titles, &pages).is_empty());
}

#[test]
fn an_empty_download_is_not_accepted() {
    let titles = vec!["File:A.ogg".to_owned()];
    let pages = vec![page("File:A.ogg", "CC0", Some("https://x/A.ogg"), None)];
    let offer = pick_offers(&titles, &pages).remove(0);
    assert!(offer.clone().accept(Vec::new()).is_none());
    let found = offer.accept(b"ogg".to_vec()).unwrap();
    assert_eq!(found.audio, b"ogg");
    assert_eq!(found.extension, "ogg");
    assert_eq!(found.license, "CC0");
}

#[test]
fn lingua_libre_hits_must_name_the_word_exactly() {
    let hits = vec![
        "File:LL-Q1860 (eng)-A-waterfall.wav".to_owned(),
        "File:LL-Q1860 (eng)-B-Water.wav".to_owned(),
    ];
    assert_eq!(pick_lingua_libre("water", &hits), Some("File:LL-Q1860 (eng)-B-Water.wav".to_owned()));
    assert_eq!(pick_lingua_libre("fall", &hits), None);
    assert_eq!(
        lingua_libre_query("water"),
        "intitle:\"LL-Q1860 (eng)\" intitle:\"water\" filetype:audio"
    );
}

#[test]
fn oversized_downloads_do_not_fit() {
    assert!(download_fits(2_000_000));
    assert!(!download_fits(2_000_001));
}

fn found(audio: &[u8]) -> FoundAudio {
    FoundAudio {
        audio: audio.to_vec(),
        extension: "ogg".to_owned(),
        license: "CC0".to_owned(),
        author: "A".to_owned(),
        page: "p".to_owned(),
    }
}

#[test]
fn a_lookup_goes_from_titles_to_search_to_the_found_title() {
    let (mut plan, action) = FetchPlan::start(" Water ");
    match action {
        FetchAction::TryTitles(titles) => assert_eq!(titles[0], "File:En-us-water.ogg"),
        other => panic!("unexpected {other:?}"),
    }
    match plan.titles_answered(None) {
        FetchAction::Search(query) => assert_eq!(query, lingua_libre_query("water")),
        other => panic!("unexpected {other:?}"),
    }
    let hits = vec!["File:LL-Q1860 (eng)-B-water.wav".to_owned()];
    match plan.search_answered(&hits) {
        FetchAction::TryTitles(titles) => assert_eq!(titles, hits),
        other => panic!("unexpected {other:?}"),
    }
    match plan.titles_answered(Some(found(b"x"))) {
        FetchAction::Done(Some(f)) => assert_eq!(f.audio, b"x"),
        other => panic!("unexpected {other:?}"),
    }
}

#[test]
fn a_lookup_ends_with_nothing_when_nothing_matches() {
    let (_, action) = FetchPlan::start("give up");
    assert!(matches!(action, FetchAction::Done(None)));
    let (mut plan, _) = FetchPlan::start("water");
    let _ = plan.titles_answered(None);
    assert!(matches!(plan.search_answered(&Vec::new()), FetchAction::Done(None)));
    let (mut plan, _) = FetchPlan::start("water");
    assert!(matches!(plan.titles_answered(Some(found(b"y"))), FetchAction::Done(Some(_))));
    let _ = FetchStage::Finished;
}

#[test]
fn the_logic_after_lower_casing_works_on_lowered_text() {
    assert!(licence_name_is_free("cc by-sa 3.0"));
    assert!(licence_name_is_free("pd"));
    assert!(!licence_name_is_free("CC0"));
    assert!(!licence_name_is_free(""));
    assert_eq!(extension_to_store("flac"), "flac");
    assert_eq!(extension_to_store("FLAC"), "ogg");
    assert_eq!(extension_to_store(""), "ogg");
    assert!(hit_names_word("water", "file:ll-q1860 (eng)-b-water.wav"));
    assert!(!hit_names_word("water", "file:ll-q1860 (eng)-b-waterfall.wav"));
}

#[test]
fn found_recordings_compare_by_their_fields() {
    let a = FoundAudio {
        audio: b"x".to_vec(),
        extension: "ogg".to_owned(),
        license: "CC0".to_owned(),
        author: "A".to_owned(),
        page: "p".to_owned(),
    };
    assert_eq!(a.clone(), a);
}
