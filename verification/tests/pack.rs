use qingjian_audio::pack::is_clip_extension;
use qingjian_audio::pack::{
    attribution, clip_word, clips, keep_word, lines_of, pack_items, pack_library, parse_manifest, parse_word_list,
    wanted_clips, BadManifestLine, ClipAudio, Credit, ATTRIBUTION_HEADER,
};
use qingjian_audio::{AudioLibrary, Source};

fn names(list: &[&str]) -> Vec<String> {
    list.iter().map(|s| s.to_string()).collect()
}

/// The clips of a directory listing with their bytes, as the packer reads them in.
fn read_in(listing: &[(&str, &[u8])], allowed: &Option<Vec<String>>) -> Vec<ClipAudio> {
    let files: Vec<String> = listing.iter().map(|(name, _)| name.to_string()).collect();
    wanted_clips(clips(&files), allowed)
        .into_iter()
        .map(|(word, file)| {
            let bytes = listing.iter().find(|(name, _)| *name == file).unwrap().1;
            (word, bytes.to_vec())
        })
        .collect()
}

fn credits_text(library: &AudioLibrary, manifest: &str) -> String {
    let credits = parse_manifest(manifest).unwrap();
    attribution(&library.words(), &credits).0
}

#[test]
fn human_recordings_win_over_synthetic_for_the_same_word() {
    let human = read_in(&[("hello.opus", b"human-hello")], &None);
    let synthetic = read_in(&[("hello.opus", b"synth-hello"), ("kubectl.opus", b"synth-kubectl")], &None);
    let library = pack_library(human, synthetic).unwrap();
    assert_eq!(library.len(), 2);
    let hello = library.get("hello").unwrap();
    assert_eq!(hello.audio, b"human-hello");
    assert_eq!(hello.source, Source::Human);
    assert_eq!(library.get("kubectl").unwrap().source, Source::Synthetic);
}

#[test]
fn word_list_limits_what_gets_packed() {
    // case differs, both the list and the file names are compared in lower case
    let allowed = Some(parse_word_list("Hello\nworld\n"));
    let human = read_in(&[("hello.opus", b"a"), ("world.opus", b"b"), ("rare.opus", b"c")], &allowed);
    let library = pack_library(human, Vec::new()).unwrap();
    assert_eq!(library.len(), 2);
    assert!(library.get("rare").is_none());
}

#[test]
fn a_download_cache_directory_can_be_packed() {
    // the cache holds the raw downloads, not .opus, and its index has one more column, the gain
    let listing: &[(&str, &[u8])] = &[("hello.ogg", b"ogg-bytes"), ("world.wav", b"wav-bytes"), ("index.tsv", b"")];
    let library = pack_library(read_in(listing, &None), Vec::new()).unwrap();
    assert_eq!(library.len(), 2);
    assert_eq!(library.get("hello").unwrap().audio, b"ogg-bytes");
    let credits = credits_text(
        &library,
        "# 词\t文件\t许可证\t作者\t来源页\t增益(dB)\n\
         hello\thello.ogg\tCC BY-SA 3.0\tDvortygirl\thttps://example.org/h\t6.50\n\
         world\tworld.wav\tCC0\tGrendelkhan\thttps://example.org/w\t-2.00\n",
    );
    assert!(credits.contains("| hello | CC BY-SA 3.0 | Dvortygirl |"));
    assert!(credits.contains("| world | CC0 | Grendelkhan |"));
}

#[test]
fn the_word_word_is_still_credited() {
    let library = pack_library(read_in(&[("word.opus", b"a"), ("hello.opus", b"b")], &None), Vec::new()).unwrap();
    let credits = credits_text(
        &library,
        "word\tfile\tlicense\tauthor\tpage\n\
         word\tword.ogg\tCC BY-SA 3.0\tSomebody\thttps://example.org/word\n\
         hello\thello.ogg\tCC0\tAnother\thttps://example.org/hello\n",
    );
    assert!(credits.contains("| word | CC BY-SA 3.0 | Somebody |"));
    assert!(credits.contains("| hello | CC0 | Another |"));
}

#[test]
fn attribution_lists_only_packed_recordings() {
    let human = read_in(&[("hello.opus", b"a")], &None);
    let synthetic = read_in(&[("kubectl.opus", b"b")], &None);
    let library = pack_library(human, synthetic).unwrap();
    let credits = credits_text(
        &library,
        "word\tfile\tlicense\tauthor\tpage\n\
         hello\thello.ogg\tCC BY-SA 3.0\tDvortygirl\thttps://example.org/hello\n\
         absent\tabsent.ogg\tCC0\tSomebody\thttps://example.org/absent\n",
    );
    assert!(credits.contains("| hello | CC BY-SA 3.0 | Dvortygirl |"));
    // recordings not packed are not listed, nor are synthetic ones
    assert!(!credits.contains("absent"));
    assert!(!credits.contains("kubectl"));
}

#[test]
fn the_credits_list_is_the_header_and_one_row_per_credited_word() {
    let credits = parse_manifest("hello\th.ogg\tCC0\tA\tp\nhello\th.ogg\tCC BY 4.0\tB\tq\n").unwrap();
    let (text, count) = attribution(&names(&["hello", "kubectl"]), &credits);
    // the last row of a word counts, as a map filled row by row keeps it
    assert_eq!(text, format!("{ATTRIBUTION_HEADER}| hello | CC BY 4.0 | B | q |\n"));
    assert_eq!(count, 1);
    assert!(ATTRIBUTION_HEADER.ends_with("| --- | --- | --- | --- |\n"));
}

#[test]
fn a_short_manifest_row_is_refused_with_its_line_number() {
    let text = "word\tfile\tlicense\tauthor\tpage\n# note\n\nhello\thello.ogg\tCC0\n";
    assert_eq!(parse_manifest(text).err(), Some(BadManifestLine { line: 4 }));
    // the header is only recognised on the first line
    let text = "hello\th.ogg\tCC0\tA\tp\nword\tfile\n";
    assert_eq!(parse_manifest(text).err(), Some(BadManifestLine { line: 2 }));
}

#[test]
fn manifest_words_are_lower_cased() {
    let credits: Vec<(String, Credit)> = parse_manifest("Hello\th.ogg\tCC0\tA\tp\r\n").unwrap();
    assert_eq!(credits.len(), 1);
    assert_eq!(credits[0].0, "hello");
    assert_eq!(credits[0].1.page, "p");
}

#[test]
fn word_lists_skip_blanks_and_comments_and_take_the_first_column() {
    assert_eq!(
        parse_word_list("# common words\n\n  Apple\t10\nBANANA\r\n   \n"),
        names(&["apple", "banana"])
    );
    let allowed = Some(names(&["apple"]));
    assert!(keep_word(&allowed, "APPLE"));
    assert!(!keep_word(&allowed, "pear"));
    assert!(keep_word(&None, "pear"));
}

#[test]
fn lines_split_as_the_standard_library_splits_them() {
    let as_strings = |text: &str| -> Vec<String> { lines_of(text).iter().map(|l| l.iter().collect()).collect() };
    assert_eq!(as_strings("a\r\nb\n\nc"), names(&["a", "b", "", "c"]));
    assert_eq!(as_strings("a\n"), names(&["a"]));
    assert!(as_strings("").is_empty());
    assert_eq!(as_strings("x\r"), names(&["x\r"]));
}

#[test]
fn only_audio_files_are_clips() {
    assert_eq!(clip_word("Hello.OGG"), Some("hello".to_owned()));
    assert_eq!(clip_word("a.b.flac"), Some("a.b".to_owned()));
    assert_eq!(clip_word("index.tsv"), None);
    assert_eq!(clip_word(".opus"), None);
    assert_eq!(clip_word("README"), None);
}

#[test]
fn clips_are_sorted_whatever_the_listing_order() {
    let found = clips(&names(&["world.wav", "notes.txt", "Apple.opus", "hello.ogg"]));
    let words: Vec<&str> = found.iter().map(|(w, _)| w.as_str()).collect();
    assert_eq!(words, vec!["apple", "hello", "world"]);
    assert_eq!(found[0].1, "Apple.opus");
}

#[test]
fn human_items_come_first() {
    let items = pack_items(vec![("b".to_owned(), b"1".to_vec())], vec![("a".to_owned(), b"2".to_vec())]);
    assert_eq!(items.len(), 2);
    assert_eq!(items[0].1, Source::Human);
    assert_eq!(items[1].1, Source::Synthetic);
    assert_eq!(items[1].0, "a");
}

#[test]
fn credits_are_grouped_by_licence() {
    let credits = parse_manifest("a\ta.ogg\tx\tA\tpa\nb\tb.ogg\ty\tB\tpb\nc\tc.ogg\tx\tC\tpc\n").unwrap();
    let (text, count) = attribution(&names(&["a", "b", "c", "d"]), &credits);
    assert_eq!(
        text,
        format!("{ATTRIBUTION_HEADER}| a | x | A | pa |\n| c | x | C | pc |\n| b | y | B | pb |\n")
    );
    assert_eq!(count, 3);
}

#[test]
fn clip_extensions_are_given_lower_cased() {
    for e in ["opus", "ogg", "oga", "wav", "mp3", "flac"] {
        assert!(is_clip_extension(e));
    }
    assert!(!is_clip_extension("OPUS"));
    assert!(!is_clip_extension("tsv"));
}
