use qingjian_audio::{Codec, Entry, Source};

#[test]
fn codec_codes_round_trip() {
    for codec in [Codec::OpusOgg, Codec::AacM4a] {
        assert_eq!(Codec::from_code(codec.code()), Some(codec));
    }
    assert_eq!(Codec::from_code(7), None);
}

#[test]
fn codes_round_trip() {
    for source in [Source::Human, Source::Synthetic] {
        assert_eq!(Source::from_code(source.code()), Some(source));
    }
    assert_eq!(Source::from_code(9), None);
}

#[test]
fn only_human_recordings_need_attribution() {
    assert!(Source::Human.needs_attribution());
    assert!(!Source::Synthetic.needs_attribution());
}

#[test]
fn entry_is_sixteen_bytes_without_padding() {
    assert_eq!(std::mem::size_of::<Entry>(), 16);
}

#[test]
fn codes_are_the_written_numbers() {
    assert_eq!(Codec::OpusOgg.code(), 0);
    assert_eq!(Codec::AacM4a.code(), 1);
    assert_eq!(Source::Human.code(), 0);
    assert_eq!(Source::Synthetic.code(), 1);
    assert_eq!(Codec::from_code(2), None);
    assert_eq!(Source::from_code(2), None);
}

#[test]
fn codec_extensions_and_source_labels() {
    assert_eq!(Codec::OpusOgg.extension(), "opus");
    assert_eq!(Codec::AacM4a.extension(), "m4a");
    assert_eq!(Source::Human.label(), "真人录音");
    assert_eq!(Source::Synthetic.label(), "合成发音");
}
