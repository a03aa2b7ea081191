use vstd::prelude::*;

verus! {

/// Audio encoding. The codes are written into files: never renumber them.
#[derive(Debug, Clone, Copy, PartialEq, Eq, Structural, Hash)]
pub enum Codec {
    /// Opus in an Ogg container (`.opus`): the smallest of the packagings measured.
    OpusOgg,
    /// AAC in M4A: the fallback when Opus cannot be played.
    AacM4a,
}

impl Codec {
    /// The code stored in files for this codec.
    pub open spec fn spec_code(self) -> u8 {
        match self {
            Codec::OpusOgg => 0,
            Codec::AacM4a => 1,
        }
    }

    /// The codec stored under `code`, if any.
    pub open spec fn spec_from_code(code: u8) -> Option<Codec> {
        if code == 0 {
            Some(Codec::OpusOgg)
        } else if code == 1 {
            Some(Codec::AacM4a)
        } else {
            None
        }
    }

    pub fn from_code(code: u8) -> (res: Option<Self>)
        ensures
            res == Self::spec_from_code(code),
    {
        match code {
            0 => Some(Codec::OpusOgg),
            1 => Some(Codec::AacM4a),
            _ => None,
        }
    }

    pub fn code(self) -> (res: u8)
        ensures
            res == self.spec_code(),
    {
        match self {
            Codec::OpusOgg => 0,
            Codec::AacM4a => 1,
        }
    }

    /// File extension used when the clips are generated; the packer recognises files by it.
    pub fn extension(self) -> (res: &'static str)
        ensures
            self == Codec::OpusOgg ==> res@ == "opus"@,
            self == Codec::AacM4a ==> res@ == "m4a"@,
    {
        match self {
            Codec::OpusOgg => "opus",
            Codec::AacM4a => "m4a",
        }
    }
}

/// Decoding a stored code gives back the codec it was written from.
pub proof fn lemma_codec_code_round_trip(codec: Codec)
    ensures
        Codec::spec_from_code(codec.spec_code()) == Some(codec),
{
}

/// A code decodes to a codec exactly when it is one of the two written codes, and then
/// encoding that codec gives back the code.
pub proof fn lemma_codec_codes_are_exact(code: u8)
    ensures
        Codec::spec_from_code(code) is Some <==> code < 2,
        Codec::spec_from_code(code) matches Some(c) ==> c.spec_code() == code,
{
}

/// Where one pronunciation lies: its word in the word arena and its audio in the blob.
/// Sixteen bytes without padding when stored.
#[derive(Debug, Clone, Copy)]
pub struct Entry {
    /// Byte offset of the (lower-case) word in the word arena.
    pub word_start: u32,
    /// Byte offset of the audio in the blob.
    pub audio_start: u32,
    /// Number of audio bytes.
    pub audio_len: u32,
    /// Byte length of the word.
    pub word_len: u16,
    /// [`Codec`] code.
    pub codec: u8,
    /// [`crate::Source`] code.
    pub source: u8,
}

} // verus!
