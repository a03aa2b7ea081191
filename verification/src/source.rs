use vstd::prelude::*;

verus! {

/// Where a pronunciation comes from. The codes are written into files: never renumber them.
#[derive(Debug, Clone, Copy, PartialEq, Eq, Structural, Hash)]
pub enum Source {
    /// A human recording (Wikimedia Commons / Lingua Libre, CC-BY-SA or CC0).
    Human,
    /// A local synthesis (Kokoro-82M, Apache-2.0).
    Synthetic,
}

impl Source {
    /// The code stored in files for this source.
    pub open spec fn spec_code(self) -> u8 {
        match self {
            Source::Human => 0,
            Source::Synthetic => 1,
        }
    }

    /// The source stored under `code`, if any.
    pub open spec fn spec_from_code(code: u8) -> Option<Source> {
        if code == 0 {
            Some(Source::Human)
        } else if code == 1 {
            Some(Source::Synthetic)
        } else {
            None
        }
    }

    pub fn from_code(code: u8) -> (res: Option<Self>)
        ensures
            res == Self::spec_from_code(code),
    {
        match code {
            0 => Some(Source::Human),
            1 => Some(Source::Synthetic),
            _ => None,
        }
    }

    pub fn code(self) -> (res: u8)
        ensures
            res == self.spec_code(),
    {
        match self {
            Source::Human => 0,
            Source::Synthetic => 1,
        }
    }

    /// One word shown to the user.
    pub fn label(self) -> (res: &'static str)
        ensures
            self == Source::Human ==> res@ == "真人录音"@,
            self == Source::Synthetic ==> res@ == "合成发音"@,
    {
        match self {
            Source::Human => "真人录音",
            Source::Synthetic => "合成发音",
        }
    }

    /// Whether the recording must be listed in the credits (CC-BY-SA asks for attribution,
    /// the Apache-2.0 synthesis does not).
    pub fn needs_attribution(self) -> (res: bool)
        ensures
            res == (self == Source::Human),
    {
        matches!(self, Source::Human)
    }
}

/// Decoding a stored code gives back the source it was written from.
pub proof fn lemma_source_code_round_trip(source: Source)
    ensures
        Source::spec_from_code(source.spec_code()) == Some(source),
{
}

/// A code decodes to a source exactly when it is one of the two written codes, and then
/// encoding that source gives back the code.
pub proof fn lemma_source_codes_are_exact(code: u8)
    ensures
        Source::spec_from_code(code) is Some <==> code < 2,
        Source::spec_from_code(code) matches Some(s) ==> s.spec_code() == code,
{
}

} // verus!
