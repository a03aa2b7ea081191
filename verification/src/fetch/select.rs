use vstd::prelude::*;

use super::clean::{extension_of, license_allowed, license_is_free, plain_text, strip_html, url_extension};
use super::found::FoundAudio;
use super::MAX_AUDIO_BYTES;
use crate::text::{chars_of, has_suffix, str_eq, to_lowercase, word_key, word_key_of, lowercase_of};

verus! {

/// An ASCII letter.
pub open spec fn is_ascii_letter(c: char) -> bool {
    ('a' <= c <= 'z') || ('A' <= c <= 'Z')
}

/// The word that is worth asking Commons for: the trimmed, lower-cased word when it is a single
/// word of ASCII letters (phrases and words with apostrophes follow no naming rule).
pub open spec fn spec_fetchable_word(word: Seq<char>) -> Option<Seq<char>> {
    let k = word_key(word);
    if k.len() > 0 && forall|i: int| 0 <= i < k.len() ==> is_ascii_letter(#[trigger] k[i]) {
        Some(k)
    } else {
        None
    }
}

/// Which words are asked for: exactly those whose trimmed, lower-cased form is not empty and
/// made of the ASCII letters `a`–`z` and `A`–`Z` alone, whatever their length; what is asked for
/// is that form.
pub proof fn lemma_fetchable_words(word: Seq<char>)
    ensures
        spec_fetchable_word(word) is Some <==> {
            &&& word_key(word).len() > 0
            &&& forall|i: int|
                0 <= i < word_key(word).len() ==> ('a' <= #[trigger] word_key(word)[i] <= 'z') || ('A'
                    <= word_key(word)[i] <= 'Z')
        },
        spec_fetchable_word(word) matches Some(k) ==> k == word_key(word),
{
}

/// The normalised word to ask for, or `None` when asking would be a wasted request.
pub fn fetchable_word(word: &str) -> (res: Option<String>)
    ensures
        res is Some <==> spec_fetchable_word(word@) is Some,
        res matches Some(w) ==> Some(w@) == spec_fetchable_word(word@),
{
    let key = word_key_of(word);
    let chars = chars_of(key.as_str());
    if chars.len() == 0 {
        return None;
    }
    let mut i: usize = 0;
    while i < chars.len()
        invariant
            chars@ == key@,
            key@ == word_key(word@),
            i <= chars@.len(),
            forall|k: int| 0 <= k < i ==> is_ascii_letter(#[trigger] chars@[k]),
        decreases chars@.len() - i,
    {
        let c = chars[i];
        if !(('a' <= c && c <= 'z') || ('A' <= c && c <= 'Z')) {
            assert(chars@[i as int] == c);
            assert(!is_ascii_letter(word_key(word@)[i as int]));
            return None;
        }
        i = i + 1;
    }
    Some(key)
}

/// The file titles tried for a word, US recordings first: `File:En-us-<w>.ogg`,
/// `File:En-us-<w>.wav`, `File:En-uk-<w>.ogg`, `File:En-gb-<w>.ogg`.
pub open spec fn spec_candidate_titles(word: Seq<char>) -> Seq<Seq<char>> {
    seq![
        "File:En-us-"@ + word + ".ogg"@,
        "File:En-us-"@ + word + ".wav"@,
        "File:En-uk-"@ + word + ".ogg"@,
        "File:En-gb-"@ + word + ".ogg"@,
    ]
}

/// The views of a list of strings.
pub open spec fn views(v: Seq<String>) -> Seq<Seq<char>> {
    v.map_values(|s: String| s@)
}

fn title(prefix: &str, word: &str, suffix: &str) -> (res: String)
    ensures
        res@ == prefix@ + word@ + suffix@,
{
    prefix.to_owned().concat(word).concat(suffix)
}

/// The file titles to ask for, in order of preference.
pub fn candidate_titles(word: &str) -> (res: Vec<String>)
    ensures
        views(res@) == spec_candidate_titles(word@),
{
    let mut titles: Vec<String> = Vec::new();
    titles.push(title("File:En-us-", word, ".ogg"));
    titles.push(title("File:En-us-", word, ".wav"));
    titles.push(title("File:En-uk-", word, ".ogg"));
    titles.push(title("File:En-gb-", word, ".ogg"));
    assert(views(titles@) =~= spec_candidate_titles(word@));
    titles
}

/// What the Commons answer says of one file page, as far as choosing a recording needs it.
#[derive(Debug, Clone)]
pub struct CommonsPage {
    /// The page title, such as `File:En-us-hello.ogg`.
    pub title: String,
    /// The answer marks the page as missing.
    pub missing: bool,
    /// The first image-info record of the page, if it has one.
    pub file: Option<CommonsFile>,
}

/// The image-info record of a file page.
#[derive(Debug, Clone)]
pub struct CommonsFile {
    /// `extmetadata.LicenseShortName.value` as given (empty when absent).
    pub license: String,
    /// `extmetadata.Artist.value` as given (empty when absent).
    pub artist: String,
    /// The file URL, if given.
    pub url: Option<String>,
    /// The file size in bytes, if given.
    pub size: Option<u64>,
    /// The description page URL (empty when absent).
    pub description_url: String,
}

/// A recording that may be downloaded: where it is and how it is credited.
#[derive(Debug, Clone)]
pub struct Offer {
    pub url: String,
    pub extension: String,
    pub license: String,
    pub author: String,
    pub page: String,
}

/// The contents of an [`Offer`].
pub struct OfferView {
    pub url: Seq<char>,
    pub extension: Seq<char>,
    pub license: Seq<char>,
    pub author: Seq<char>,
    pub page: Seq<char>,
}

impl View for Offer {
    type V = OfferView;

    open spec fn view(&self) -> OfferView {
        OfferView {
            url: self.url@,
            extension: self.extension@,
            license: self.license@,
            author: self.author@,
            page: self.page@,
        }
    }
}

/// The first page of the answer with the given title.
pub open spec fn first_page(title: Seq<char>, pages: Seq<CommonsPage>) -> Option<CommonsPage>
    decreases pages.len(),
{
    if pages.len() == 0 {
        None
    } else if pages[0].title@ == title {
        Some(pages[0])
    } else {
        first_page(title, pages.drop_first())
    }
}

/// What a page offers: nothing when it is missing, has no file, carries a licence off the
/// whitelist, gives no URL, or is larger than [`MAX_AUDIO_BYTES`]; otherwise its URL, the
/// extension of the URL, and the credits with tags stripped.
pub open spec fn page_offer(page: CommonsPage) -> Option<OfferView> {
    if page.missing {
        None
    } else {
        match page.file {
            None => None,
            Some(f) => {
                let license = plain_text(f.license@);
                if !license_is_free(license) {
                    None
                } else {
                    match f.url {
                        None => None,
                        Some(url) => {
                            if f.size matches Some(size) && size > MAX_AUDIO_BYTES {
                                None
                            } else {
                                Some(
                                    OfferView {
                                        url: url@,
                                        extension: url_extension(url@),
                                        license,
                                        author: plain_text(f.artist@),
                                        page: f.description_url@,
                                    },
                                )
                            }
                        },
                    }
                }
            },
        }
    }
}

/// The offers of the answer, taken in the order of `titles` (not in the answer's own order,
/// which would put UK recordings before US ones).
pub open spec fn offers(titles: Seq<Seq<char>>, pages: Seq<CommonsPage>) -> Seq<OfferView>
    decreases titles.len(),
{
    if titles.len() == 0 {
        Seq::empty()
    } else {
        let rest = offers(titles.drop_last(), pages);
        match first_page(titles.last(), pages) {
            Some(page) => match page_offer(page) {
                Some(o) => rest.push(o),
                None => rest,
            },
            None => rest,
        }
    }
}

/// The views of a list of offers.
pub open spec fn offer_views(v: Seq<Offer>) -> Seq<OfferView> {
    v.map_values(|o: Offer| o@)
}

proof fn lemma_first_page(title: Seq<char>, pages: Seq<CommonsPage>, j: int)
    requires
        0 <= j <= pages.len(),
        forall|k: int| 0 <= k < j ==> (#[trigger] pages[k]).title@ != title,
        j < pages.len() ==> pages[j].title@ == title,
    ensures
        first_page(title, pages) == if j < pages.len() {
            Some(pages[j])
        } else {
            None::<CommonsPage>
        },
    decreases j,
{
    if j > 0 {
        let t = pages.drop_first();
        assert forall|k: int| 0 <= k < j - 1 implies (#[trigger] t[k]).title@ != title by {
            assert(t[k] == pages[k + 1]);
        }
        assert(pages[0].title@ != title);
        lemma_first_page(title, t, j - 1);
        if j < pages.len() {
            assert(t[j - 1] == pages[j]);
        }
    }
}

/// The index of the first page titled `title`.
fn find_page(title: &String, pages: &Vec<CommonsPage>) -> (res: Option<usize>)
    ensures
        res matches Some(j) ==> j < pages@.len() && first_page(title@, pages@) == Some(pages@[j as int]),
        res is None ==> first_page(title@, pages@) is None,
{
    let mut j: usize = 0;
    while j < pages.len()
        invariant
            j <= pages@.len(),
            forall|k: int| 0 <= k < j ==> (#[trigger] pages@[k]).title@ != title@,
        decreases pages@.len() - j,
    {
        if str_eq(pages[j].title.as_str(), title.as_str()) {
            proof {
                lemma_first_page(title@, pages@, j as int);
            }
            return Some(j);
        }
        j = j + 1;
    }
    proof {
        lemma_first_page(title@, pages@, j as int);
    }
    None
}

/// The offer of one page, if any.
fn offer_of(page: &CommonsPage) -> (res: Option<Offer>)
    ensures
        match res {
            Some(o) => page_offer(*page) == Some(o@),
            None => page_offer(*page) is None,
        },
{
    if page.missing {
        return None;
    }
    let file = match &page.file {
        Some(file) => file,
        None => return None,
    };
    let license = strip_html(file.license.as_str());
    if !license_allowed(license.as_str()) {
        return None;
    }
    let url = match &file.url {
        Some(url) => url,
        None => return None,
    };
    // long recordings are not word pronunciations (some entries are whole readings)
    if let Some(size) = file.size {
        if size > MAX_AUDIO_BYTES {
            return None;
        }
    }
    let offer = Offer {
        url: url.clone(),
        extension: extension_of(url.as_str()),
        license,
        author: strip_html(file.artist.as_str()),
        page: file.description_url.clone(),
    };
    Some(offer)
}

/// The recordings the answer offers, in the order of `titles`: the caller downloads them in
/// turn and keeps the first that is not empty.
pub fn pick_offers(titles: &Vec<String>, pages: &Vec<CommonsPage>) -> (res: Vec<Offer>)
    ensures
        offer_views(res@) == offers(views(titles@), pages@),
{
    let mut out: Vec<Offer> = Vec::new();
    let mut i: usize = 0;
    while i < titles.len()
        invariant
            i <= titles@.len(),
            offer_views(out@) == offers(views(titles@).take(i as int), pages@),
        decreases titles@.len() - i,
    {
        let ghost tv = views(titles@).take(i + 1);
        assert(tv.drop_last() =~= views(titles@).take(i as int));
        assert(tv.last() == titles@[i as int]@);
        match find_page(&titles[i], pages) {
            Some(j) => {
                match offer_of(&pages[j]) {
                    Some(o) => {
                        out.push(o);
                        assert(offer_views(out@) =~= offers(tv.drop_last(), pages@).push(o@));
                    },
                    None => {},
                }
            },
            None => {},
        }
        i = i + 1;
    }
    assert(views(titles@).take(titles@.len() as int) =~= views(titles@));
    out
}

impl Offer {
    /// The found recording: this offer's credits with the downloaded bytes.
    pub fn into_found(self, audio: Vec<u8>) -> (res: FoundAudio)
        ensures
            res.audio@ == audio@,
            res.extension@ == self.extension@,
            res.license@ == self.license@,
            res.author@ == self.author@,
            res.page@ == self.page@,
    {
        FoundAudio {
            audio,
            extension: self.extension,
            license: self.license,
            author: self.author,
            page: self.page,
        }
    }
}

impl Offer {
    /// What a download of this offer gives: the found recording, or `None` when nothing usable
    /// came (an empty body, as an oversized one is cut to), so the next offer is tried.
    pub fn accept(self, audio: Vec<u8>) -> (res: Option<FoundAudio>)
        ensures
            audio@.len() == 0 ==> res is None,
            audio@.len() > 0 ==> (res matches Some(f) && f.audio@ == audio@ && f.extension@ == self.extension@
                && f.license@ == self.license@ && f.author@ == self.author@ && f.page@ == self.page@),
    {
        if audio.len() == 0 {
            None
        } else {
            Some(self.into_found(audio))
        }
    }
}

/// The search text that finds the Lingua Libre recordings of `word`.
pub open spec fn spec_lingua_libre_query(word: Seq<char>) -> Seq<char> {
    "intitle:\"LL-Q1860 (eng)\" intitle:\""@ + word + "\" filetype:audio"@
}

/// The search that finds Lingua Libre recordings of a word (their titles carry the speaker's
/// name, so they can only be searched for).
pub fn lingua_libre_query(word: &str) -> (res: String)
    ensures
        res@ == spec_lingua_libre_query(word@),
{
    title("intitle:\"LL-Q1860 (eng)\" intitle:\"", word, "\" filetype:audio")
}

/// A search hit is taken only when its lower-cased title ends exactly with `-<word>.wav`: the
/// search is fuzzy, `water` also finds `waterfall`.
pub open spec fn hit_matches(word: Seq<char>, hit: Seq<char>) -> bool {
    names_word(word, lowercase_of(hit))
}

/// A lower-cased title names `word` exactly: it ends with `-<word>.wav`.
pub open spec fn names_word(word: Seq<char>, lowered: Seq<char>) -> bool {
    ("-"@ + word + ".wav"@).is_suffix_of(lowered)
}

/// Whether a lower-cased search hit names `word` exactly (see [`names_word`]).
pub fn hit_names_word(word: &str, lowered: &str) -> (res: bool)
    ensures
        res == names_word(word@, lowered@),
{
    let suffix = chars_of(title("-", word, ".wav").as_str());
    has_suffix(&chars_of(lowered), &suffix)
}

/// The first hit that matches the word.
pub open spec fn first_hit(word: Seq<char>, hits: Seq<Seq<char>>) -> Option<Seq<char>>
    decreases hits.len(),
{
    if hits.len() == 0 {
        None
    } else if hit_matches(word, hits[0]) {
        Some(hits[0])
    } else {
        first_hit(word, hits.drop_first())
    }
}

proof fn lemma_first_hit(word: Seq<char>, hits: Seq<Seq<char>>, j: int)
    requires
        0 <= j <= hits.len(),
        forall|k: int| 0 <= k < j ==> !hit_matches(word, #[trigger] hits[k]),
        j < hits.len() ==> hit_matches(word, hits[j]),
    ensures
        first_hit(word, hits) == if j < hits.len() {
            Some(hits[j])
        } else {
            None::<Seq<char>>
        },
    decreases j,
{
    if j > 0 {
        let t = hits.drop_first();
        assert forall|k: int| 0 <= k < j - 1 implies !hit_matches(word, #[trigger] t[k]) by {
            assert(t[k] == hits[k + 1]);
        }
        assert(!hit_matches(word, hits[0]));
        lemma_first_hit(word, t, j - 1);
        if j < hits.len() {
            assert(t[j - 1] == hits[j]);
        }
    }
}

/// The Lingua Libre title taken is a hit whose lower-cased title ends exactly with
/// `-<word>.wav`, and no earlier hit does; with no such hit, none is taken.
pub proof fn lemma_lingua_libre_hit(word: Seq<char>, hits: Seq<Seq<char>>)
    ensures
        match first_hit(word, hits) {
            Some(t) => exists|j: int|
                0 <= j < hits.len() && hits[j] == t && ("-"@ + word + ".wav"@).is_suffix_of(lowercase_of(hits[j]))
                    && forall|k: int|
                    0 <= k < j ==> !("-"@ + word + ".wav"@).is_suffix_of(lowercase_of(#[trigger] hits[k])),
            None => forall|k: int|
                0 <= k < hits.len() ==> !("-"@ + word + ".wav"@).is_suffix_of(lowercase_of(#[trigger] hits[k])),
        },
    decreases hits.len(),
{
    if hits.len() > 0 {
        let t = hits.drop_first();
        lemma_lingua_libre_hit(word, t);
        if !hit_matches(word, hits[0]) {
            match first_hit(word, t) {
                Some(x) => {
                    let j = choose|j: int|
                        0 <= j < t.len() && t[j] == x && ("-"@ + word + ".wav"@).is_suffix_of(lowercase_of(t[j]))
                            && forall|k: int|
                            0 <= k < j ==> !("-"@ + word + ".wav"@).is_suffix_of(lowercase_of(#[trigger] t[k]));
                    assert(hits[j + 1] == t[j]);
                    assert forall|k: int| 0 <= k < j + 1 implies !("-"@ + word + ".wav"@).is_suffix_of(
                        lowercase_of(#[trigger] hits[k]),
                    ) by {
                        if k > 0 {
                            assert(hits[k] == t[k - 1]);
                        }
                    }
                },
                None => {
                    assert forall|k: int| 0 <= k < hits.len() implies !("-"@ + word + ".wav"@).is_suffix_of(
                        lowercase_of(#[trigger] hits[k]),
                    ) by {
                        if k > 0 {
                            assert(hits[k] == t[k - 1]);
                        }
                    }
                },
            }
        }
    }
}

/// The title of the Lingua Libre recording of `word` among the search hits, if any.
pub fn pick_lingua_libre(word: &str, hits: &Vec<String>) -> (res: Option<String>)
    ensures
        match res {
            Some(t) => first_hit(word@, views(hits@)) == Some(t@),
            None => first_hit(word@, views(hits@)) is None,
        },
{
    let mut j: usize = 0;
    while j < hits.len()
        invariant
            j <= hits@.len(),
            forall|k: int| 0 <= k < j ==> !hit_matches(word@, #[trigger] views(hits@)[k]),
        decreases hits@.len() - j,
    {
        let lowered = to_lowercase(hits[j].as_str());
        if hit_names_word(word, lowered.as_str()) {
            proof {
                lemma_first_hit(word@, views(hits@), j as int);
            }
            return Some(hits[j].clone());
        }
        j = j + 1;
    }
    proof {
        lemma_first_hit(word@, views(hits@), j as int);
    }
    None
}

} // verus!
