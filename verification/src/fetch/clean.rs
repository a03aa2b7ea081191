use vstd::prelude::*;

use crate::text::{
    ascii_lowered, chars_eq, chars_of, has_prefix, is_ascii_text, is_space, join_words, lowercase_of, single_line,
    squash, squash_chars, string_of, to_lowercase, trim, word_key, word_key_of, words,
};

verus! {

/// Whether a tag is open at the end of `s`: its last `<` comes after its last `>`.
pub open spec fn inside_tag(s: Seq<char>) -> bool
    decreases s.len(),
{
    if s.len() == 0 {
        false
    } else if s.last() == '<' {
        true
    } else if s.last() == '>' {
        false
    } else {
        inside_tag(s.drop_last())
    }
}

/// `s` with everything from a `<` to the next `>` removed and each `>` turned into a space.
pub open spec fn untag(s: Seq<char>) -> Seq<char>
    decreases s.len(),
{
    if s.len() == 0 {
        Seq::empty()
    } else {
        let prev = untag(s.drop_last());
        let c = s.last();
        if c == '<' {
            prev
        } else if c == '>' {
            prev.push(' ')
        } else if inside_tag(s.drop_last()) {
            prev
        } else {
            prev.push(c)
        }
    }
}

/// A credit field as stored: tags removed, whitespace collapsed onto one line.
pub open spec fn plain_text(s: Seq<char>) -> Seq<char> {
    squash(untag(s))
}

/// Untagging text without angle brackets: kept as it is outside a tag, dropped inside one.
proof fn lemma_untag_plain(p: Seq<char>, t: Seq<char>)
    requires
        forall|i: int| 0 <= i < t.len() ==> #[trigger] t[i] != '<' && t[i] != '>',
    ensures
        untag(p + t) == untag(p) + (if inside_tag(p) {
            Seq::<char>::empty()
        } else {
            t
        }),
        inside_tag(p + t) == inside_tag(p),
    decreases t.len(),
{
    if t.len() == 0 {
        assert(p + t =~= p);
    } else {
        let t0 = t.drop_last();
        lemma_untag_plain(p, t0);
        assert((p + t).drop_last() =~= p + t0);
        assert((p + t).last() == t.last());
        assert(t[t.len() - 1] == t.last());
        if !inside_tag(p) {
            assert(untag(p) + t0.push(t.last()) =~= untag(p) + t);
            assert((untag(p) + t0).push(t.last()) =~= untag(p) + t);
        }
    }
}

/// Words without whitespace make one word.
proof fn lemma_words_single(a: Seq<char>)
    requires
        a.len() > 0,
        forall|i: int| 0 <= i < a.len() ==> !is_space(#[trigger] a[i]),
    ensures
        words(a) == seq![a],
    decreases a.len(),
{
    let a0 = a.drop_last();
    assert(!is_space(a[a.len() - 1]));
    if a.len() == 1 {
        assert(a0 =~= Seq::<char>::empty());
        assert(words(a0) == Seq::<Seq<char>>::empty());
        assert(a =~= seq![a.last()]);
        assert(words(a) == words(a0).push(seq![a.last()]));
    } else {
        assert forall|i: int| 0 <= i < a0.len() implies !is_space(#[trigger] a0[i]) by {
            assert(a0[i] == a[i]);
        }
        lemma_words_single(a0);
        assert(a[a.len() - 2] == a0[a0.len() - 1]);
        assert(!is_space(a[a.len() - 2]));
        assert(words(a) == words(a0).update(0, a0.push(a.last())));
        assert(a0.push(a.last()) =~= a);
        assert(seq![a0].update(0, a0.push(a.last())) =~= seq![a]);
    }
}

/// Two words without whitespace, separated by one space, are two words.
proof fn lemma_words_pair(a: Seq<char>, b: Seq<char>)
    requires
        a.len() > 0,
        b.len() > 0,
        forall|i: int| 0 <= i < a.len() ==> !is_space(#[trigger] a[i]),
        forall|i: int| 0 <= i < b.len() ==> !is_space(#[trigger] b[i]),
    ensures
        words(a.push(' ') + b) == seq![a, b],
    decreases b.len(),
{
    let s = a.push(' ') + b;
    let b0 = b.drop_last();
    assert(is_space(' '));
    assert(!is_space(b[b.len() - 1]));
    assert(s.last() == b.last());
    assert(s.drop_last() =~= a.push(' ') + b0);
    if b.len() == 1 {
        lemma_words_single(a);
        assert(a.push(' ') + b0 =~= a.push(' '));
        let sp = a.push(' ');
        assert(sp.drop_last() =~= a);
        assert(words(sp) == words(a));
        assert(s[s.len() - 2] == ' ');
        assert(words(s) == words(sp).push(seq![b.last()]));
        assert(b =~= seq![b.last()]);
        assert(seq![a].push(seq![b.last()]) =~= seq![a, b]);
    } else {
        assert forall|i: int| 0 <= i < b0.len() implies !is_space(#[trigger] b0[i]) by {
            assert(b0[i] == b[i]);
        }
        lemma_words_pair(a, b0);
        assert(s[s.len() - 2] == b[b.len() - 2]);
        assert(!is_space(b[b.len() - 2]));
        assert(words(s) == words(a.push(' ') + b0).update(1, b0.push(b.last())));
        assert(b0.push(b.last()) =~= b);
        assert(seq![a, b0].update(1, b0.push(b.last())) =~= seq![a, b]);
    }
}

/// A tag is a word break: text on either side of a tag, with no whitespace or angle brackets of
/// its own, comes out of [`strip_html`] as the two texts with one space between them, whatever
/// the tag holds.
pub proof fn lemma_a_tag_separates_words(a: Seq<char>, tag: Seq<char>, b: Seq<char>)
    requires
        a.len() > 0,
        b.len() > 0,
        forall|i: int| 0 <= i < a.len() ==> !is_space(#[trigger] a[i]) && a[i] != '<' && a[i] != '>',
        forall|i: int| 0 <= i < b.len() ==> !is_space(#[trigger] b[i]) && b[i] != '<' && b[i] != '>',
        forall|i: int| 0 <= i < tag.len() ==> #[trigger] tag[i] != '<' && tag[i] != '>',
    ensures
        plain_text(a + seq!['<'] + tag + seq!['>'] + b) == a + seq![' '] + b,
{
    let e = Seq::<char>::empty();
    assert(untag(e) == e && !inside_tag(e));
    lemma_untag_plain(e, a);
    assert(e + a =~= a);
    assert(untag(a) == a && !inside_tag(a));
    let x1 = a.push('<');
    assert(x1.drop_last() =~= a);
    assert(x1.last() == '<');
    assert(untag(x1) == a && inside_tag(x1));
    lemma_untag_plain(x1, tag);
    let x2 = x1 + tag;
    assert(untag(x2) =~= a && inside_tag(x2));
    let x3 = x2.push('>');
    assert(x3.drop_last() =~= x2);
    assert(x3.last() == '>');
    assert(untag(x3) == a.push(' ') && !inside_tag(x3));
    lemma_untag_plain(x3, b);
    assert(a + seq!['<'] + tag + seq!['>'] + b =~= x3 + b);
    assert(untag(x3 + b) =~= a.push(' ') + b);
    lemma_words_pair(a, b);
    let ws = seq![a, b];
    assert(ws.drop_last() =~= seq![a]);
    assert(join_words(seq![a]) == a);
    assert(join_words(ws) == join_words(ws.drop_last()).push(' ') + ws.last());
    assert(a.push(' ') + b =~= a + seq![' '] + b);
}

/// Strips HTML tags and collapses whitespace into single spaces (author fields often hold
/// `<a>` links and line breaks).
pub fn strip_html(text: &str) -> (res: String)
    ensures
        res@ == plain_text(text@),
        single_line(res@),
        !res@.contains('<'),
        !res@.contains('>'),
{
    let chars = chars_of(text);
    let n = chars.len();
    let mut out: Vec<char> = Vec::new();
    let mut in_tag = false;
    let mut i: usize = 0;
    while i < n
        invariant
            n == chars@.len(),
            chars@ == text@,
            i <= n,
            out@ == untag(chars@.take(i as int)),
            in_tag == inside_tag(chars@.take(i as int)),
            !out@.contains('<'),
            !out@.contains('>'),
        decreases n - i,
    {
        let c = chars[i];
        let ghost t = chars@.take(i + 1);
        assert(t.drop_last() =~= chars@.take(i as int));
        assert(t.last() == c);
        if c == '<' {
            in_tag = true;
        } else if c == '>' {
            in_tag = false;
            out.push(' ');
        } else if !in_tag {
            out.push(c);
        }
        assert forall|k: int| 0 <= k < out@.len() implies out@[k] != '<' && out@[k] != '>' by {
            if k < out@.len() - 1 || out@.len() == untag(chars@.take(i as int)).len() {
            }
        }
        i = i + 1;
    }
    assert(chars@.take(n as int) =~= chars@);
    let squashed = squash_chars(&out);
    assert forall|k: int| 0 <= k < squashed@.len() implies squashed@[k] != '<' && squashed@[k]
        != '>' by {
        if squashed@[k] != ' ' {
            assert(out@.contains(squashed@[k]));
        }
    }
    string_of(&squashed)
}

/// Whether a trimmed, lower-cased licence short name is one of the accepted free licences: it
/// is not empty and starts with `cc0`, `cc by`, `cc-by`, `public domain`, `pd` or `cc pd`. All of
/// them allow redistribution; the CC-BY family asks for credit.
pub open spec fn free_licence_name(n: Seq<char>) -> bool {
    &&& n.len() > 0
    &&& {
        ||| "cc0"@.is_prefix_of(n)
        ||| "cc by"@.is_prefix_of(n)
        ||| "cc-by"@.is_prefix_of(n)
        ||| "public domain"@.is_prefix_of(n)
        ||| "pd"@.is_prefix_of(n)
        ||| "cc pd"@.is_prefix_of(n)
    }
}

/// Whether a licence short name is one of the accepted free licences once trimmed and
/// lower-cased.
pub open spec fn license_is_free(license: Seq<char>) -> bool {
    free_licence_name(word_key(license))
}

/// Whether a trimmed, lower-cased licence short name is on the whitelist.
pub fn licence_name_is_free(normalized: &str) -> (res: bool)
    ensures
        res == free_licence_name(normalized@),
{
    let n = chars_of(normalized);
    if n.len() == 0 {
        return false;
    }
    has_prefix(&n, &chars_of("cc0")) || has_prefix(&n, &chars_of("cc by")) || has_prefix(&n, &chars_of("cc-by"))
        || has_prefix(&n, &chars_of("public domain")) || has_prefix(&n, &chars_of("pd")) || has_prefix(
        &n,
        &chars_of("cc pd"),
    )
}

/// Whether the licence is on the whitelist.
pub fn license_allowed(license: &str) -> (res: bool)
    ensures
        res == license_is_free(license@),
        is_ascii_text(trim(license@)) ==> res == free_licence_name(ascii_lowered(trim(license@))),
{
    let normalized = word_key_of(license);
    licence_name_is_free(normalized.as_str())
}

/// `s` up to (not including) its first `?` or `#`: a URL without query string and fragment.
pub open spec fn before_query(s: Seq<char>) -> Seq<char>
    decreases s.len(),
{
    if s.len() == 0 {
        s
    } else if s[0] == '?' || s[0] == '#' {
        Seq::empty()
    } else {
        seq![s[0]] + before_query(s.drop_first())
    }
}

/// The part of `s` after its last `c`; all of `s` when it holds no `c`.
pub open spec fn after_last(s: Seq<char>, c: char) -> Seq<char>
    decreases s.len(),
{
    if s.len() == 0 {
        s
    } else if s.last() == c {
        Seq::empty()
    } else {
        after_last(s.drop_last(), c).push(s.last())
    }
}

/// The extension of a file name: what follows its last dot, empty without a dot.
pub open spec fn raw_extension(name: Seq<char>) -> Seq<char> {
    if name.contains('.') {
        after_last(name, '.')
    } else {
        Seq::empty()
    }
}

/// The audio extensions kept as they are.
pub open spec fn known_extension(e: Seq<char>) -> bool {
    ||| e == "ogg"@
    ||| e == "oga"@
    ||| e == "wav"@
    ||| e == "mp3"@
    ||| e == "flac"@
    ||| e == "opus"@
}

/// The extension a downloaded file is stored under: the lower-cased extension of the last path
/// segment of the URL (query string and fragment ignored) when it is a known audio extension,
/// `ogg` otherwise.
pub open spec fn url_extension(url: Seq<char>) -> Seq<char> {
    stored_extension(lowercase_of(raw_extension(after_last(before_query(url), '/'))))
}

/// The extension a file is stored under, given its lower-cased extension: that extension when it
/// is a known audio extension, `ogg` otherwise.
pub open spec fn stored_extension(e: Seq<char>) -> Seq<char> {
    if known_extension(e) {
        e
    } else {
        "ogg"@
    }
}

/// The extension a file is stored under, given its lower-cased extension (see
/// [`stored_extension`]).
pub fn extension_to_store(lowered: &str) -> (res: String)
    ensures
        res@ == stored_extension(lowered@),
{
    let e = chars_of(lowered);
    if chars_eq(&e, &chars_of("ogg")) || chars_eq(&e, &chars_of("oga")) || chars_eq(&e, &chars_of("wav"))
        || chars_eq(&e, &chars_of("mp3")) || chars_eq(&e, &chars_of("flac")) || chars_eq(&e, &chars_of("opus")) {
        lowered.to_owned()
    } else {
        "ogg".to_owned()
    }
}

proof fn lemma_before_query(s: Seq<char>, i: int)
    requires
        0 <= i <= s.len(),
        forall|k: int| 0 <= k < i ==> #[trigger] s[k] != '?' && s[k] != '#',
        i == s.len() || s[i] == '?' || s[i] == '#',
    ensures
        before_query(s) == s.take(i),
    decreases i,
{
    if i == 0 {
        if s.len() == 0 {
            assert(s.take(0) =~= s);
        } else {
            assert(s.take(0) =~= Seq::<char>::empty());
        }
    } else {
        let t = s.drop_first();
        assert forall|k: int| 0 <= k < i - 1 implies #[trigger] t[k] != '?' && t[k] != '#' by {
            assert(t[k] == s[k + 1]);
        }
        if i < s.len() {
            assert(t[i - 1] == s[i]);
        }
        assert(s[0] != '?' && s[0] != '#');
        lemma_before_query(t, i - 1);
        assert(seq![s[0]] + t.take(i - 1) =~= s.take(i));
    }
}

/// The extension a download is stored under is always one of the audio extensions
/// `ogg`, `oga`, `wav`, `mp3`, `flac`, `opus`, and what follows a `?` or `#` in the URL plays no
/// part in it.
pub proof fn lemma_url_extension(path: Seq<char>, rest: Seq<char>, mark: char)
    requires
        mark == '?' || mark == '#',
        forall|i: int| 0 <= i < path.len() ==> #[trigger] path[i] != '?' && path[i] != '#',
    ensures
        ({
            let e = url_extension(path);
            ||| e == "ogg"@
            ||| e == "oga"@
            ||| e == "wav"@
            ||| e == "mp3"@
            ||| e == "flac"@
            ||| e == "opus"@
        }),
        url_extension(path.push(mark) + rest) == url_extension(path),
{
    let u = path.push(mark) + rest;
    assert forall|k: int| 0 <= k < path.len() implies #[trigger] u[k] != '?' && u[k] != '#' by {
        assert(u[k] == path[k]);
    }
    assert(u[path.len() as int] == mark);
    lemma_before_query(u, path.len() as int);
    assert(u.take(path.len() as int) =~= path);
    lemma_before_query(path, path.len() as int);
    assert(path.take(path.len() as int) =~= path);
}

proof fn lemma_after_last(s: Seq<char>, c: char, j: int)
    requires
        -1 <= j < s.len(),
        forall|k: int| j < k < s.len() ==> #[trigger] s[k] != c,
        j == -1 || s[j] == c,
    ensures
        after_last(s, c) == s.skip(j + 1),
    decreases s.len() - j,
{
    if s.len() == j + 1 {
        if j == -1 {
            assert(s.skip(0) =~= s);
        } else {
            assert(s.skip(j + 1) =~= Seq::<char>::empty());
        }
    } else {
        let t = s.drop_last();
        assert forall|k: int| j < k < t.len() implies #[trigger] t[k] != c by {
            assert(t[k] == s[k]);
        }
        if j >= 0 {
            assert(t[j] == s[j]);
        }
        assert(s.last() != c);
        lemma_after_last(t, c, j);
        assert(t.skip(j + 1).push(s.last()) =~= s.skip(j + 1));
    }
}

/// Index of the last `c` in `v`, if any.
fn last_index_of(v: &Vec<char>, c: char) -> (res: Option<usize>)
    ensures
        res matches Some(j) ==> j < v@.len() && v@[j as int] == c && forall|k: int|
            j < k < v@.len() ==> #[trigger] v@[k] != c,
        res is None ==> forall|k: int| 0 <= k < v@.len() ==> #[trigger] v@[k] != c,
{
    let mut j: usize = v.len();
    while j > 0
        invariant
            j <= v@.len(),
            forall|k: int| j <= k < v@.len() ==> #[trigger] v@[k] != c,
        decreases j,
    {
        if v[j - 1] == c {
            return Some(j - 1);
        }
        j = j - 1;
    }
    None
}

/// The characters of `v` from `start` on.
fn skip_chars(v: &Vec<char>, start: usize) -> (res: Vec<char>)
    requires
        start <= v@.len(),
    ensures
        res@ == v@.skip(start as int),
{
    let mut out: Vec<char> = Vec::new();
    let mut k: usize = start;
    while k < v.len()
        invariant
            start <= k <= v@.len(),
            out@ == v@.subrange(start as int, k as int),
        decreases v@.len() - k,
    {
        out.push(v[k]);
        assert(out@ =~= v@.subrange(start as int, k + 1));
        k = k + 1;
    }
    assert(v@.subrange(start as int, v@.len() as int) =~= v@.skip(start as int));
    out
}

/// The file extension of a URL. The last dot cannot simply be taken: Commons URLs carry
/// `?utm_*` query strings. Unknown extensions fall back to `ogg`.
pub fn extension_of(url: &str) -> (res: String)
    ensures
        res@ == url_extension(url@),
{
    let chars = chars_of(url);
    // the path: everything before the first `?` or `#`
    let mut path: Vec<char> = Vec::new();
    let mut i: usize = 0;
    while i < chars.len() && chars[i] != '?' && chars[i] != '#'
        invariant
            i <= chars@.len(),
            path@ == chars@.take(i as int),
            forall|k: int| 0 <= k < i ==> #[trigger] chars@[k] != '?' && chars@[k] != '#',
        decreases chars@.len() - i,
    {
        path.push(chars[i]);
        assert(path@ =~= chars@.take(i + 1));
        i = i + 1;
    }
    proof {
        lemma_before_query(chars@, i as int);
    }
    // the last path segment
    let name = match last_index_of(&path, '/') {
        Some(j) => {
            proof {
                lemma_after_last(path@, '/', j as int);
            }
            skip_chars(&path, j + 1)
        },
        None => {
            proof {
                lemma_after_last(path@, '/', -1);
                assert(path@.skip(0) =~= path@);
            }
            path
        },
    };
    // what follows its last dot
    let raw = match last_index_of(&name, '.') {
        Some(j) => {
            proof {
                lemma_after_last(name@, '.', j as int);
                assert(name@.contains('.'));
            }
            skip_chars(&name, j + 1)
        },
        None => {
            assert(!name@.contains('.'));
            Vec::new()
        },
    };
    assert(raw@ == raw_extension(name@));
    let lowered = to_lowercase(string_of(&raw).as_str());
    extension_to_store(lowered.as_str())
}

} // verus!
