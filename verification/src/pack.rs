//! Packing a pronunciation library: a directory of clips becomes the
//! packed library, human recordings first and synthetic ones filling the gaps, with a credits
//! list of the human recordings actually packed.
//!
//! Reading the directories and files, and writing the results, is the caller's; this module
//! decides what goes in.

use vstd::prelude::*;

use crate::fetch::select::views;
use crate::entry::Codec;
use crate::error::AudioError;
use crate::index::{char_views, split_chars, split_on};
use crate::library::{audio_len, builds, kept, key_bytes, lemma_first_item_wins, lookup, AudioLibrary, EntryView, Item};
use crate::source::Source;
use crate::order::{lemma_lt_irreflexive, lemma_lt_total, lemma_lt_transitive, chars_lt, seq_lt};
use crate::text::{
    has_prefix, chars_eq, chars_of, last_index, lowercase_of, rfind_char, str_eq, string_of, sub_chars, to_lowercase, trim,
    trim_chars,
};

verus! {

/// The extension of a file name: what follows its last dot, when there is a dot not at the
/// start (`Path::extension`).
pub open spec fn file_extension(name: Seq<char>) -> Option<Seq<char>> {
    let j = last_index(name, '.');
    if j <= 0 {
        None
    } else {
        Some(name.skip(j + 1))
    }
}

/// The stem of a file name: what precedes its last dot, when there is a dot not at the start;
/// the whole name otherwise (`Path::file_stem`).
pub open spec fn file_stem(name: Seq<char>) -> Seq<char> {
    let j = last_index(name, '.');
    if j <= 0 {
        name
    } else {
        name.take(j)
    }
}

/// Audio extensions taken when packing: `.opus` is what the build pipeline produces, `.ogg`,
/// `.oga`, `.wav`, `.mp3`, `.flac` are what the download cache holds.
pub open spec fn clip_extension(e: Seq<char>) -> bool {
    ||| e == "opus"@
    ||| e == "ogg"@
    ||| e == "oga"@
    ||| e == "wav"@
    ||| e == "mp3"@
    ||| e == "flac"@
}

/// The word a clip file stands for: its lower-cased stem, when its lower-cased extension is an
/// audio extension.
pub open spec fn spec_clip_word(name: Seq<char>) -> Option<Seq<char>> {
    match file_extension(name) {
        Some(e) => if clip_extension(lowercase_of(e)) {
            Some(lowercase_of(file_stem(name)))
        } else {
            None
        },
        None => None,
    }
}

/// Whether a lower-cased file extension is an audio extension taken when packing.
pub fn is_clip_extension(lowered: &str) -> (res: bool)
    ensures
        res == clip_extension(lowered@),
{
    let e = chars_of(lowered);
    chars_eq(&e, &chars_of("opus")) || chars_eq(&e, &chars_of("ogg")) || chars_eq(&e, &chars_of("oga"))
        || chars_eq(&e, &chars_of("wav")) || chars_eq(&e, &chars_of("mp3")) || chars_eq(&e, &chars_of("flac"))
}

/// The word a clip file stands for, `None` when the file is not an audio clip.
pub fn clip_word(name: &str) -> (res: Option<String>)
    ensures
        match res {
            Some(w) => spec_clip_word(name@) == Some(w@),
            None => spec_clip_word(name@) is None,
        },
{
    let chars = chars_of(name);
    let found = rfind_char(&chars, '.');
    let j: usize = match found {
        Some(j) => j,
        None => {
            return None;
        },
    };
    let n: usize = chars.len();
    assert(j < n);
    if j == 0 {
        return None;
    }
    let ext = to_lowercase(string_of(&sub_chars(&chars, j + 1, n)).as_str());
    assert(chars@.subrange(j + 1, chars@.len() as int) =~= chars@.skip(j + 1));
    if !is_clip_extension(ext.as_str()) {
        return None;
    }
    assert(chars@.subrange(0, j as int) =~= chars@.take(j as int));
    Some(to_lowercase(string_of(&sub_chars(&chars, 0, j)).as_str()))
}

/// A clip: (word, file name).
pub type Clip = (String, String);

/// The view of a clip.
pub open spec fn clip_view(c: Clip) -> (Seq<char>, Seq<char>) {
    (c.0@, c.1@)
}

/// Clips ordered by word, then by file name.
pub open spec fn clip_lt(a: (Seq<char>, Seq<char>), b: (Seq<char>, Seq<char>)) -> bool {
    seq_lt(a.0, b.0) || (a.0 == b.0 && seq_lt(a.1, b.1))
}

/// The clips `v` are in strictly increasing order.
pub open spec fn clips_sorted(v: Seq<(Seq<char>, Seq<char>)>) -> bool {
    forall|i: int, j: int| 0 <= i < j < v.len() ==> clip_lt(#[trigger] v[i], #[trigger] v[j])
}

/// The views of a list of clips.
pub open spec fn clip_views(v: Seq<Clip>) -> Seq<(Seq<char>, Seq<char>)> {
    v.map_values(|c: Clip| clip_view(c))
}

/// The clips the file names `names` stand for.
pub open spec fn clip_set(names: Seq<String>) -> Set<(Seq<char>, Seq<char>)> {
    Set::new(
        |c: (Seq<char>, Seq<char>)|
            exists|i: int| 0 <= i < names.len() && spec_clip_word((#[trigger] names[i])@) == Some(c.0) && names[i]@ == c.1,
    )
}

proof fn lemma_clip_lt_irreflexive(a: (Seq<char>, Seq<char>))
    ensures
        !clip_lt(a, a),
{
    lemma_lt_irreflexive(a.0);
    lemma_lt_irreflexive(a.1);
}

proof fn lemma_clip_lt_total(a: (Seq<char>, Seq<char>), b: (Seq<char>, Seq<char>))
    ensures
        a == b || clip_lt(a, b) || clip_lt(b, a),
{
    lemma_lt_total(a.0, b.0);
    lemma_lt_total(a.1, b.1);
}

proof fn lemma_clip_lt_transitive(a: (Seq<char>, Seq<char>), b: (Seq<char>, Seq<char>), c: (Seq<char>, Seq<char>))
    requires
        clip_lt(a, b),
        clip_lt(b, c),
    ensures
        clip_lt(a, c),
{
    if seq_lt(a.0, b.0) && seq_lt(b.0, c.0) {
        lemma_lt_transitive(a.0, b.0, c.0);
    } else if seq_lt(a.1, b.1) && seq_lt(b.1, c.1) && a.0 == b.0 && b.0 == c.0 {
        lemma_lt_transitive(a.1, b.1, c.1);
    }
}

/// Two strictly increasing lists of clips with the same elements are the same list.
proof fn lemma_sorted_clips_unique(a: Seq<(Seq<char>, Seq<char>)>, b: Seq<(Seq<char>, Seq<char>)>)
    requires
        clips_sorted(a),
        clips_sorted(b),
        a.to_set() == b.to_set(),
    ensures
        a == b,
    decreases a.len(),
{
    if a.len() == 0 {
        if b.len() > 0 {
            assert(b.to_set().contains(b[0]));
            assert(a.to_set().contains(b[0]));
        }
        assert(a =~= b);
    } else {
        assert(a.to_set().contains(a[0]));
        assert(b.to_set().contains(a[0]));
        assert(b.len() > 0);
        assert(b.to_set().contains(b[0]));
        assert(a.to_set().contains(b[0]));
        let i = choose|i: int| 0 <= i < a.len() && a[i] == b[0];
        let j = choose|j: int| 0 <= j < b.len() && b[j] == a[0];
        if a[0] != b[0] {
            // a[0] < a[i] == b[0] < b[j] == a[0]
            assert(i != 0 && j != 0);
            assert(clip_lt(a[0], a[i]));
            assert(clip_lt(b[0], b[j]));
            lemma_clip_lt_transitive(a[0], b[0], a[0]);
            lemma_clip_lt_irreflexive(a[0]);
        }
        let ra = a.drop_first();
        let rb = b.drop_first();
        assert forall|x: (Seq<char>, Seq<char>)| ra.to_set().contains(x) <==> rb.to_set().contains(x) by {
            if ra.to_set().contains(x) {
                let k = choose|k: int| 0 <= k < ra.len() && ra[k] == x;
                assert(a[k + 1] == x);
                assert(clip_lt(a[0], a[k + 1]));
                lemma_clip_lt_irreflexive(x);
                assert(b.to_set().contains(x));
                let m = choose|m: int| 0 <= m < b.len() && b[m] == x;
                assert(m != 0);
                assert(rb[m - 1] == x);
            }
            if rb.to_set().contains(x) {
                let k = choose|k: int| 0 <= k < rb.len() && rb[k] == x;
                assert(b[k + 1] == x);
                assert(clip_lt(b[0], b[k + 1]));
                lemma_clip_lt_irreflexive(x);
                assert(a.to_set().contains(x));
                let m = choose|m: int| 0 <= m < a.len() && a[m] == x;
                assert(m != 0);
                assert(ra[m - 1] == x);
            }
        }
        assert(ra.to_set() =~= rb.to_set());
        assert(clips_sorted(ra)) by {
            assert forall|p: int, q: int| 0 <= p < q < ra.len() implies clip_lt(#[trigger] ra[p], #[trigger] ra[q]) by {
                assert(ra[p] == a[p + 1] && ra[q] == a[q + 1]);
            }
        }
        assert(clips_sorted(rb)) by {
            assert forall|p: int, q: int| 0 <= p < q < rb.len() implies clip_lt(#[trigger] rb[p], #[trigger] rb[q]) by {
                assert(rb[p] == b[p + 1] && rb[q] == b[q + 1]);
            }
        }
        lemma_sorted_clips_unique(ra, rb);
        assert(a =~= b) by {
            assert forall|k: int| 0 <= k < a.len() implies a[k] == b[k] by {
                if k > 0 {
                    assert(a[k] == ra[k - 1] && b[k] == rb[k - 1]);
                }
            }
        }
    }
}

/// Packing does not depend on the order a directory lists its files in: whatever two lists
/// [`clips`] may give for two listings of the same file names are the same list.
pub proof fn lemma_clips_ignore_listing_order(
    first: Seq<String>,
    second: Seq<String>,
    x: Seq<(Seq<char>, Seq<char>)>,
    y: Seq<(Seq<char>, Seq<char>)>,
)
    requires
        views(first).to_set() == views(second).to_set(),
        clips_sorted(x),
        x.to_set() == clip_set(first),
        clips_sorted(y),
        y.to_set() == clip_set(second),
    ensures
        x == y,
{
    assert forall|c: (Seq<char>, Seq<char>)| clip_set(first).contains(c) implies clip_set(second).contains(c) by {
        let i = choose|i: int| 0 <= i < first.len() && spec_clip_word((#[trigger] first[i])@) == Some(c.0) && first[i]@ == c.1;
        assert(views(first)[i] == first[i]@);
        assert(views(second).to_set().contains(first[i]@));
        let j = choose|j: int| 0 <= j < views(second).len() && views(second)[j] == first[i]@;
        assert(second[j]@ == first[i]@);
    }
    assert forall|c: (Seq<char>, Seq<char>)| clip_set(second).contains(c) implies clip_set(first).contains(c) by {
        let i = choose|i: int| 0 <= i < second.len() && spec_clip_word((#[trigger] second[i])@) == Some(c.0) && second[i]@ == c.1;
        assert(views(second)[i] == second[i]@);
        assert(views(first).to_set().contains(second[i]@));
        let j = choose|j: int| 0 <= j < views(first).len() && views(first)[j] == second[i]@;
        assert(first[j]@ == second[i]@);
    }
    assert(clip_set(first) =~= clip_set(second));
    lemma_sorted_clips_unique(x, y);
}

fn clip_less(a: &Clip, b: &Clip) -> (res: bool)
    ensures
        res == clip_lt(clip_view(*a), clip_view(*b)),
{
    let aw = chars_of(a.0.as_str());
    let bw = chars_of(b.0.as_str());
    if chars_lt(&aw, &bw) {
        return true;
    }
    if !chars_eq(&aw, &bw) {
        return false;
    }
    chars_lt(&chars_of(a.1.as_str()), &chars_of(b.1.as_str()))
}

/// The audio clips among the file names of a directory: (word, file name) for each audio file,
/// sorted by word and then file name so that packing does not depend on the order the file
/// system lists the directory in.
pub fn clips(names: &Vec<String>) -> (res: Vec<Clip>)
    ensures
        clips_sorted(clip_views(res@)),
        clip_views(res@).to_set() == clip_set(names@),
{
    let mut out: Vec<Clip> = Vec::new();
    let mut i: usize = 0;
    while i < names.len()
        invariant
            i <= names@.len(),
            clips_sorted(clip_views(out@)),
            clip_views(out@).to_set() == clip_set(names@.take(i as int)),
        decreases names@.len() - i,
    {
        let ghost before = clip_views(out@);
        let ghost prev_set = clip_set(names@.take(i as int));
        let ghost next_names = names@.take(i + 1);
        assert(next_names.drop_last() =~= names@.take(i as int));
        match clip_word(names[i].as_str()) {
            Some(word) => {
                let clip: Clip = (word, names[i].clone());
                let ghost x = clip_view(clip);
                assert(clip_set(next_names) =~= prev_set.insert(x)) by {
                    assert(next_names[i as int] == names@[i as int]);
                    assert forall|c: (Seq<char>, Seq<char>)| clip_set(next_names).contains(c) implies prev_set.insert(x).contains(c) by {
                        let k = choose|k: int| 0 <= k < next_names.len() && spec_clip_word((#[trigger] next_names[k])@) == Some(c.0) && next_names[k]@ == c.1;
                        if k < i {
                            assert(names@.take(i as int)[k] == next_names[k]);
                        }
                    }
                    assert forall|c: (Seq<char>, Seq<char>)| prev_set.insert(x).contains(c) implies clip_set(next_names).contains(c) by {
                        if c != x {
                            let k = choose|k: int| 0 <= k < i && spec_clip_word((#[trigger] names@.take(i as int)[k])@) == Some(c.0) && names@.take(i as int)[k]@ == c.1;
                            assert(next_names[k] == names@.take(i as int)[k]);
                        }
                    }
                }
                insert_clip(&mut out, clip);
            },
            None => {
                assert(clip_set(next_names) =~= prev_set) by {
                    assert forall|c: (Seq<char>, Seq<char>)| clip_set(next_names).contains(c) implies prev_set.contains(c) by {
                        let k = choose|k: int| 0 <= k < next_names.len() && spec_clip_word((#[trigger] next_names[k])@) == Some(c.0) && next_names[k]@ == c.1;
                        assert(k != i);
                        assert(names@.take(i as int)[k] == next_names[k]);
                    }
                    assert forall|c: (Seq<char>, Seq<char>)| prev_set.contains(c) implies clip_set(next_names).contains(c) by {
                        let k = choose|k: int| 0 <= k < i && spec_clip_word((#[trigger] names@.take(i as int)[k])@) == Some(c.0) && names@.take(i as int)[k]@ == c.1;
                        assert(next_names[k] == names@.take(i as int)[k]);
                    }
                }
            },
        }
        i = i + 1;
    }
    assert(names@.take(names@.len() as int) =~= names@);
    out
}

/// Inserts `clip` where it keeps `v` sorted (nothing when it is already there).
fn insert_clip(v: &mut Vec<Clip>, clip: Clip)
    requires
        clips_sorted(clip_views(old(v)@)),
    ensures
        clips_sorted(clip_views(final(v)@)),
        clip_views(final(v)@).to_set() == clip_views(old(v)@).to_set().insert(clip_view(clip)),
{
    let ghost w = clip_views(v@);
    let ghost x = clip_view(clip);
    let mut p: usize = 0;
    while p < v.len()
        invariant
            p <= v@.len(),
            w == clip_views(v@),
            x == clip_view(clip),
            forall|i: int| 0 <= i < p ==> clip_lt((#[trigger] w[i]), x),
        ensures
            p <= v@.len(),
            p < v@.len() ==> !clip_lt(w[p as int], x),
            forall|i: int| 0 <= i < p ==> clip_lt((#[trigger] w[i]), x),
        decreases v@.len() - p,
    {
        assert(w[p as int] == clip_view(v@[p as int]));
        if !clip_less(&v[p], &clip) {
            break;
        }
        p = p + 1;
    }
    if p < v.len() && chars_eq(&chars_of(v[p].0.as_str()), &chars_of(clip.0.as_str())) && chars_eq(
        &chars_of(v[p].1.as_str()),
        &chars_of(clip.1.as_str()),
    ) {
        assert(w[p as int] == x);
        assert(w.to_set().insert(x) =~= w.to_set());
        return;
    }
    v.insert(p, clip);
    let ghost u = clip_views(v@);
    assert(u =~= w.insert(p as int, x));
    proof {
        assert forall|j: int| p <= j < w.len() implies clip_lt(x, #[trigger] w[j]) by {
            lemma_clip_lt_total(w[p as int], x);
            if j > p {
                assert(clip_lt(w[p as int], w[j]));
                if clip_lt(x, w[p as int]) {
                    lemma_clip_lt_transitive(x, w[p as int], w[j]);
                }
            }
        }
        assert forall|a: int, b: int| 0 <= a < b < u.len() implies clip_lt(#[trigger] u[a], #[trigger] u[b]) by {
            if b < p {
                assert(u[a] == w[a] && u[b] == w[b]);
            } else if b == p {
                assert(u[a] == w[a]);
            } else if a < p {
                assert(u[a] == w[a] && u[b] == w[b - 1]);
                assert(clip_lt(w[a], w[b - 1]));
            } else if a == p {
                assert(u[b] == w[b - 1]);
            } else {
                assert(u[a] == w[a - 1] && u[b] == w[b - 1]);
            }
        }
        assert forall|c: (Seq<char>, Seq<char>)| #[trigger] u.to_set().contains(c) <==> w.to_set().insert(x).contains(c) by {
            if u.contains(c) {
                let k = choose|k: int| 0 <= k < u.len() && u[k] == c;
                if k < p {
                    assert(w[k] == c);
                } else if k > p {
                    assert(w[k - 1] == c);
                }
            }
            if w.contains(c) {
                let k = choose|k: int| 0 <= k < w.len() && w[k] == c;
                if k < p {
                    assert(u[k] == c);
                } else {
                    assert(u[k + 1] == c);
                }
            }
            if c == x {
                assert(u[p as int] == c);
            }
        }
        assert(u.to_set() =~= w.to_set().insert(x));
    }
}

/// `p` without one trailing carriage return.
pub open spec fn strip_cr(p: Seq<char>) -> Seq<char> {
    if p.len() > 0 && p.last() == '\r' {
        p.drop_last()
    } else {
        p
    }
}

/// The lines of `s` as `str::lines` yields them: the pieces between line feeds, each that ended
/// in a line feed without one carriage return before it; a last piece only when it is not empty.
pub open spec fn text_lines(s: Seq<char>) -> Seq<Seq<char>> {
    let pieces = split_on(s, '\n');
    let body = pieces.drop_last().map_values(|p: Seq<char>| strip_cr(p));
    if pieces.last().len() == 0 {
        body
    } else {
        body.push(pieces.last())
    }
}

/// The lines of `s` (see [`text_lines`]).
pub fn lines_of(s: &str) -> (res: Vec<Vec<char>>)
    ensures
        char_views(res@) == text_lines(s@),
{
    let chars = chars_of(s);
    let pieces = split_chars(&chars, '\n');
    let ghost all = split_on(s@, '\n');
    let n: usize = pieces.len();
    let mut out: Vec<Vec<char>> = Vec::new();
    let mut i: usize = 0;
    while i + 1 < n
        invariant
            n == pieces@.len(),
            n >= 1,
            i + 1 <= n,
            char_views(pieces@) == all,
            char_views(out@) == all.drop_last().take(i as int).map_values(|p: Seq<char>| strip_cr(p)),
        decreases n - i,
    {
        let piece = &pieces[i];
        let mut line = sub_chars(piece, 0, piece.len());
        assert(all[i as int] == piece@);
        if line.len() > 0 && line[line.len() - 1] == '\r' {
            line.pop();
        }
        assert(line@ =~= strip_cr(all[i as int]));
        let ghost before = out@;
        out.push(line);
        assert(char_views(out@) =~= char_views(before).push(line@));
        assert(char_views(out@) =~= all.drop_last().take(i + 1).map_values(|p: Seq<char>| strip_cr(p)));
        i = i + 1;
    }
    assert(all.drop_last().take(i as int) =~= all.drop_last());
    let last = &pieces[n - 1];
    assert(all.last() == last@);
    if last.len() > 0 {
        let copy = sub_chars(last, 0, last.len());
        assert(copy@ =~= last@);
        let ghost before = out@;
        out.push(copy);
        assert(char_views(out@) =~= char_views(before).push(copy@));
    }
    out
}

/// The word a line of a word list names: once the line is trimmed, its first tab-separated
/// field, lower-cased; none for a blank line or a `#` comment.
pub open spec fn word_list_entry(line: Seq<char>) -> Option<Seq<char>> {
    let t = trim(line);
    if t.len() == 0 || t[0] == '#' {
        None
    } else {
        Some(lowercase_of(split_on(t, '\t')[0]))
    }
}

/// The words a word list names, line by line.
pub open spec fn word_list(lines: Seq<Seq<char>>) -> Seq<Seq<char>>
    decreases lines.len(),
{
    if lines.len() == 0 {
        Seq::empty()
    } else {
        let prev = word_list(lines.drop_last());
        match word_list_entry(lines.last()) {
            Some(w) => prev.push(w),
            None => prev,
        }
    }
}

/// Reads a word list (one word per line, or a TSV whose first column is the word; blank lines
/// and `#` comments skipped) into the lower-cased words it allows.
pub fn parse_word_list(text: &str) -> (res: Vec<String>)
    ensures
        views(res@) == word_list(text_lines(text@)),
{
    let lines = lines_of(text);
    let ghost ls = char_views(lines@);
    let mut out: Vec<String> = Vec::new();
    let mut i: usize = 0;
    while i < lines.len()
        invariant
            i <= lines@.len(),
            ls == char_views(lines@),
            views(out@) == word_list(ls.take(i as int)),
        decreases lines@.len() - i,
    {
        assert(ls.take(i + 1).drop_last() =~= ls.take(i as int));
        assert(ls.take(i + 1).last() == lines@[i as int]@);
        let t = trim_chars(&lines[i]);
        if t.len() > 0 && t[0] != '#' {
            let fields = split_chars(&t, '\t');
            assert(char_views(fields@)[0] == fields@[0]@);
            let w = to_lowercase(string_of(&fields[0]).as_str());
            let ghost before = out@;
            out.push(w);
            assert(views(out@) =~= views(before).push(w@));
        }
        i = i + 1;
    }
    assert(ls.take(lines@.len() as int) =~= ls);
    out
}

/// Whether a word is packed: always without a word list, else when the list holds its lower-cased
/// form.
pub open spec fn keeps(allowed: Option<Seq<Seq<char>>>, word: Seq<char>) -> bool {
    match allowed {
        None => true,
        Some(list) => list.contains(lowercase_of(word)),
    }
}

/// The view of an optional word list.
pub open spec fn allowed_view(allowed: Option<Vec<String>>) -> Option<Seq<Seq<char>>> {
    match allowed {
        Some(v) => Some(views(v@)),
        None => None,
    }
}

/// Whether `word` is packed under the optional word list `allowed`.
pub fn keep_word(allowed: &Option<Vec<String>>, word: &str) -> (res: bool)
    ensures
        res == keeps(allowed_view(*allowed), word@),
{
    match allowed {
        None => true,
        Some(list) => {
            let w = to_lowercase(word);
            let ghost lv = views(list@);
            assert(allowed_view(*allowed) == Some(lv));
            let mut k: usize = 0;
            while k < list.len()
                invariant
                    k <= list@.len(),
                    lv == views(list@),
                    allowed_view(*allowed) == Some(lv),
                    w@ == lowercase_of(word@),
                    forall|j: int| 0 <= j < k ==> lv[j] != w@,
                decreases list@.len() - k,
            {
                assert(lv[k as int] == list@[k as int]@);
                if str_eq(list[k].as_str(), w.as_str()) {
                    assert(lv[k as int] == w@);
                    assert(lv.contains(lowercase_of(word@)));
                    return true;
                }
                k = k + 1;
            }
            assert(!lv.contains(w@)) by {
                if lv.contains(w@) {
                    let j = choose|j: int| 0 <= j < lv.len() && lv[j] == w@;
                    assert(lv[j] != w@);
                }
            }
            false
        },
    }
}

/// The clips of `c` whose words are packed under `allowed`, in order.
pub open spec fn wanted(c: Seq<(Seq<char>, Seq<char>)>, allowed: Option<Seq<Seq<char>>>) -> Seq<(Seq<char>, Seq<char>)>
    decreases c.len(),
{
    if c.len() == 0 {
        Seq::empty()
    } else {
        let prev = wanted(c.drop_last(), allowed);
        if keeps(allowed, c.last().0) {
            prev.push(c.last())
        } else {
            prev
        }
    }
}

/// A word list limits what gets packed: the clips kept are exactly those of `c` whose words the
/// list allows, in their order.
pub proof fn lemma_word_list_limits_packing(c: Seq<(Seq<char>, Seq<char>)>, allowed: Option<Seq<Seq<char>>>)
    ensures
        forall|x: (Seq<char>, Seq<char>)| #[trigger] wanted(c, allowed).contains(x) <==> (c.contains(x) && keeps(allowed, x.0)),
        wanted(c, allowed).len() <= c.len(),
    decreases c.len(),
{
    if c.len() > 0 {
        let prev = c.drop_last();
        lemma_word_list_limits_packing(prev, allowed);
        let w = wanted(c, allowed);
        let wp = wanted(prev, allowed);
        assert forall|x: (Seq<char>, Seq<char>)| #[trigger] w.contains(x) <==> (c.contains(x) && keeps(allowed, x.0)) by {
            if w.contains(x) {
                let k = choose|k: int| 0 <= k < w.len() && w[k] == x;
                if k < wp.len() {
                    assert(w[k] == wp[k]);
                    assert(wp.contains(x));
                    let m = choose|m: int| 0 <= m < prev.len() && prev[m] == x;
                    assert(c[m] == x);
                } else {
                    assert(x == c.last());
                    assert(c[c.len() - 1] == x);
                }
            }
            if c.contains(x) && keeps(allowed, x.0) {
                let m = choose|m: int| 0 <= m < c.len() && c[m] == x;
                if m < c.len() - 1 {
                    assert(prev[m] == x);
                    assert(wp.contains(x));
                    let k = choose|k: int| 0 <= k < wp.len() && wp[k] == x;
                    assert(w[k] == x);
                } else {
                    assert(w[w.len() - 1] == x);
                }
            }
        }
    }
}

/// The clips whose words are packed under the optional word list `allowed`, in order.
pub fn wanted_clips(clips: Vec<Clip>, allowed: &Option<Vec<String>>) -> (res: Vec<Clip>)
    ensures
        clip_views(res@) == wanted(clip_views(clips@), allowed_view(*allowed)),
{
    let ghost cv = clip_views(clips@);
    let mut out: Vec<Clip> = Vec::new();
    let mut i: usize = 0;
    while i < clips.len()
        invariant
            i <= clips@.len(),
            cv == clip_views(clips@),
            clip_views(out@) == wanted(cv.take(i as int), allowed_view(*allowed)),
        decreases clips@.len() - i,
    {
        assert(cv.take(i + 1).drop_last() =~= cv.take(i as int));
        assert(cv.take(i + 1).last() == clip_view(clips@[i as int]));
        let clip = &clips[i];
        if keep_word(allowed, clip.0.as_str()) {
            let copy: Clip = (clip.0.clone(), clip.1.clone());
            let ghost before = out@;
            out.push(copy);
            assert(clip_views(out@) =~= clip_views(before).push(clip_view(copy)));
        }
        i = i + 1;
    }
    assert(cv.take(clips@.len() as int) =~= cv);
    out
}

/// A clip read in: its word and its audio.
pub type ClipAudio = (String, Vec<u8>);

/// The items for clips of one source, in order: each clip with `source` and the Ogg Opus codec.
pub open spec fn tagged(c: Seq<ClipAudio>, source: Source) -> Seq<Item> {
    c.map_values(|x: ClipAudio| (x.0, source, Codec::OpusOgg, x.1))
}

/// The items a pack hands to the build: all human clips, then all synthetic ones.
pub open spec fn pack_item_seq(human: Seq<ClipAudio>, synthetic: Seq<ClipAudio>) -> Seq<Item> {
    tagged(human, Source::Human) + tagged(synthetic, Source::Synthetic)
}

/// Appends the clips `c`, tagged with `source`, to `out`.
fn push_tagged(out: &mut Vec<Item>, c: Vec<ClipAudio>, source: Source)
    ensures
        final(out)@ == old(out)@ + tagged(c@, source),
{
    let ghost start = out@;
    let ghost cv = c@;
    for x in it: c
        invariant
            it.seq() == cv,
            out@ == start + tagged(cv.take(it.index() as int), source),
    {
        let ghost k = it.index();
        let (word, audio) = x;
        out.push((word, source, Codec::OpusOgg, audio));
        assert(tagged(cv.take(k + 1), source) =~= tagged(cv.take(k as int), source).push(
            (cv[k as int].0, source, Codec::OpusOgg, cv[k as int].1),
        ));
    }
    assert(cv.take(cv.len() as int) =~= cv);
}

/// The items of a pack: the human clips first, so that the build keeps a human recording over a
/// synthetic one of the same word, then the synthetic clips.
pub fn pack_items(human: Vec<ClipAudio>, synthetic: Vec<ClipAudio>) -> (res: Vec<Item>)
    ensures
        res@ == pack_item_seq(human@, synthetic@),
{
    let mut out: Vec<Item> = Vec::new();
    push_tagged(&mut out, human, Source::Human);
    push_tagged(&mut out, synthetic, Source::Synthetic);
    assert(out@ =~= pack_item_seq(human@, synthetic@));
    out
}

/// Packs the library from the human clips and the synthetic ones (read in, already limited to the
/// word list): a human recording is kept over a synthetic one of the same word, synthetic ones
/// fill the words no human recording covers. Fails with [`AudioError::TooLarge`] exactly when the
/// build does not go through (see [`builds`]).
pub fn pack_library(human: Vec<ClipAudio>, synthetic: Vec<ClipAudio>) -> (res: Result<AudioLibrary, AudioError>)
    ensures
        match res {
            Ok(lib) => lib.wf() && lib@ == kept(pack_item_seq(human@, synthetic@)) && lib.spec_blob().len()
                == audio_len(kept(pack_item_seq(human@, synthetic@))),
            Err(e) => e == AudioError::TooLarge && !builds(pack_item_seq(human@, synthetic@)),
        },
{
    AudioLibrary::build(pack_items(human, synthetic))
}

/// The first item with key `k` and audio, at or before `j`.
proof fn lemma_first_with_key(items: Seq<Item>, k: Seq<u8>, j: int) -> (m: int)
    requires
        0 <= j < items.len(),
        key_bytes(items[j].0@) == k,
        items[j].3@.len() > 0,
    ensures
        0 <= m <= j,
        key_bytes(items[m].0@) == k,
        items[m].3@.len() > 0,
        forall|x: int| 0 <= x < m && key_bytes((#[trigger] items[x]).0@) == k ==> items[x].3@.len() == 0,
    decreases j,
{
    if exists|x: int| 0 <= x < j && key_bytes((#[trigger] items[x]).0@) == k && items[x].3@.len() > 0 {
        let x = choose|x: int| 0 <= x < j && key_bytes((#[trigger] items[x]).0@) == k && items[x].3@.len() > 0;
        lemma_first_with_key(items, k, x)
    } else {
        j
    }
}

/// A human recording wins over synthetic ones: when a human clip has a word (under 65535 bytes)
/// and audio, the packed contents hold a human recording under that word.
pub proof fn lemma_human_recordings_win(human: Seq<ClipAudio>, synthetic: Seq<ClipAudio>, i: int)
    requires
        0 <= i < human.len(),
        0 < key_bytes(human[i].0@).len() < 65535,
        human[i].1@.len() > 0,
    ensures
        lookup(kept(pack_item_seq(human, synthetic)), key_bytes(human[i].0@)) matches Some(e)
            && e.source == Source::Human,
{
    let items = pack_item_seq(human, synthetic);
    let k = key_bytes(human[i].0@);
    assert(items[i] == (human[i].0, Source::Human, Codec::OpusOgg, human[i].1));
    let m = lemma_first_with_key(items, k, i);
    assert(items[m] == (human[m].0, Source::Human, Codec::OpusOgg, human[m].1));
    lemma_first_item_wins(items, m);
}

/// Synthetic recordings fill the gaps: a synthetic clip with a word (under 65535 bytes) and audio,
/// whose word no human clip with audio has and no earlier synthetic clip with audio has, is what
/// the packed contents hold under that word.
pub proof fn lemma_synthetic_fills_gaps(human: Seq<ClipAudio>, synthetic: Seq<ClipAudio>, j: int)
    requires
        0 <= j < synthetic.len(),
        0 < key_bytes(synthetic[j].0@).len() < 65535,
        synthetic[j].1@.len() > 0,
        forall|i: int|
            0 <= i < human.len() && key_bytes((#[trigger] human[i]).0@) == key_bytes(synthetic[j].0@)
                ==> human[i].1@.len() == 0,
        forall|i: int|
            0 <= i < j && key_bytes((#[trigger] synthetic[i]).0@) == key_bytes(synthetic[j].0@)
                ==> synthetic[i].1@.len() == 0,
    ensures
        lookup(kept(pack_item_seq(human, synthetic)), key_bytes(synthetic[j].0@)) == Some(
            EntryView {
                word: key_bytes(synthetic[j].0@),
                codec: Codec::OpusOgg,
                source: Source::Synthetic,
                audio: synthetic[j].1@,
            },
        ),
{
    let items = pack_item_seq(human, synthetic);
    let n = human.len();
    let k = key_bytes(synthetic[j].0@);
    assert(items[n + j] == (synthetic[j].0, Source::Synthetic, Codec::OpusOgg, synthetic[j].1));
    assert forall|x: int| 0 <= x < n + j && key_bytes((#[trigger] items[x]).0@) == k implies items[x].3@.len() == 0 by {
        if x < n {
            assert(items[x] == (human[x].0, Source::Human, Codec::OpusOgg, human[x].1));
        } else {
            assert(items[x] == (synthetic[x - n].0, Source::Synthetic, Codec::OpusOgg, synthetic[x - n].1));
        }
    }
    lemma_first_item_wins(items, n + j);
}

/// Where a human recording comes from (a row of the fetch script's manifest).
#[derive(Debug, Clone)]
pub struct Credit {
    pub license: String,
    pub author: String,
    pub page: String,
}

/// The view of a [`Credit`].
pub struct CreditView {
    pub license: Seq<char>,
    pub author: Seq<char>,
    pub page: Seq<char>,
}

impl View for Credit {
    type V = CreditView;

    open spec fn view(&self) -> CreditView {
        CreditView { license: self.license@, author: self.author@, page: self.page@ }
    }
}

/// A manifest line that is neither blank, a comment, the header nor a full row; `line` counts
/// from 1.
#[derive(Debug, Clone, Copy, PartialEq, Eq)]
pub struct BadManifestLine {
    pub line: usize,
}

/// The start of the manifest's header line: `word`, tab, `file`, tab.
pub open spec fn manifest_header() -> Seq<char> {
    seq!['w', 'o', 'r', 'd', '\t', 'f', 'i', 'l', 'e', '\t']
}

/// Whether line `index` (from 0) of a manifest is skipped: blank, a `#` comment, or the header,
/// which is recognised only as the first line (`word` is a word too, and its row must count).
pub open spec fn manifest_skips(index: int, line: Seq<char>) -> bool {
    ||| trim(line).len() == 0
    ||| (line.len() > 0 && line[0] == '#')
    ||| (index == 0 && manifest_header().is_prefix_of(line))
}

/// The credit a manifest row gives: the lower-cased word, then licence, author and page from
/// the third, fourth and fifth fields (a cache index has a sixth, the gain, left aside).
pub open spec fn manifest_row(line: Seq<char>) -> (Seq<char>, CreditView) {
    let f = split_on(line, '\t');
    (lowercase_of(f[0]), CreditView { license: f[2], author: f[3], page: f[4] })
}

/// What reading a manifest's lines gives: the credits of its rows in order, or the number (from
/// 1) of the first line that is not skipped and has fewer than five fields.
pub open spec fn manifest_scan(lines: Seq<Seq<char>>) -> Result<Seq<(Seq<char>, CreditView)>, int>
    decreases lines.len(),
{
    if lines.len() == 0 {
        Ok(Seq::empty())
    } else {
        match manifest_scan(lines.drop_last()) {
            Err(n) => Err(n),
            Ok(prev) => {
                let index = lines.len() - 1;
                let line = lines.last();
                if manifest_skips(index, line) {
                    Ok(prev)
                } else if split_on(line, '\t').len() < 5 {
                    Err(index + 1)
                } else {
                    Ok(prev.push(manifest_row(line)))
                }
            },
        }
    }
}

/// Once a prefix of the lines fails, the whole manifest fails with the same line.
proof fn lemma_scan_error_stays(lines: Seq<Seq<char>>, k: int)
    requires
        0 <= k <= lines.len(),
        manifest_scan(lines.take(k)) is Err,
    ensures
        manifest_scan(lines) == manifest_scan(lines.take(k)),
    decreases lines.len() - k,
{
    if k < lines.len() {
        let next = lines.take(k + 1);
        assert(next.drop_last() =~= lines.take(k));
        lemma_scan_error_stays(lines, k + 1);
    } else {
        assert(lines.take(k) =~= lines);
    }
}

/// The views of a credit list.
pub open spec fn credit_views(v: Seq<(String, Credit)>) -> Seq<(Seq<char>, CreditView)> {
    v.map_values(|c: (String, Credit)| (c.0@, c.1@))
}

/// Reads the manifest of human recordings (`word / file / licence / author / page`, tab
/// separated, under a header line) into the credits of its rows, in order.
pub fn parse_manifest(text: &str) -> (res: Result<Vec<(String, Credit)>, BadManifestLine>)
    ensures
        match res {
            Ok(v) => manifest_scan(text_lines(text@)) == Ok::<Seq<(Seq<char>, CreditView)>, int>(credit_views(v@)),
            Err(e) => manifest_scan(text_lines(text@)) == Err::<Seq<(Seq<char>, CreditView)>, int>(e.line as int),
        },
{
    let lines = lines_of(text);
    let ghost ls = char_views(lines@);
    let header: Vec<char> = vec!['w', 'o', 'r', 'd', '\t', 'f', 'i', 'l', 'e', '\t'];
    assert(header@ =~= manifest_header());
    let mut out: Vec<(String, Credit)> = Vec::new();
    assert(ls.take(0) =~= Seq::<Seq<char>>::empty());
    assert(credit_views(out@) =~= Seq::<(Seq<char>, CreditView)>::empty());
    let mut i: usize = 0;
    while i < lines.len()
        invariant
            i <= lines@.len(),
            ls == char_views(lines@),
            ls == text_lines(text@),
            header@ == manifest_header(),
            manifest_scan(ls.take(i as int)) == Ok::<Seq<(Seq<char>, CreditView)>, int>(credit_views(out@)),
        decreases lines@.len() - i,
    {
        let ghost next = ls.take(i + 1);
        assert(next.drop_last() =~= ls.take(i as int));
        assert(next.last() == lines@[i as int]@);
        let line = &lines[i];
        let blank = trim_chars(line).len() == 0;
        let comment = line.len() > 0 && line[0] == '#';
        let is_header = i == 0 && has_prefix(line, &header);
        if !(blank || comment || is_header) {
            let fields = split_chars(line, '\t');
            if fields.len() < 5 {
                proof {
                    lemma_scan_error_stays(ls, i + 1);
                }
                return Err(BadManifestLine { line: i + 1 });
            }
            let ghost f = char_views(fields@);
            assert(f[0] == fields@[0]@ && f[2] == fields@[2]@ && f[3] == fields@[3]@ && f[4] == fields@[4]@);
            let word = to_lowercase(string_of(&fields[0]).as_str());
            let credit = Credit {
                license: string_of(&fields[2]),
                author: string_of(&fields[3]),
                page: string_of(&fields[4]),
            };
            let ghost before = out@;
            out.push((word, credit));
            assert(credit_views(out@) =~= credit_views(before).push(manifest_row(line@)));
        }
        i = i + 1;
    }
    assert(ls.take(lines@.len() as int) =~= ls);
    Ok(out)
}

/// The credit of `word` in a credit list: that of its last row, as a map filled row by row
/// keeps it.
pub open spec fn credit_of(credits: Seq<(Seq<char>, CreditView)>, word: Seq<char>) -> Option<CreditView>
    decreases credits.len(),
{
    if credits.len() == 0 {
        None
    } else if credits.last().0 == word {
        Some(credits.last().1)
    } else {
        credit_of(credits.drop_last(), word)
    }
}

/// Where the credit of `word` stands in `credits` (its last row), if it has one.
fn find_credit(credits: &Vec<(String, Credit)>, word: &str) -> (res: Option<usize>)
    ensures
        match res {
            Some(k) => k < credits@.len() && credit_of(credit_views(credits@), word@) == Some(credits@[k as int].1@),
            None => credit_of(credit_views(credits@), word@) is None,
        },
{
    let ghost cv = credit_views(credits@);
    let mut j: usize = credits.len();
    assert(cv.take(j as int) =~= cv);
    while j > 0
        invariant
            j <= credits@.len(),
            cv == credit_views(credits@),
            credit_of(cv, word@) == credit_of(cv.take(j as int), word@),
        decreases j,
    {
        let ghost t = cv.take(j as int);
        assert(t.drop_last() =~= cv.take(j - 1));
        assert(t.last() == (credits@[j - 1].0@, credits@[j - 1].1@));
        if str_eq(credits[j - 1].0.as_str(), word) {
            return Some(j - 1);
        }
        j = j - 1;
    }
    None
}

/// The opening of the credits list written beside a packed library.
pub const ATTRIBUTION_HEADER: &'static str = "# 单词发音录音署名清单\n\n本文件由 `qingjian-dict-convert pack audio` 生成，逐条列出打进包里的真人录音及其许可证与作者。\n合成发音由 Kokoro-82M（Apache-2.0）本地生成，不要求逐条署名，不在此列。\n\n| 词 | 许可证 | 作者 | 来源 |\n| --- | --- | --- | --- |\n";

/// A table row of a credits list: `| word | licence | author | page |` and a line feed.
pub open spec fn credit_row(word: Seq<char>, license: Seq<char>, author: Seq<char>, page: Seq<char>) -> Seq<char> {
    "| "@ + word + " | "@ + license + " | "@ + author + " | "@ + page + " |\n"@
}

/// A row of a credits list: a word and its credit.
pub type CreditRowView = (Seq<char>, CreditView);

/// The credited words of a packed library, in library order, each with its credit (synthetic
/// recordings have none).
pub open spec fn credited_rows(words: Seq<Seq<char>>, credits: Seq<(Seq<char>, CreditView)>) -> Seq<CreditRowView>
    decreases words.len(),
{
    if words.len() == 0 {
        Seq::empty()
    } else {
        let prev = credited_rows(words.drop_last(), credits);
        match credit_of(credits, words.last()) {
            Some(c) => prev.push((words.last(), c)),
            None => prev,
        }
    }
}

/// The licences of `rows`, each once, in the order they first occur.
pub open spec fn licences(rows: Seq<CreditRowView>) -> Seq<Seq<char>>
    decreases rows.len(),
{
    if rows.len() == 0 {
        Seq::empty()
    } else {
        let prev = licences(rows.drop_last());
        if prev.contains(rows.last().1.license) {
            prev
        } else {
            prev.push(rows.last().1.license)
        }
    }
}

/// The rows of `rows` under the licence `l`, in order.
pub open spec fn rows_under(rows: Seq<CreditRowView>, l: Seq<char>) -> Seq<CreditRowView>
    decreases rows.len(),
{
    if rows.len() == 0 {
        Seq::empty()
    } else {
        let prev = rows_under(rows.drop_last(), l);
        if rows.last().1.license == l {
            prev.push(rows.last())
        } else {
            prev
        }
    }
}

/// The rows under each of the licences `lics` in turn.
pub open spec fn grouped(rows: Seq<CreditRowView>, lics: Seq<Seq<char>>) -> Seq<CreditRowView>
    decreases lics.len(),
{
    if lics.len() == 0 {
        Seq::empty()
    } else {
        grouped(rows, lics.drop_last()) + rows_under(rows, lics.last())
    }
}

/// `rows` grouped by licence: the licences in the order they first occur, and under each its
/// rows in their order.
pub open spec fn by_licence(rows: Seq<CreditRowView>) -> Seq<CreditRowView> {
    grouped(rows, licences(rows))
}

/// The table text of `rows`.
pub open spec fn rows_text(rows: Seq<CreditRowView>) -> Seq<char>
    decreases rows.len(),
{
    if rows.len() == 0 {
        Seq::empty()
    } else {
        let r = rows.last();
        rows_text(rows.drop_last()) + credit_row(r.0, r.1.license, r.1.author, r.1.page)
    }
}

/// The rows of the credits list of a packed library whose words are `words`.
pub open spec fn attribution_rows(words: Seq<Seq<char>>, credits: Seq<(Seq<char>, CreditView)>) -> Seq<CreditRowView> {
    by_licence(credited_rows(words, credits))
}

proof fn lemma_rows_under(rows: Seq<CreditRowView>, l: Seq<char>)
    ensures
        forall|x: CreditRowView| #[trigger] rows_under(rows, l).contains(x) <==> (rows.contains(x) && x.1.license == l),
    decreases rows.len(),
{
    if rows.len() > 0 {
        let prev = rows.drop_last();
        lemma_rows_under(prev, l);
        let u = rows_under(rows, l);
        let up = rows_under(prev, l);
        assert forall|x: CreditRowView| #[trigger] u.contains(x) <==> (rows.contains(x) && x.1.license == l) by {
            if u.contains(x) {
                let k = choose|k: int| 0 <= k < u.len() && u[k] == x;
                if k < up.len() {
                    assert(u[k] == up[k]);
                    assert(up.contains(x));
                    let m = choose|m: int| 0 <= m < prev.len() && prev[m] == x;
                    assert(rows[m] == x);
                } else {
                    assert(rows[rows.len() - 1] == x);
                }
            }
            if rows.contains(x) && x.1.license == l {
                let m = choose|m: int| 0 <= m < rows.len() && rows[m] == x;
                if m < rows.len() - 1 {
                    assert(prev[m] == x);
                    assert(up.contains(x));
                    let k = choose|k: int| 0 <= k < up.len() && up[k] == x;
                    assert(u[k] == x);
                } else {
                    assert(u[u.len() - 1] == x);
                }
            }
        }
    }
}

proof fn lemma_grouped_members(rows: Seq<CreditRowView>, lics: Seq<Seq<char>>)
    ensures
        forall|x: CreditRowView| #[trigger] grouped(rows, lics).contains(x) <==> (rows.contains(x) && lics.contains(x.1.license)),
    decreases lics.len(),
{
    if lics.len() > 0 {
        let pl = lics.drop_last();
        lemma_grouped_members(rows, pl);
        lemma_rows_under(rows, lics.last());
        let g = grouped(rows, lics);
        let gp = grouped(rows, pl);
        let b = rows_under(rows, lics.last());
        assert forall|x: CreditRowView| #[trigger] g.contains(x) <==> (rows.contains(x) && lics.contains(x.1.license)) by {
            if g.contains(x) {
                let k = choose|k: int| 0 <= k < g.len() && g[k] == x;
                if k < gp.len() {
                    assert(gp[k] == x);
                    assert(gp.contains(x));
                    let m = choose|m: int| 0 <= m < pl.len() && pl[m] == x.1.license;
                    assert(lics[m] == x.1.license);
                } else {
                    assert(b[k - gp.len()] == x);
                    assert(b.contains(x));
                    assert(lics[lics.len() - 1] == x.1.license);
                }
            }
            if rows.contains(x) && lics.contains(x.1.license) {
                let m = choose|m: int| 0 <= m < lics.len() && lics[m] == x.1.license;
                if m < lics.len() - 1 {
                    assert(pl[m] == x.1.license);
                    assert(gp.contains(x));
                    let k = choose|k: int| 0 <= k < gp.len() && gp[k] == x;
                    assert(g[k] == x);
                } else {
                    assert(b.contains(x));
                    let k = choose|k: int| 0 <= k < b.len() && b[k] == x;
                    assert(g[gp.len() + k] == x);
                }
            }
        }
    }
}

proof fn lemma_licences(rows: Seq<CreditRowView>)
    ensures
        licences(rows).no_duplicates(),
        forall|l: Seq<char>| #[trigger] licences(rows).contains(l) <==> exists|i: int| 0 <= i < rows.len() && (#[trigger] rows[i]).1.license == l,
    decreases rows.len(),
{
    if rows.len() > 0 {
        let prev = rows.drop_last();
        lemma_licences(prev);
        let lp = licences(prev);
        let ls = licences(rows);
        assert forall|l: Seq<char>| #[trigger] ls.contains(l) <==> exists|i: int| 0 <= i < rows.len() && (#[trigger] rows[i]).1.license == l by {
            if ls.contains(l) {
                if lp.contains(l) {
                    let i = choose|i: int| 0 <= i < prev.len() && (#[trigger] prev[i]).1.license == l;
                    assert(rows[i] == prev[i]);
                } else {
                    let k = choose|k: int| 0 <= k < ls.len() && ls[k] == l;
                    assert(ls[k] == rows.last().1.license);
                    assert(rows[rows.len() - 1].1.license == l);
                }
            }
            if exists|i: int| 0 <= i < rows.len() && (#[trigger] rows[i]).1.license == l {
                let i = choose|i: int| 0 <= i < rows.len() && (#[trigger] rows[i]).1.license == l;
                if i < rows.len() - 1 {
                    assert(prev[i] == rows[i]);
                    assert(lp.contains(l));
                    let k = choose|k: int| 0 <= k < lp.len() && lp[k] == l;
                    assert(ls[k] == l);
                } else if !lp.contains(l) {
                    assert(ls[ls.len() - 1] == l);
                }
            }
        }
    }
}

/// The credits list is grouped by licence: within its rows, rows of one licence stand together.
pub proof fn lemma_credits_grouped_by_licence(rows: Seq<CreditRowView>, i: int, j: int, k: int)
    requires
        0 <= i < j < k < by_licence(rows).len(),
        by_licence(rows)[i].1.license == by_licence(rows)[k].1.license,
    ensures
        by_licence(rows)[j].1.license == by_licence(rows)[i].1.license,
{
    lemma_licences(rows);
    lemma_grouped_contiguous(rows, licences(rows), i, j, k);
}

proof fn lemma_grouped_contiguous(rows: Seq<CreditRowView>, lics: Seq<Seq<char>>, i: int, j: int, k: int)
    requires
        lics.no_duplicates(),
        0 <= i < j < k < grouped(rows, lics).len(),
        grouped(rows, lics)[i].1.license == grouped(rows, lics)[k].1.license,
    ensures
        grouped(rows, lics)[j].1.license == grouped(rows, lics)[i].1.license,
    decreases lics.len(),
{
    let pl = lics.drop_last();
    let l = lics.last();
    let g = grouped(rows, lics);
    let gp = grouped(rows, pl);
    let b = rows_under(rows, l);
    lemma_rows_under(rows, l);
    if k < gp.len() {
        assert(g[i] == gp[i] && g[j] == gp[j] && g[k] == gp[k]);
        lemma_grouped_contiguous(rows, pl, i, j, k);
    } else {
        assert(g[k] == b[k - gp.len()]);
        assert(b.contains(g[k]));
        if j >= gp.len() {
            assert(g[j] == b[j - gp.len()]);
            assert(b.contains(g[j]));
            if i >= gp.len() {
                assert(g[i] == b[i - gp.len()]);
                assert(b.contains(g[i]));
            }
        }
        if i < gp.len() {
            // a row of the earlier groups under the last licence: impossible, licences differ
            assert(g[i] == gp[i]);
            assert(gp.contains(g[i]));
            lemma_grouped_members(rows, pl);
            let m = choose|m: int| 0 <= m < pl.len() && pl[m] == g[i].1.license;
            assert(lics[m] == lics[lics.len() - 1]);
            assert(false);
        }
    }
}

/// How many times `l` occurs in `lics`.
spec fn occurrences(lics: Seq<Seq<char>>, l: Seq<char>) -> nat
    decreases lics.len(),
{
    if lics.len() == 0 {
        0
    } else {
        occurrences(lics.drop_last(), l) + if lics.last() == l {
            1nat
        } else {
            0nat
        }
    }
}

proof fn lemma_occurrences(lics: Seq<Seq<char>>, l: Seq<char>)
    requires
        lics.no_duplicates(),
    ensures
        occurrences(lics, l) == if lics.contains(l) {
            1nat
        } else {
            0nat
        },
    decreases lics.len(),
{
    if lics.len() > 0 {
        let pl = lics.drop_last();
        assert(pl.no_duplicates()) by {
            assert forall|a: int, b: int| 0 <= a < pl.len() && 0 <= b < pl.len() && a != b implies pl[a] != pl[b] by {
                assert(pl[a] == lics[a] && pl[b] == lics[b]);
            }
        }
        lemma_occurrences(pl, l);
        if pl.contains(l) {
            let m = choose|m: int| 0 <= m < pl.len() && pl[m] == l;
            assert(lics[m] == l);
            assert(lics.last() != l);
            assert(lics.contains(l));
        } else if lics.last() == l {
            assert(lics[lics.len() - 1] == l);
        } else {
            assert(!lics.contains(l)) by {
                if lics.contains(l) {
                    let m = choose|m: int| 0 <= m < lics.len() && lics[m] == l;
                    if m < lics.len() - 1 {
                        assert(pl[m] == l);
                    }
                }
            }
        }
    }
}

proof fn lemma_grouped_push(r: Seq<CreditRowView>, x: CreditRowView, lics: Seq<Seq<char>>)
    ensures
        grouped(r.push(x), lics).len() == grouped(r, lics).len() + occurrences(lics, x.1.license),
    decreases lics.len(),
{
    if lics.len() > 0 {
        lemma_grouped_push(r, x, lics.drop_last());
        assert(r.push(x).drop_last() =~= r);
    }
}

proof fn lemma_grouped_len(rows: Seq<CreditRowView>, lics: Seq<Seq<char>>)
    requires
        lics.no_duplicates(),
        forall|i: int| 0 <= i < rows.len() ==> lics.contains(#[trigger] rows[i].1.license),
    ensures
        grouped(rows, lics).len() == rows.len(),
    decreases rows.len(),
{
    if rows.len() == 0 {
        lemma_grouped_empty(rows, lics);
    } else {
        let r = rows.drop_last();
        assert forall|i: int| 0 <= i < r.len() implies lics.contains(#[trigger] r[i].1.license) by {
            assert(r[i] == rows[i]);
        }
        lemma_grouped_len(r, lics);
        assert(r.push(rows.last()) =~= rows);
        lemma_grouped_push(r, rows.last(), lics);
        assert(lics.contains(rows[rows.len() - 1].1.license));
        lemma_occurrences(lics, rows.last().1.license);
    }
}

proof fn lemma_grouped_empty(rows: Seq<CreditRowView>, lics: Seq<Seq<char>>)
    requires
        rows.len() == 0,
    ensures
        grouped(rows, lics).len() == 0,
    decreases lics.len(),
{
    if lics.len() > 0 {
        lemma_grouped_empty(rows, lics.drop_last());
    }
}

/// The credits list holds the credited rows and nothing else, as many rows as there are.
pub proof fn lemma_credits_keep_rows(rows: Seq<CreditRowView>)
    ensures
        forall|x: CreditRowView| #[trigger] by_licence(rows).contains(x) <==> rows.contains(x),
        by_licence(rows).len() == rows.len(),
{
    lemma_licences(rows);
    lemma_grouped_members(rows, licences(rows));
    assert forall|i: int| 0 <= i < rows.len() implies licences(rows).contains(#[trigger] rows[i].1.license) by {
        assert(rows[i].1.license == rows[i].1.license);
    }
    lemma_grouped_len(rows, licences(rows));
    assert forall|x: CreditRowView| #[trigger] by_licence(rows).contains(x) <==> rows.contains(x) by {
        if rows.contains(x) {
            let i = choose|i: int| 0 <= i < rows.len() && rows[i] == x;
            assert(rows[i].1.license == x.1.license);
            assert(licences(rows).contains(x.1.license));
        }
    }
}

/// Appends the characters of `s` to `out`.
pub(crate) fn push_str_chars(out: &mut Vec<char>, s: &str)
    ensures
        final(out)@ == old(out)@ + s@,
{
    let mut t = chars_of(s);
    out.append(&mut t);
}

/// Appends a table row of a credits list to `out`.
pub(crate) fn push_credit_row(out: &mut Vec<char>, word: &str, license: &str, author: &str, page: &str)
    ensures
        final(out)@ == old(out)@ + credit_row(word@, license@, author@, page@),
{
    push_str_chars(out, "| ");
    push_str_chars(out, word);
    push_str_chars(out, " | ");
    push_str_chars(out, license);
    push_str_chars(out, " | ");
    push_str_chars(out, author);
    push_str_chars(out, " | ");
    push_str_chars(out, page);
    push_str_chars(out, " |\n");
    assert(out@ =~= old(out)@ + credit_row(word@, license@, author@, page@));
}

/// A copy of a credit.
fn copy_credit(c: &Credit) -> (res: Credit)
    ensures
        res@ == c@,
{
    Credit { license: c.license.clone(), author: c.author.clone(), page: c.page.clone() }
}

/// Whether `list` holds `s`.
pub(crate) fn holds_str(list: &Vec<String>, s: &str) -> (res: bool)
    ensures
        res == views(list@).contains(s@),
{
    let ghost lv = views(list@);
    let mut k: usize = 0;
    while k < list.len()
        invariant
            k <= list@.len(),
            lv == views(list@),
            forall|j: int| 0 <= j < k ==> lv[j] != s@,
        decreases list@.len() - k,
    {
        assert(lv[k as int] == list@[k as int]@);
        if str_eq(list[k].as_str(), s) {
            return true;
        }
        k = k + 1;
    }
    assert(!lv.contains(s@)) by {
        if lv.contains(s@) {
            let j = choose|j: int| 0 <= j < lv.len() && lv[j] == s@;
            assert(lv[j] != s@);
        }
    }
    false
}

/// The credited words among `words` (in library order) with their credits.
fn credited(words: &Vec<String>, credits: &Vec<(String, Credit)>) -> (res: Vec<(String, Credit)>)
    ensures
        credit_views(res@) == credited_rows(views(words@), credit_views(credits@)),
{
    let ghost wv = views(words@);
    let ghost cv = credit_views(credits@);
    let mut rows: Vec<(String, Credit)> = Vec::new();
    let mut i: usize = 0;
    while i < words.len()
        invariant
            i <= words@.len(),
            wv == views(words@),
            cv == credit_views(credits@),
            credit_views(rows@) == credited_rows(wv.take(i as int), cv),
        decreases words@.len() - i,
    {
        let ghost next = wv.take(i + 1);
        assert(next.drop_last() =~= wv.take(i as int));
        assert(next.last() == words@[i as int]@);
        match find_credit(credits, words[i].as_str()) {
            Some(k) => {
                let row = (words[i].clone(), copy_credit(&credits[k].1));
                let ghost before = rows@;
                rows.push(row);
                assert(credit_views(rows@) =~= credit_views(before).push((words@[i as int]@, credits@[k as int].1@)));
            },
            None => {},
        }
        i = i + 1;
    }
    assert(wv.take(words@.len() as int) =~= wv);
    rows
}

/// The licences of `rows`, each once, in the order they first occur.
fn licences_of(rows: &Vec<(String, Credit)>) -> (res: Vec<String>)
    ensures
        views(res@) == licences(credit_views(rows@)),
{
    let ghost rv = credit_views(rows@);
    let mut lics: Vec<String> = Vec::new();
    let mut j: usize = 0;
    while j < rows.len()
        invariant
            j <= rows@.len(),
            rv == credit_views(rows@),
            views(lics@) == licences(rv.take(j as int)),
        decreases rows@.len() - j,
    {
        let ghost next = rv.take(j + 1);
        assert(next.drop_last() =~= rv.take(j as int));
        assert(next.last() == (rows@[j as int].0@, rows@[j as int].1@));
        let license = &rows[j].1.license;
        if !holds_str(&lics, license.as_str()) {
            let ghost before = lics@;
            lics.push(license.clone());
            assert(views(lics@) =~= views(before).push(license@));
        }
        j = j + 1;
    }
    assert(rv.take(rows@.len() as int) =~= rv);
    lics
}

/// The credits list of a packed library, whose words are `words` (in library order): the
/// header, then one row per word that has a credit, grouped by licence — the licences in the
/// order they first occur, under each its words in library order. Only the human recordings
/// actually packed are listed. Also gives how many rows it holds.
pub fn attribution(words: &Vec<String>, credits: &Vec<(String, Credit)>) -> (res: (String, usize))
    ensures
        res.0@ == ATTRIBUTION_HEADER@ + rows_text(attribution_rows(views(words@), credit_views(credits@))),
        res.1 == credited_rows(views(words@), credit_views(credits@)).len(),
{
    let rows = credited(words, credits);
    let lics = licences_of(&rows);
    let ghost rv = credit_views(rows@);
    let ghost lv = views(lics@);
    let mut out: Vec<char> = Vec::new();
    push_str_chars(&mut out, ATTRIBUTION_HEADER);
    assert(rows_text(grouped(rv, lv.take(0))) =~= Seq::<char>::empty());
    let mut k: usize = 0;
    while k < lics.len()
        invariant
            k <= lics@.len(),
            rv == credit_views(rows@),
            lv == views(lics@),
            out@ == ATTRIBUTION_HEADER@ + rows_text(grouped(rv, lv.take(k as int))),
        decreases lics@.len() - k,
    {
        let license = lics[k].as_str();
        let ghost done = grouped(rv, lv.take(k as int));
        let mut j: usize = 0;
        while j < rows.len()
            invariant
                j <= rows@.len(),
                rv == credit_views(rows@),
                lv == views(lics@),
                k < lics@.len(),
                license@ == lv[k as int],
                done == grouped(rv, lv.take(k as int)),
                out@ == ATTRIBUTION_HEADER@ + rows_text(done + rows_under(rv.take(j as int), license@)),
            decreases rows@.len() - j,
        {
            let ghost next = rv.take(j + 1);
            assert(next.drop_last() =~= rv.take(j as int));
            assert(next.last() == (rows@[j as int].0@, rows@[j as int].1@));
            let (word, c) = &rows[j];
            if str_eq(c.license.as_str(), license) {
                let ghost prev = done + rows_under(rv.take(j as int), license@);
                push_credit_row(&mut out, word.as_str(), c.license.as_str(), c.author.as_str(), c.page.as_str());
                let ghost r = next.last();
                assert(done + rows_under(next, license@) =~= prev.push(r));
                assert(prev.push(r).drop_last() =~= prev);
                assert(rows_text(prev.push(r)) == rows_text(prev) + credit_row(r.0, r.1.license, r.1.author, r.1.page));
                assert(out@ =~= ATTRIBUTION_HEADER@ + rows_text(done + rows_under(next, license@)));
            } else {
                assert(rows_under(next, license@) == rows_under(rv.take(j as int), license@));
            }
            j = j + 1;
        }
        assert(rv.take(rows@.len() as int) =~= rv);
        let ghost lnext = lv.take(k + 1);
        assert(lnext.drop_last() =~= lv.take(k as int));
        assert(lnext.last() == license@);
        k = k + 1;
    }
    assert(lv.take(lics@.len() as int) =~= lv);
    (string_of(&out), rows.len())
}

} // verus!
