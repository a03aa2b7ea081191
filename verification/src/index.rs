//! The text format of the download cache's index: one tab-separated line per word —
//! word, file, licence, author, source page, gain — under a commented header line.
//!
//! Gains are kept in hundredths of a decibel: the index writes them with two decimals.

use vstd::prelude::*;

use crate::text::{is_space, lowercase_of, string_of, to_lowercase, trim, trim_chars, trim_end, trim_start};

verus! {

/// The pieces of `s` between the separators `c` (what `str::split` yields; always at least one).
pub open spec fn split_on(s: Seq<char>, c: char) -> Seq<Seq<char>>
    decreases s.len(),
{
    if s.len() == 0 {
        seq![Seq::<char>::empty()]
    } else {
        let prev = split_on(s.drop_last(), c);
        if s.last() == c {
            prev.push(Seq::empty())
        } else {
            prev.update(prev.len() - 1, prev.last().push(s.last()))
        }
    }
}

proof fn lemma_split_on_nonempty(s: Seq<char>, c: char)
    ensures
        split_on(s, c).len() >= 1,
    decreases s.len(),
{
    if s.len() > 0 {
        lemma_split_on_nonempty(s.drop_last(), c);
    }
}

/// The views of a list of character vectors.
pub open spec fn char_views(v: Seq<Vec<char>>) -> Seq<Seq<char>> {
    v.map_values(|x: Vec<char>| x@)
}

/// The pieces of `v` between the separators `sep`.
pub fn split_chars(v: &Vec<char>, sep: char) -> (res: Vec<Vec<char>>)
    ensures
        char_views(res@) == split_on(v@, sep),
        res@.len() >= 1,
{
    let mut pieces: Vec<Vec<char>> = Vec::new();
    let mut current: Vec<char> = Vec::new();
    let mut i: usize = 0;
    while i < v.len()
        invariant
            i <= v@.len(),
            char_views(pieces@).push(current@) == split_on(v@.take(i as int), sep),
        decreases v@.len() - i,
    {
        let c = v[i];
        let ghost t = v@.take(i + 1);
        assert(t.drop_last() =~= v@.take(i as int));
        assert(t.last() == c);
        proof {
            lemma_split_on_nonempty(t.drop_last(), sep);
        }
        if c == sep {
            let done = current;
            pieces.push(done);
            current = Vec::new();
            assert(char_views(pieces@).push(current@) =~= split_on(t, sep));
        } else {
            let ghost before = current@;
            current.push(c);
            assert(char_views(pieces@).push(current@) =~= split_on(t, sep));
        }
        i = i + 1;
    }
    assert(v@.take(v@.len() as int) =~= v@);
    pieces.push(current);
    pieces
}

/// An ASCII digit.
pub open spec fn is_digit(c: char) -> bool {
    '0' <= c <= '9'
}

/// The value of an ASCII digit.
pub open spec fn digit_value(c: char) -> int {
    c as int - '0' as int
}

/// Every character of `s` is an ASCII digit.
pub open spec fn all_digits(s: Seq<char>) -> bool {
    forall|i: int| 0 <= i < s.len() ==> is_digit(#[trigger] s[i])
}

/// The number written by the decimal digits `s` (0 for no digits).
pub open spec fn digits_value(s: Seq<char>) -> nat
    decreases s.len(),
{
    if s.len() == 0 {
        0
    } else {
        (digits_value(s.drop_last()) * 10 + digit_value(s.last())) as nat
    }
}

/// The largest integer part accepted in a gain.
pub open spec fn max_gain_integer() -> nat {
    30_000_000
}

/// A gain field read as hundredths of a decibel: an optional sign, decimal digits, and an
/// optional point followed by decimals, at least one digit in all; decimals beyond the second
/// are dropped. `None` for anything else, or for a value outside `i32` or with an integer part
/// above thirty million.
pub open spec fn parse_gain(s: Seq<char>) -> Option<i32> {
    let negative = s.len() > 0 && s[0] == '-';
    let body = if s.len() > 0 && (s[0] == '-' || s[0] == '+') {
        s.drop_first()
    } else {
        s
    };
    let parts = split_on(body, '.');
    let int_part = parts[0];
    let frac = if parts.len() == 2 {
        parts[1]
    } else {
        Seq::empty()
    };
    if parts.len() > 2 || !all_digits(int_part) || !all_digits(frac) || int_part.len()
        + frac.len() == 0 || digits_value(int_part) > max_gain_integer() {
        None
    } else {
        let h = digits_value(int_part) * 100 + (if frac.len() >= 1 {
            digit_value(frac[0]) * 10
        } else {
            0
        }) + (if frac.len() >= 2 {
            digit_value(frac[1])
        } else {
            0
        });
        let v = if negative {
            -h
        } else {
            h
        };
        if i32::MIN <= v <= i32::MAX {
            Some(v as i32)
        } else {
            None
        }
    }
}

proof fn lemma_digits_value_monotone(s: Seq<char>, k: int)
    requires
        all_digits(s),
        0 <= k <= s.len(),
    ensures
        digits_value(s.take(k)) <= digits_value(s),
    decreases s.len() - k,
{
    if k < s.len() {
        lemma_digits_value_monotone(s, k + 1);
        assert(s.take(k + 1).drop_last() =~= s.take(k));
        assert(is_digit(s[k]));
    } else {
        assert(s.take(k) =~= s);
    }
}

/// Whether every character of `v` is an ASCII digit.
fn chars_all_digits(v: &Vec<char>) -> (res: bool)
    ensures
        res == all_digits(v@),
{
    let mut i: usize = 0;
    while i < v.len()
        invariant
            i <= v@.len(),
            forall|k: int| 0 <= k < i ==> is_digit(#[trigger] v@[k]),
        decreases v@.len() - i,
    {
        let c = v[i];
        if !('0' <= c && c <= '9') {
            assert(!is_digit(v@[i as int]));
            return false;
        }
        i = i + 1;
    }
    true
}

/// The value of the digits `v`, or `None` when it is above thirty million.
fn capped_digits_value(v: &Vec<char>) -> (res: Option<u64>)
    requires
        all_digits(v@),
    ensures
        match res {
            Some(x) => x == digits_value(v@) && x <= max_gain_integer(),
            None => digits_value(v@) > max_gain_integer(),
        },
{
    let mut acc: u64 = 0;
    let mut i: usize = 0;
    while i < v.len()
        invariant
            all_digits(v@),
            i <= v@.len(),
            acc == digits_value(v@.take(i as int)),
            acc <= 30_000_000,
        decreases v@.len() - i,
    {
        let c = v[i];
        assert(v@.take(i + 1).drop_last() =~= v@.take(i as int));
        assert(is_digit(v@[i as int]));
        let next = acc * 10 + (c as u64 - '0' as u64);
        if next > 30_000_000 {
            proof {
                lemma_digits_value_monotone(v@, i + 1);
            }
            return None;
        }
        acc = next;
        i = i + 1;
    }
    assert(v@.take(v@.len() as int) =~= v@);
    Some(acc)
}

/// Reads a gain field (see [`parse_gain`]).
pub fn parse_gain_chars(s: &Vec<char>) -> (res: Option<i32>)
    ensures
        res == parse_gain(s@),
{
    let n = s.len();
    let negative = n > 0 && s[0] == '-';
    let mut body: Vec<char> = Vec::new();
    let start: usize = if n > 0 && (s[0] == '-' || s[0] == '+') {
        1
    } else {
        0
    };
    let mut i: usize = start;
    while i < n
        invariant
            start <= i <= n,
            n == s@.len(),
            body@ == s@.subrange(start as int, i as int),
        decreases n - i,
    {
        body.push(s[i]);
        assert(body@ =~= s@.subrange(start as int, i + 1));
        i = i + 1;
    }
    assert(start == 1 ==> body@ =~= s@.drop_first());
    assert(start == 0 ==> body@ =~= s@);
    let parts = split_chars(&body, '.');
    assert(parts@[0]@ == split_on(body@, '.')[0]);
    if parts.len() > 2 {
        return None;
    }
    let empty: Vec<char> = Vec::new();
    let frac: &Vec<char> = if parts.len() == 2 {
        assert(parts@[1]@ == split_on(body@, '.')[1]);
        &parts[1]
    } else {
        &empty
    };
    if !chars_all_digits(&parts[0]) || !chars_all_digits(frac) {
        return None;
    }
    if parts[0].len() == 0 && frac.len() == 0 {
        return None;
    }
    let int_value = match capped_digits_value(&parts[0]) {
        Some(x) => x,
        None => {
            return None;
        },
    };
    let mut frac_value: u64 = 0;
    if frac.len() >= 1 {
        assert(is_digit(frac@[0]));
        frac_value = (frac[0] as u64 - '0' as u64) * 10;
    }
    if frac.len() >= 2 {
        assert(is_digit(frac@[1]));
        frac_value = frac_value + (frac[1] as u64 - '0' as u64);
    }
    let h: i64 = (int_value * 100 + frac_value) as i64;
    let v: i64 = if negative {
        -h
    } else {
        h
    };
    if v < -2147483648 || v > 2147483647 {
        return None;
    }
    Some(v as i32)
}

/// The character of the decimal digit `d`.
pub open spec fn digit_char(d: int) -> char {
    (d + '0' as int) as char
}

/// The decimal digits of `n`, without leading zeros (`0` for zero).
pub open spec fn nat_text(n: nat) -> Seq<char>
    decreases n,
{
    if n < 10 {
        seq![digit_char(n as int)]
    } else {
        nat_text(n / 10).push(digit_char((n % 10) as int))
    }
}

/// `|g|`.
pub open spec fn magnitude(g: int) -> nat {
    if g < 0 {
        (-g) as nat
    } else {
        g as nat
    }
}

/// A gain in hundredths of a decibel written with two decimals, as the index stores it:
/// `350` is `3.50`, `-200` is `-2.00`, `5` is `0.05`.
pub open spec fn gain_text(g: i32) -> Seq<char> {
    let a = magnitude(g as int);
    (if g < 0 {
        seq!['-']
    } else {
        Seq::<char>::empty()
    }) + nat_text(a / 100).push('.').push(digit_char(((a / 10) % 10) as int)).push(
        digit_char((a % 10) as int),
    )
}

proof fn lemma_digit_char(d: int)
    requires
        0 <= d < 10,
    ensures
        is_digit(digit_char(d)),
        digit_value(digit_char(d)) == d,
        !is_space(digit_char(d)),
        digit_char(d) != '.' && digit_char(d) != '-' && digit_char(d) != '+',
        digit_char(d) != '\t' && digit_char(d) != '\n' && digit_char(d) != '#',
{
}

proof fn lemma_nat_text(n: nat)
    ensures
        all_digits(nat_text(n)),
        digits_value(nat_text(n)) == n,
        nat_text(n).len() >= 1,
    decreases n,
{
    if n < 10 {
        lemma_digit_char(n as int);
        let t = seq![digit_char(n as int)];
        assert(t.drop_last() =~= Seq::<char>::empty());
        assert(t.last() == digit_char(n as int));
        assert(digits_value(t) == digits_value(t.drop_last()) * 10 + digit_value(t.last()));
    } else {
        lemma_nat_text(n / 10);
        lemma_digit_char((n % 10) as int);
        let t = nat_text(n / 10);
        let u = t.push(digit_char((n % 10) as int));
        assert(u.drop_last() =~= t);
        assert(digits_value(u) == digits_value(t) * 10 + digit_value(u.last()));
        assert((n / 10) * 10 + n % 10 == n) by (nonlinear_arith);
        assert forall|i: int| 0 <= i < nat_text(n).len() implies is_digit(#[trigger] nat_text(n)[i]) by {
            if i < t.len() {
                assert(nat_text(n)[i] == t[i]);
            }
        }
    }
}

proof fn lemma_split_no_sep(s: Seq<char>, c: char)
    requires
        !s.contains(c),
    ensures
        split_on(s, c) == seq![s],
    decreases s.len(),
{
    if s.len() > 0 {
        assert(!s.drop_last().contains(c)) by {
            if s.drop_last().contains(c) {
                let k = choose|k: int| 0 <= k < s.drop_last().len() && s.drop_last()[k] == c;
                assert(s[k] == c);
            }
        }
        lemma_split_no_sep(s.drop_last(), c);
        assert(s.drop_last().push(s.last()) =~= s);
        assert(s.last() != c) by {
            assert(s[s.len() - 1] == s.last());
        }
    } else {
        assert(s =~= Seq::<char>::empty());
    }
}

proof fn lemma_split_append(s: Seq<char>, t: Seq<char>, c: char)
    requires
        !t.contains(c),
    ensures
        split_on(s.push(c) + t, c) == split_on(s, c).push(t),
    decreases t.len(),
{
    lemma_split_on_nonempty(s, c);
    if t.len() == 0 {
        assert(s.push(c) + t =~= s.push(c));
        assert(s.push(c).drop_last() =~= s);
        assert(s.push(c).last() == c);
        assert(t =~= Seq::<char>::empty());
    } else {
        let u = t.drop_last();
        assert(!u.contains(c)) by {
            if u.contains(c) {
                let k = choose|k: int| 0 <= k < u.len() && u[k] == c;
                assert(t[k] == c);
            }
        }
        lemma_split_append(s, u, c);
        let w = s.push(c) + t;
        assert(w.drop_last() =~= s.push(c) + u);
        assert(w.last() == t.last());
        assert(t.last() != c) by {
            assert(t[t.len() - 1] == t.last());
        }
        assert(u.push(t.last()) =~= t);
        assert(split_on(w, c) =~= split_on(s, c).push(t));
    }
}

proof fn lemma_hundredths(a: nat)
    ensures
        (a / 100) * 100 + ((a / 10) % 10) * 10 + a % 10 == a,
{
    assert((a / 100) * 100 + ((a / 10) % 10) * 10 + a % 10 == a) by (nonlinear_arith);
}

/// Reading a written gain gives the gain back.
pub proof fn lemma_gain_round_trip(g: i32)
    ensures
        parse_gain(gain_text(g)) == Some(g),
{
    let a = magnitude(g as int);
    let d1 = digit_char(((a / 10) % 10) as int);
    let d2 = digit_char((a % 10) as int);
    let digits = nat_text(a / 100);
    lemma_nat_text(a / 100);
    lemma_digit_char(((a / 10) % 10) as int);
    lemma_digit_char((a % 10) as int);
    let body = digits.push('.').push(d1).push(d2);
    let s = gain_text(g);
    if g < 0 {
        assert(s =~= seq!['-'] + body);
        assert(s.drop_first() =~= body);
    } else {
        assert(s =~= body);
    }
    assert(body[0] == digits[0]);
    let frac = seq![d1, d2];
    assert(body =~= digits.push('.') + frac);
    assert(!digits.contains('.')) by {
        if digits.contains('.') {
            let k = choose|k: int| 0 <= k < digits.len() && digits[k] == '.';
            assert(is_digit(digits[k]));
        }
    }
    assert(!frac.contains('.')) by {
        if frac.contains('.') {
            let k = choose|k: int| 0 <= k < frac.len() && frac[k] == '.';
            assert(frac[k] == d1 || frac[k] == d2);
        }
    }
    lemma_split_no_sep(digits, '.');
    lemma_split_append(digits, frac, '.');
    assert(split_on(body, '.') =~= seq![digits, frac]);
    assert(all_digits(frac)) by {
        assert forall|i: int| 0 <= i < frac.len() implies is_digit(#[trigger] frac[i]) by {
            assert(frac[i] == d1 || frac[i] == d2);
        }
    }
    lemma_hundredths(a);
    assert(a / 100 <= 21474837) by (nonlinear_arith)
        requires
            a <= 2147483648,
    ;
}

/// Appends the decimal digits of `n` to `out`.
pub(crate) fn push_nat_text(n: u64, out: &mut Vec<char>)
    ensures
        final(out)@ == old(out)@ + nat_text(n as nat),
    decreases n,
{
    if n >= 10 {
        push_nat_text(n / 10, out);
    }
    let ghost before = out@;
    out.push(digit_char_of(n % 10));
    proof {
        if n < 10 {
            assert(n % 10 == n);
        }
    }
    assert(out@ =~= old(out)@ + nat_text(n as nat));
}

/// The character of the decimal digit `d`.
fn digit_char_of(d: u64) -> (res: char)
    requires
        d < 10,
    ensures
        res == digit_char(d as int),
{
    match d {
        0 => '0',
        1 => '1',
        2 => '2',
        3 => '3',
        4 => '4',
        5 => '5',
        6 => '6',
        7 => '7',
        8 => '8',
        _ => '9',
    }
}

/// Writes a gain with two decimals (see [`gain_text`]).
pub fn gain_string(g: i32) -> (res: String)
    ensures
        res@ == gain_text(g),
{
    let a: u64 = if g < 0 {
        (-(g as i64)) as u64
    } else {
        g as u64
    };
    assert(a == magnitude(g as int));
    let mut out: Vec<char> = Vec::new();
    if g < 0 {
        out.push('-');
    }
    push_nat_text(a / 100, &mut out);
    out.push('.');
    out.push(digit_char_of((a / 10) % 10));
    out.push(digit_char_of(a % 10));
    let ghost sign = if g < 0 {
        seq!['-']
    } else {
        Seq::<char>::empty()
    };
    assert(out@ =~= gain_text(g));
    string_of(&out)
}

/// One pronunciation in the download cache.
#[derive(Debug, Clone, PartialEq)]
pub struct CachedWord {
    /// The audio file name relative to the cache directory, such as `hello.ogg`.
    pub file: String,
    /// The licence (`CC BY-SA 3.0` and the like, as given upstream); CC-BY-SA and CC-BY ask for
    /// credit, so it must be kept.
    pub license: String,
    /// The author / speaker.
    pub author: String,
    /// The URL of the file page, the source named in the credits.
    pub page: String,
    /// How many hundredths of a decibel to add when playing, to reach the common loudness.
    /// Downloaded recordings differ by 20 dB; the gain is measured once after the download and
    /// kept.
    pub gain_centi_db: i32,
}

/// The contents of a [`CachedWord`].
pub struct CachedWordView {
    pub file: Seq<char>,
    pub license: Seq<char>,
    pub author: Seq<char>,
    pub page: Seq<char>,
    pub gain: i32,
}

impl View for CachedWord {
    type V = CachedWordView;

    open spec fn view(&self) -> CachedWordView {
        CachedWordView {
            file: self.file@,
            license: self.license@,
            author: self.author@,
            page: self.page@,
            gain: self.gain_centi_db,
        }
    }
}

/// The index line of `word`: word, file, licence, author, page and gain, separated by tabs.
pub open spec fn index_line(word: Seq<char>, r: CachedWordView) -> Seq<char> {
    word.push('\t') + r.file.push('\t') + r.license.push('\t') + r.author.push('\t') + r.page.push(
        '\t',
    ) + gain_text(r.gain)
}

/// What a line of the index says: nothing for a blank line, a comment (`#`), a line with fewer
/// than six fields or an unreadable gain; otherwise the lower-cased word of the first field and
/// its record. The line is trimmed first; fields past the sixth are ignored.
pub open spec fn parse_line(line: Seq<char>) -> Option<(Seq<char>, CachedWordView)> {
    let t = trim(line);
    if t.len() == 0 || t[0] == '#' {
        None
    } else {
        let f = split_on(t, '\t');
        if f.len() < 6 {
            None
        } else {
            match parse_gain(f[5]) {
                None => None,
                Some(g) => Some(
                    (
                        lowercase_of(f[0]),
                        CachedWordView {
                            file: f[1],
                            license: f[2],
                            author: f[3],
                            page: f[4],
                            gain: g,
                        },
                    ),
                ),
            }
        }
    }
}

/// Reads one line of the index (see [`parse_line`]).
pub fn parse_index_line(line: &Vec<char>) -> (res: Option<(String, CachedWord)>)
    ensures
        match res {
            Some((k, r)) => parse_line(line@) == Some((k@, r@)),
            None => parse_line(line@) is None,
        },
{
    let t = trim_chars(line);
    if t.len() == 0 || t[0] == '#' {
        return None;
    }
    let fields = split_chars(&t, '\t');
    if fields.len() < 6 {
        return None;
    }
    assert(forall|i: int| 0 <= i < fields@.len() ==> #[trigger] fields@[i]@ == split_on(t@, '\t')[i]);
    let gain = match parse_gain_chars(&fields[5]) {
        Some(g) => g,
        None => {
            return None;
        },
    };
    let word = to_lowercase(string_of(&fields[0]).as_str());
    let record = CachedWord {
        file: string_of(&fields[1]),
        license: string_of(&fields[2]),
        author: string_of(&fields[3]),
        page: string_of(&fields[4]),
        gain_centi_db: gain,
    };
    Some((word, record))
}

/// Writes the index line of `word` (see [`index_line`]).
pub fn index_line_string(word: &str, r: &CachedWord) -> (res: String)
    ensures
        res@ == index_line(word@, r@),
{
    let res = word.to_owned().concat("\t").concat(r.file.as_str()).concat("\t").concat(
        r.license.as_str(),
    ).concat("\t").concat(r.author.as_str()).concat("\t").concat(r.page.as_str()).concat(
        "\t",
    ).concat(gain_string(r.gain_centi_db).as_str());
    proof {
        reveal_strlit("\t");
    }
    assert(res@ =~= index_line(word@, r@));
    res
}

/// The header line of the index.
pub open spec fn index_header() -> Seq<char> {
    "# 词\t文件\t许可证\t作者\t来源页\t增益(dB)"@
}

/// The header line of the index.
pub const INDEX_HEADER: &'static str = "# 词\t文件\t许可证\t作者\t来源页\t增益(dB)";

/// The name of the index file in the cache directory.
pub const INDEX_FILE: &'static str = "index.tsv";

/// The index text of the entries `v` without its final line break: the header and one line
/// per entry, each line after a line break.
pub open spec fn index_body(v: Seq<(Seq<char>, CachedWordView)>) -> Seq<char>
    decreases v.len(),
{
    if v.len() == 0 {
        index_header()
    } else {
        index_body(v.drop_last()).push('\n') + index_line(v.last().0, v.last().1)
    }
}

/// The whole index file for the entries `v`: the header and one line per entry, each line
/// ended by a line break.
pub open spec fn index_text(v: Seq<(Seq<char>, CachedWordView)>) -> Seq<char> {
    index_body(v).push('\n')
}

/// The map an index gives: the lines read in order, a later line for a word replacing an
/// earlier one.
pub open spec fn apply_lines(
    m: Map<Seq<char>, CachedWordView>,
    lines: Seq<Seq<char>>,
) -> Map<Seq<char>, CachedWordView>
    decreases lines.len(),
{
    if lines.len() == 0 {
        m
    } else {
        let prev = apply_lines(m, lines.drop_last());
        match parse_line(lines.last()) {
            Some(kv) => prev.insert(kv.0, kv.1),
            None => prev,
        }
    }
}

/// The map the entries `v` give when inserted in order.
pub open spec fn to_map(v: Seq<(Seq<char>, CachedWordView)>) -> Map<Seq<char>, CachedWordView>
    decreases v.len(),
{
    if v.len() == 0 {
        Map::empty()
    } else {
        to_map(v.drop_last()).insert(v.last().0, v.last().1)
    }
}

/// An entry survives the index format: its word is not empty, starts with neither whitespace
/// nor `#`, is its own lower case, and no field holds a tab or a line break.
pub open spec fn storable(word: Seq<char>, r: CachedWordView) -> bool {
    &&& word.len() > 0
    &&& !is_space(word[0])
    &&& word[0] != '#'
    &&& lowercase_of(word) == word
    &&& !word.contains('\t') && !word.contains('\n')
    &&& !r.file.contains('\t') && !r.file.contains('\n')
    &&& !r.license.contains('\t') && !r.license.contains('\n')
    &&& !r.author.contains('\t') && !r.author.contains('\n')
    &&& !r.page.contains('\t') && !r.page.contains('\n')
}

proof fn lemma_no_char_concat(a: Seq<char>, b: Seq<char>, c: char)
    requires
        !a.contains(c),
        !b.contains(c),
    ensures
        !(a + b).contains(c),
{
    if (a + b).contains(c) {
        let k = choose|k: int| 0 <= k < (a + b).len() && (a + b)[k] == c;
        if k < a.len() {
            assert(a[k] == c);
        } else {
            assert(b[k - a.len()] == c);
        }
    }
}

proof fn lemma_gain_text_plain(g: i32)
    ensures
        !gain_text(g).contains('\t'),
        !gain_text(g).contains('\n'),
        gain_text(g).len() > 0,
        !is_space(gain_text(g).last()),
{
    let a = magnitude(g as int);
    lemma_nat_text(a / 100);
    lemma_digit_char(((a / 10) % 10) as int);
    lemma_digit_char((a % 10) as int);
    let t = gain_text(g);
    let sign = if g < 0 {
        seq!['-']
    } else {
        Seq::<char>::empty()
    };
    let digits = nat_text(a / 100);
    assert forall|k: int| 0 <= k < t.len() implies t[k] != '\t' && t[k] != '\n' by {
        if k < sign.len() {
            assert(t[k] == '-');
        } else if k < sign.len() + digits.len() {
            assert(t[k] == digits[k - sign.len()]);
            assert(is_digit(digits[k - sign.len()]));
        }
    }
    assert(t.last() == digit_char((a % 10) as int));
}

/// Reading the index line of a storable entry gives the entry back.
pub proof fn lemma_line_round_trip(word: Seq<char>, r: CachedWordView)
    ensures
        storable(word, r) ==> parse_line(index_line(word, r)) == Some((word, r)),
{
    if storable(word, r) {
        let line = index_line(word, r);
        lemma_gain_text_plain(r.gain);
        // trimming changes nothing: the line starts with the word and ends with a digit
        assert(line[0] == word[0]);
        assert(trim_start(line) == line);
        assert(line.last() == gain_text(r.gain).last());
        assert(trim_end(line) == line);
        // the six fields
        lemma_split_no_sep(word, '\t');
        lemma_split_append(word, r.file, '\t');
        let s1 = word.push('\t') + r.file;
        lemma_split_append(s1, r.license, '\t');
        let s2 = s1.push('\t') + r.license;
        lemma_split_append(s2, r.author, '\t');
        let s3 = s2.push('\t') + r.author;
        lemma_split_append(s3, r.page, '\t');
        let s4 = s3.push('\t') + r.page;
        lemma_split_append(s4, gain_text(r.gain), '\t');
        assert(line =~= s4.push('\t') + gain_text(r.gain));
        assert(split_on(line, '\t') =~= seq![word, r.file, r.license, r.author, r.page, gain_text(r.gain)]);
        lemma_gain_round_trip(r.gain);
    }
}

proof fn lemma_header_plain()
    ensures
        !index_header().contains('\n'),
        parse_line(index_header()) is None,
{
    reveal_strlit("# 词\t文件\t许可证\t作者\t来源页\t增益(dB)");
    let h = index_header();
    assert(h[0] == '#');
    assert(!is_space(h[0]));
    assert(trim_start(h) == h);
    assert(!is_space(h.last()));
    assert(trim_end(h) == h);
}

/// The line views of the entries `v`.
pub open spec fn entry_lines(v: Seq<(Seq<char>, CachedWordView)>) -> Seq<Seq<char>> {
    v.map_values(|e: (Seq<char>, CachedWordView)| index_line(e.0, e.1))
}

proof fn lemma_index_lines(v: Seq<(Seq<char>, CachedWordView)>)
    requires
        forall|i: int| 0 <= i < v.len() ==> storable((#[trigger] v[i]).0, v[i].1),
    ensures
        split_on(index_body(v), '\n') == seq![index_header()] + entry_lines(v),
    decreases v.len(),
{
    lemma_header_plain();
    if v.len() == 0 {
        lemma_split_no_sep(index_header(), '\n');
        assert(seq![index_header()] + entry_lines(v) =~= seq![index_header()]);
    } else {
        let prev = v.drop_last();
        assert forall|i: int| 0 <= i < prev.len() implies storable((#[trigger] prev[i]).0, prev[i].1) by {
            assert(prev[i] == v[i]);
        }
        lemma_index_lines(prev);
        let e = v.last();
        assert(storable(e.0, e.1)) by {
            assert(v[v.len() - 1] == e);
        }
        lemma_line_plain(e.0, e.1);
        lemma_split_append(index_body(prev), index_line(e.0, e.1), '\n');
        assert(entry_lines(v) =~= entry_lines(prev).push(index_line(e.0, e.1)));
        assert(seq![index_header()] + entry_lines(v) =~= (seq![index_header()] + entry_lines(prev)).push(index_line(e.0, e.1)));
    }
}

proof fn lemma_line_plain(word: Seq<char>, r: CachedWordView)
    requires
        storable(word, r),
    ensures
        !index_line(word, r).contains('\n'),
{
    lemma_gain_text_plain(r.gain);
    assert(!seq!['\t'].contains('\n')) by {
        if seq!['\t'].contains('\n') {
            let k = choose|k: int| 0 <= k < 1 && seq!['\t'][k] == '\n';
        }
    }
    assert(word.push('\t') =~= word + seq!['\t']);
    assert(r.file.push('\t') =~= r.file + seq!['\t']);
    assert(r.license.push('\t') =~= r.license + seq!['\t']);
    assert(r.author.push('\t') =~= r.author + seq!['\t']);
    assert(r.page.push('\t') =~= r.page + seq!['\t']);
    lemma_no_char_concat(word, seq!['\t'], '\n');
    lemma_no_char_concat(r.file, seq!['\t'], '\n');
    lemma_no_char_concat(r.license, seq!['\t'], '\n');
    lemma_no_char_concat(r.author, seq!['\t'], '\n');
    lemma_no_char_concat(r.page, seq!['\t'], '\n');
    lemma_no_char_concat(word.push('\t'), r.file.push('\t'), '\n');
    lemma_no_char_concat(word.push('\t') + r.file.push('\t'), r.license.push('\t'), '\n');
    lemma_no_char_concat(
        word.push('\t') + r.file.push('\t') + r.license.push('\t'),
        r.author.push('\t'),
        '\n',
    );
    lemma_no_char_concat(
        word.push('\t') + r.file.push('\t') + r.license.push('\t') + r.author.push('\t'),
        r.page.push('\t'),
        '\n',
    );
    lemma_no_char_concat(
        word.push('\t') + r.file.push('\t') + r.license.push('\t') + r.author.push('\t')
            + r.page.push('\t'),
        gain_text(r.gain),
        '\n',
    );
}

proof fn lemma_apply_entry_lines(v: Seq<(Seq<char>, CachedWordView)>)
    requires
        forall|i: int| 0 <= i < v.len() ==> storable((#[trigger] v[i]).0, v[i].1),
    ensures
        apply_lines(Map::empty(), seq![index_header()] + entry_lines(v)) == to_map(v),
    decreases v.len(),
{
    lemma_header_plain();
    if v.len() == 0 {
        let l = seq![index_header()] + entry_lines(v);
        assert(l.drop_last() =~= Seq::<Seq<char>>::empty());
        assert(l.last() == index_header());
        assert(apply_lines(Map::empty(), l.drop_last()) == Map::<Seq<char>, CachedWordView>::empty());
        assert(apply_lines(Map::empty(), l) == apply_lines(Map::empty(), l.drop_last()));
        assert(to_map(v) == Map::<Seq<char>, CachedWordView>::empty());
    } else {
        let prev = v.drop_last();
        assert forall|i: int| 0 <= i < prev.len() implies storable((#[trigger] prev[i]).0, prev[i].1) by {
            assert(prev[i] == v[i]);
        }
        lemma_apply_entry_lines(prev);
        let e = v.last();
        assert(storable(e.0, e.1)) by {
            assert(v[v.len() - 1] == e);
        }
        lemma_line_round_trip(e.0, e.1);
        let l = seq![index_header()] + entry_lines(v);
        assert(l.drop_last() =~= seq![index_header()] + entry_lines(prev));
        assert(l.last() == index_line(e.0, e.1));
        assert(apply_lines(Map::empty(), l) == apply_lines(Map::empty(), l.drop_last()).insert(e.0, e.1));
        assert(to_map(v) == to_map(prev).insert(e.0, e.1));
    }
}

/// Reading back the index written for the entries `v` gives the map of `v`, when every entry
/// survives the index format.
pub proof fn lemma_index_round_trip(v: Seq<(Seq<char>, CachedWordView)>)
    ensures
        (forall|i: int| 0 <= i < v.len() ==> storable((#[trigger] v[i]).0, v[i].1)) ==> apply_lines(
            Map::empty(),
            split_on(index_text(v), '\n'),
        ) == to_map(v),
{
    if forall|i: int| 0 <= i < v.len() ==> storable((#[trigger] v[i]).0, v[i].1) {
        lemma_index_lines(v);
        lemma_split_append(index_body(v), Seq::empty(), '\n');
        assert(index_body(v).push('\n') + Seq::<char>::empty() =~= index_text(v));
        let l = seq![index_header()] + entry_lines(v);
        let pieces = l.push(Seq::<char>::empty());
        assert(pieces.drop_last() =~= l);
        assert(trim(Seq::<char>::empty()) =~= Seq::<char>::empty());
        assert(parse_line(pieces.last()) is None);
        lemma_apply_entry_lines(v);
    }
}

} // verus!
