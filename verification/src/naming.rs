//! Naming rules: base names of derived files, safe folder names, date prefixes, file-name
//! parts, and collision-free numbered names.
use vstd::prelude::*;
use vstd::set_lib::lemma_len_subset;
use crate::text::{chars_of, lower, push_char, string_of};
use crate::model::strs_view;

verus! {

broadcast use vstd::seq_lib::group_seq_properties;

// ----- base names -------------------------------------------------------------------------

pub open spec fn is_ascii_digit(c: char) -> bool {
    '0' <= c && c <= '9'
}

/// `d` is the position of a dash that is followed by a non-empty run of ASCII digits
/// reaching the end of `s`.
pub open spec fn is_numbered_dash(s: Seq<char>, d: int) -> bool {
    &&& 0 <= d < s.len() - 1
    &&& s[d] == '-'
    &&& forall|k: int| d < k < s.len() ==> is_ascii_digit(#[trigger] s[k])
}

/// The base name of a file stem: the stem lower-cased (ASCII), with a trailing `-<digits>`
/// suffix removed when there is one. Tools that process the same source more than once
/// append `-0`, `-1`, ... to its name.
pub open spec fn spec_base_name(stem: Seq<char>) -> Seq<char> {
    let l = lower(stem);
    if exists|d: int| is_numbered_dash(l, d) {
        l.take(choose|d: int| is_numbered_dash(l, d))
    } else {
        l
    }
}

proof fn lemma_numbered_dash_unique(s: Seq<char>, d1: int, d2: int)
    requires
        is_numbered_dash(s, d1),
        is_numbered_dash(s, d2),
    ensures
        d1 == d2,
{
    if d1 < d2 {
        assert(is_ascii_digit(s[d2]));
    } else if d2 < d1 {
        assert(is_ascii_digit(s[d1]));
    }
}

/// The base name of a file stem (see `spec_base_name`).
pub fn base_name_of(file_stem: &str) -> (r: String)
    ensures
        r@ == spec_base_name(file_stem@),
{
    let l = crate::text::lower_chars(&chars_of(file_stem));
    let ghost ls = lower(file_stem@);
    let mut j: usize = l.len();
    while j > 0 && '0' <= l[j - 1] && l[j - 1] <= '9'
        invariant
            l@ == ls,
            j <= l@.len(),
            forall|k: int| j <= k < l@.len() ==> is_ascii_digit(#[trigger] ls[k]),
        decreases j,
    {
        j = j - 1;
    }
    if j > 0 && j < l.len() && l[j - 1] == '-' {
        let d = j - 1;
        assert(is_numbered_dash(ls, d as int));
        proof {
            let c = choose|d: int| is_numbered_dash(ls, d);
            lemma_numbered_dash_unique(ls, c, d as int);
        }
        let mut out: Vec<char> = Vec::new();
        for i in 0..d
            invariant
                l@ == ls,
                d < l@.len(),
                out@ == ls.take(i as int),
        {
            out.push(l[i]);
        }
        string_of(&out)
    } else {
        assert forall|d: int| !is_numbered_dash(ls, d) by {
            if is_numbered_dash(ls, d) {
                if d < j - 1 {
                    assert(is_ascii_digit(ls[j - 1]));
                } else if d >= j {
                    assert(is_ascii_digit(ls[d]));
                }
            }
        }
        string_of(&l)
    }
}

// ----- folder-name sanitizing -------------------------------------------------------------

/// Characters that cannot appear in a Windows file name.
pub open spec fn is_reserved_char(c: char) -> bool {
    c == '<' || c == '>' || c == ':' || c == '"' || c == '/' || c == '\\' || c == '|' || c == '?'
        || c == '*'
}

/// Unicode control characters (general category Cc).
pub open spec fn is_control_char(c: char) -> bool {
    c <= '\u{1f}' || ('\u{7f}' <= c && c <= '\u{9f}')
}

pub open spec fn replace_unsafe(c: char) -> char {
    if is_reserved_char(c) || is_control_char(c) {
        '_'
    } else {
        c
    }
}

/// The length of `s` once trailing dots and spaces are dropped.
pub open spec fn trimmed_len(s: Seq<char>) -> nat
    decreases s.len(),
{
    if s.len() > 0 && (s.last() == '.' || s.last() == ' ') {
        trimmed_len(s.drop_last())
    } else {
        s.len()
    }
}

proof fn lemma_trimmed_len_bound(s: Seq<char>)
    ensures
        trimmed_len(s) <= s.len(),
        trimmed_len(s) == s.len() || (s.len() > 0 && (s.last() == '.' || s.last() == ' ')),
    decreases s.len(),
{
    if s.len() > 0 && (s.last() == '.' || s.last() == ' ') {
        lemma_trimmed_len_bound(s.drop_last());
    }
}

/// A folder name made safe: reserved and control characters become `_`, trailing dots and
/// spaces are dropped, and an empty result becomes `untitled`.
pub open spec fn spec_sanitize(name: Seq<char>) -> Seq<char> {
    let m = name.map_values(|c: char| replace_unsafe(c));
    let t = m.take(trimmed_len(m) as int);
    if t.len() == 0 {
        seq!['u', 'n', 't', 'i', 't', 'l', 'e', 'd']
    } else {
        t
    }
}

/// Makes a name safe to use as a folder name (see `spec_sanitize`).
pub fn sanitize_filename(name: &str) -> (r: String)
    ensures
        r@ == spec_sanitize(name@),
{
    let cs = chars_of(name);
    let ghost m = name@.map_values(|c: char| replace_unsafe(c));
    let mut out: Vec<char> = Vec::new();
    for i in 0..cs.len()
        invariant
            cs@ == name@,
            m == name@.map_values(|c: char| replace_unsafe(c)),
            out@ == m.take(i as int),
    {
        let c = cs[i];
        let reserved = c == '<' || c == '>' || c == ':' || c == '"' || c == '/' || c == '\\' || c
            == '|' || c == '?' || c == '*';
        let control = c <= '\u{1f}' || ('\u{7f}' <= c && c <= '\u{9f}');
        let d = if reserved || control {
            '_'
        } else {
            c
        };
        out.push(d);
        assert(m.take(i + 1) == m.take(i as int).push(d));
    }
    assert(m.take(cs.len() as int) == m);
    let mut n: usize = out.len();
    while n > 0 && (out[n - 1] == '.' || out[n - 1] == ' ')
        invariant
            out@ == m,
            n <= m.len(),
            trimmed_len(m.take(n as int)) == trimmed_len(m),
        decreases n,
    {
        assert(m.take(n as int).drop_last() == m.take(n - 1));
        n = n - 1;
    }
    proof {
        lemma_trimmed_len_bound(m.take(n as int));
    }
    assert(trimmed_len(m) == n);
    if n == 0 {
        let mut s = String::new();
        push_char(&mut s, 'u');
        push_char(&mut s, 'n');
        push_char(&mut s, 't');
        push_char(&mut s, 'i');
        push_char(&mut s, 't');
        push_char(&mut s, 'l');
        push_char(&mut s, 'e');
        push_char(&mut s, 'd');
        assert(s@ =~= seq!['u', 'n', 't', 'i', 't', 'l', 'e', 'd']);
        s
    } else {
        let mut t: Vec<char> = Vec::new();
        for i in 0..n
            invariant
                out@ == m,
                n <= m.len(),
                t@ == m.take(i as int),
        {
            t.push(out[i]);
        }
        string_of(&t)
    }
}

// ----- date prefixes ----------------------------------------------------------------------

/// Decimal digits: the characters of the Unicode `Decimal_Number` category (Unicode 16.0), as
/// matched by `\d`.
pub open spec fn is_decimal_digit(c: char) -> bool {
    ('0' <= c && c <= '9') || ('\u{660}' <= c && c <= '\u{669}') || ('\u{6f0}' <= c && c <= '\u{6f9}')
        || ('\u{7c0}' <= c && c <= '\u{7c9}') || ('\u{966}' <= c && c <= '\u{96f}')
        || ('\u{9e6}' <= c && c <= '\u{9ef}') || ('\u{a66}' <= c && c <= '\u{a6f}')
        || ('\u{ae6}' <= c && c <= '\u{aef}') || ('\u{b66}' <= c && c <= '\u{b6f}')
        || ('\u{be6}' <= c && c <= '\u{bef}') || ('\u{c66}' <= c && c <= '\u{c6f}')
        || ('\u{ce6}' <= c && c <= '\u{cef}') || ('\u{d66}' <= c && c <= '\u{d6f}')
        || ('\u{de6}' <= c && c <= '\u{def}') || ('\u{e50}' <= c && c <= '\u{e59}')
        || ('\u{ed0}' <= c && c <= '\u{ed9}') || ('\u{f20}' <= c && c <= '\u{f29}')
        || ('\u{1040}' <= c && c <= '\u{1049}') || ('\u{1090}' <= c && c <= '\u{1099}')
        || ('\u{17e0}' <= c && c <= '\u{17e9}') || ('\u{1810}' <= c && c <= '\u{1819}')
        || ('\u{1946}' <= c && c <= '\u{194f}') || ('\u{19d0}' <= c && c <= '\u{19d9}')
        || ('\u{1a80}' <= c && c <= '\u{1a89}') || ('\u{1a90}' <= c && c <= '\u{1a99}')
        || ('\u{1b50}' <= c && c <= '\u{1b59}') || ('\u{1bb0}' <= c && c <= '\u{1bb9}')
        || ('\u{1c40}' <= c && c <= '\u{1c49}') || ('\u{1c50}' <= c && c <= '\u{1c59}')
        || ('\u{a620}' <= c && c <= '\u{a629}') || ('\u{a8d0}' <= c && c <= '\u{a8d9}')
        || ('\u{a900}' <= c && c <= '\u{a909}') || ('\u{a9d0}' <= c && c <= '\u{a9d9}')
        || ('\u{a9f0}' <= c && c <= '\u{a9f9}') || ('\u{aa50}' <= c && c <= '\u{aa59}')
        || ('\u{abf0}' <= c && c <= '\u{abf9}') || ('\u{ff10}' <= c && c <= '\u{ff19}')
        || ('\u{104a0}' <= c && c <= '\u{104a9}') || ('\u{10d30}' <= c && c <= '\u{10d39}')
        || ('\u{10d40}' <= c && c <= '\u{10d49}') || ('\u{11066}' <= c && c <= '\u{1106f}')
        || ('\u{110f0}' <= c && c <= '\u{110f9}') || ('\u{11136}' <= c && c <= '\u{1113f}')
        || ('\u{111d0}' <= c && c <= '\u{111d9}') || ('\u{112f0}' <= c && c <= '\u{112f9}')
        || ('\u{11450}' <= c && c <= '\u{11459}') || ('\u{114d0}' <= c && c <= '\u{114d9}')
        || ('\u{11650}' <= c && c <= '\u{11659}') || ('\u{116c0}' <= c && c <= '\u{116c9}')
        || ('\u{116d0}' <= c && c <= '\u{116e3}') || ('\u{11730}' <= c && c <= '\u{11739}')
        || ('\u{118e0}' <= c && c <= '\u{118e9}') || ('\u{11950}' <= c && c <= '\u{11959}')
        || ('\u{11bf0}' <= c && c <= '\u{11bf9}') || ('\u{11c50}' <= c && c <= '\u{11c59}')
        || ('\u{11d50}' <= c && c <= '\u{11d59}') || ('\u{11da0}' <= c && c <= '\u{11da9}')
        || ('\u{11f50}' <= c && c <= '\u{11f59}') || ('\u{16130}' <= c && c <= '\u{16139}')
        || ('\u{16a60}' <= c && c <= '\u{16a69}') || ('\u{16ac0}' <= c && c <= '\u{16ac9}')
        || ('\u{16b50}' <= c && c <= '\u{16b59}') || ('\u{16d70}' <= c && c <= '\u{16d79}')
        || ('\u{1ccf0}' <= c && c <= '\u{1ccf9}') || ('\u{1d7ce}' <= c && c <= '\u{1d7ff}')
        || ('\u{1e140}' <= c && c <= '\u{1e149}') || ('\u{1e2f0}' <= c && c <= '\u{1e2f9}')
        || ('\u{1e4f0}' <= c && c <= '\u{1e4f9}') || ('\u{1e5f1}' <= c && c <= '\u{1e5fa}')
        || ('\u{1e950}' <= c && c <= '\u{1e959}') || ('\u{1fbf0}' <= c && c <= '\u{1fbf9}')
}

/// Unicode white space (the `White_Space` property), as matched by `\s`.
pub open spec fn is_white_space(c: char) -> bool {
    ('\t' <= c && c <= '\r') || c == ' ' || c == '\u{85}' || c == '\u{a0}' || c == '\u{1680}'
        || ('\u{2000}' <= c && c <= '\u{200a}') || c == '\u{2028}' || c == '\u{2029}' || c
        == '\u{202f}' || c == '\u{205f}' || c == '\u{3000}'
}

pub open spec fn is_separator_run_char(c: char) -> bool {
    c == '-' || is_white_space(c)
}

/// `s` starts with a `YYYY-MM-DD` date.
pub open spec fn starts_with_date(s: Seq<char>) -> bool {
    &&& s.len() >= 10
    &&& is_decimal_digit(s[0]) && is_decimal_digit(s[1]) && is_decimal_digit(s[2])
        && is_decimal_digit(s[3])
    &&& s[4] == '-'
    &&& is_decimal_digit(s[5]) && is_decimal_digit(s[6])
    &&& s[7] == '-'
    &&& is_decimal_digit(s[8]) && is_decimal_digit(s[9])
}

/// The number of leading dashes and white-space characters of `s`.
pub open spec fn separator_run_len(s: Seq<char>) -> nat
    decreases s.len(),
{
    if s.len() > 0 && is_separator_run_char(s[0]) {
        1 + separator_run_len(s.drop_first())
    } else {
        0
    }
}

/// The length of the leading date prefix of `s` (the pattern `^\d{4}-\d{2}-\d{2}[-\s]*`),
/// or 0 when `s` does not start with a date.
pub open spec fn date_prefix_len(s: Seq<char>) -> nat {
    if starts_with_date(s) {
        10 + separator_run_len(s.skip(10))
    } else {
        0
    }
}

pub fn is_white_space_exec(c: char) -> (r: bool)
    ensures
        r == is_white_space(c),
{
    ('\t' <= c && c <= '\r') || c == ' ' || c == '\u{85}' || c == '\u{a0}' || c == '\u{1680}'
        || ('\u{2000}' <= c && c <= '\u{200a}') || c == '\u{2028}' || c == '\u{2029}' || c
        == '\u{202f}' || c == '\u{205f}' || c == '\u{3000}'
}

/// A name with its leading `YYYY-MM-DD` date, and the dashes and white space after it,
/// removed; names without such a date are returned unchanged.
pub fn strip_date_prefix(name: &str) -> (r: String)
    ensures
        r@ == name@.skip(date_prefix_len(name@) as int),
{
    replace_date_prefix(name)
}

/// Calls `regex::Regex::replace` with the pattern `^\d{4}-\d{2}-\d{2}[-\s]*` and an empty
/// replacement. The contract claims what the regex crate documents for that pattern: the
/// leftmost match, which can only start at the beginning, is removed (see `date_prefix_len`,
/// with `\d` the Unicode `Decimal_Number` category and `\s` Unicode white space); a name with
/// no match is returned unchanged.
#[verifier::external_body]
fn replace_date_prefix(name: &str) -> (r: String)
    ensures
        r@ == name@.skip(date_prefix_len(name@) as int),
{
    let re = regex::Regex::new(r"^\d{4}-\d{2}-\d{2}[-\s]*").unwrap();
    re.replace(name, "").into_owned()
}

/// `v` in decimal with at least `width` digits, zeros in front.
pub open spec fn zero_padded(v: nat, width: nat) -> Seq<char> {
    let d = decimal(v);
    if d.len() >= width {
        d
    } else {
        Seq::new((width - d.len()) as nat, |i: int| '0') + d
    }
}

/// Year `y` as chrono writes it for `%Y`: four digits for the years 0 to 9999, otherwise a
/// sign and at least four digits.
pub open spec fn year_text(y: int) -> Seq<char> {
    if 0 <= y <= 9999 {
        zero_padded(y as nat, 4)
    } else if y > 9999 {
        seq!['+'] + zero_padded(y as nat, 4)
    } else {
        seq!['-'] + zero_padded((-y) as nat, 4)
    }
}

/// Whether `y` is a leap year of the proleptic Gregorian calendar.
pub open spec fn is_leap_year(y: int) -> bool {
    y % 4 == 0 && (y % 100 != 0 || y % 400 == 0)
}

/// The number of days of month `m` of year `y`.
pub open spec fn days_in_month(y: int, m: nat) -> nat {
    if m == 2 {
        if is_leap_year(y) {
            29
        } else {
            28
        }
    } else if m == 4 || m == 6 || m == 9 || m == 11 {
        30
    } else {
        31
    }
}

/// Whether `y`, `m`, `d` is a date that chrono's dates can hold.
pub open spec fn is_calendar_date(y: int, m: nat, d: nat) -> bool {
    &&& -262143 <= y <= 262142
    &&& 1 <= m <= 12
    &&& 1 <= d <= days_in_month(y, m)
}

/// Date `y`-`m`-`d` written as chrono's `%Y-%m-%d` writes it.
pub open spec fn ymd_text(y: int, m: nat, d: nat) -> Seq<char> {
    year_text(y) + seq!['-'] + zero_padded(m, 2) + seq!['-'] + zero_padded(d, 2)
}

/// `t` is a date written `%Y-%m-%d`.
pub open spec fn is_date_text(t: Seq<char>) -> bool {
    exists|y: int, m: nat, d: nat| is_calendar_date(y, m, d) && #[trigger] ymd_text(y, m, d) == t
}

/// Today's date in the local time zone, written `YYYY-MM-DD`: calls `chrono::Local::now`,
/// takes its date and formats it with `%Y-%m-%d`. The contract claims only what chrono's
/// formatting gives for every clock reading: the text of some date chrono can hold. Which date
/// it is depends on the clock and the time zone and is not stated.
#[verifier::external_body]
pub fn today_prefix() -> (r: String)
    ensures
        is_date_text(r@),
{
    chrono::Local::now().date_naive().format("%Y-%m-%d").to_string()
}

/// `name` prefixed with a date and a space.
pub fn join_date_prefix(date: &str, name: &str) -> (r: String)
    ensures
        r@ == date@ + seq![' '] + name@,
{
    let mut out = string_of(&chars_of(date));
    push_char(&mut out, ' ');
    let rest = string_of(&chars_of(name));
    out.append(rest.as_str());
    out
}

/// `name` prefixed with today's date and a space.
pub fn with_date_prefix(name: &str) -> (r: String)
    ensures
        exists|date: Seq<char>| is_date_text(date) && r@ == date + seq![' '] + name@,
{
    let today = today_prefix();
    let r = join_date_prefix(today.as_str(), name);
    assert(r@ == today@ + seq![' '] + name@);
    r
}


// ----- parts of a file name ---------------------------------------------------------------

/// The index of the last `c` in `s`, or -1.
pub open spec fn last_index(s: Seq<char>, c: char) -> int
    decreases s.len(),
{
    if s.len() == 0 {
        -1
    } else if s.last() == c {
        s.len() - 1
    } else {
        last_index(s.drop_last(), c)
    }
}

proof fn lemma_last_index(s: Seq<char>, c: char)
    ensures
        -1 <= last_index(s, c) < s.len(),
        last_index(s, c) >= 0 ==> s[last_index(s, c)] == c,
        forall|k: int| last_index(s, c) < k < s.len() ==> #[trigger] s[k] != c,
    decreases s.len(),
{
    if s.len() > 0 && s.last() != c {
        lemma_last_index(s.drop_last(), c);
        assert forall|k: int| last_index(s, c) < k < s.len() implies #[trigger] s[k] != c by {
            if k < s.len() - 1 {
                assert(s[k] == s.drop_last()[k]);
            }
        }
    }
}

/// Names that have no file-name part: the empty name, `.` and `..`.
pub open spec fn is_special_name(n: Seq<char>) -> bool {
    n.len() == 0 || n == seq!['.'] || n == seq!['.', '.']
}

/// The stem of a file name, as `Path::file_stem` documents it for a single path component:
/// none for the empty name, `.` and `..`; the whole name when it has no `.` or its only `.`
/// is the first character; otherwise the part before the last `.`.
pub open spec fn spec_file_stem(n: Seq<char>) -> Option<Seq<char>> {
    if is_special_name(n) {
        None
    } else if last_index(n, '.') <= 0 {
        Some(n)
    } else {
        Some(n.take(last_index(n, '.')))
    }
}

/// The extension of a file name, as `Path::extension` documents it for a single path
/// component: none for the empty name, `.` and `..`, and when the name has no `.` or its only
/// `.` is the first character; otherwise the part after the last `.`.
pub open spec fn spec_extension(n: Seq<char>) -> Option<Seq<char>> {
    if is_special_name(n) {
        None
    } else if last_index(n, '.') <= 0 {
        None
    } else {
        Some(n.skip(last_index(n, '.') + 1))
    }
}

fn last_index_of(v: &Vec<char>, c: char) -> (r: Option<usize>)
    ensures
        match r {
            Some(i) => i as int == last_index(v@, c) && i < v@.len(),
            None => last_index(v@, c) == -1,
        },
{
    proof {
        lemma_last_index(v@, c);
    }
    let mut j: usize = v.len();
    while j > 0 && v[j - 1] != c
        invariant
            j <= v@.len(),
            forall|k: int| j <= k < v@.len() ==> #[trigger] v@[k] != c,
            -1 <= last_index(v@, c) < v@.len(),
            last_index(v@, c) >= 0 ==> v@[last_index(v@, c)] == c,
            forall|k: int| last_index(v@, c) < k < v@.len() ==> #[trigger] v@[k] != c,
        decreases j,
    {
        j = j - 1;
    }
    if j == 0 {
        None
    } else {
        Some(j - 1)
    }
}

fn is_special_name_exec(v: &Vec<char>) -> (r: bool)
    ensures
        r == is_special_name(v@),
{
    if v.len() == 0 {
        true
    } else if v.len() == 1 {
        if v[0] == '.' {
            assert(v@ =~= seq!['.']);
            true
        } else {
            assert(v@ != seq!['.'] && v@ != seq!['.', '.']);
            false
        }
    } else if v.len() == 2 {
        if v[0] == '.' && v[1] == '.' {
            assert(v@ =~= seq!['.', '.']);
            true
        } else {
            assert(v@ != seq!['.'] && v@ != seq!['.', '.']);
            false
        }
    } else {
        false
    }
}

/// The stem of a file name (see `spec_file_stem`).
pub fn file_stem(name: &str) -> (r: Option<String>)
    ensures
        match r {
            Some(s) => spec_file_stem(name@) == Some(s@),
            None => spec_file_stem(name@) is None,
        },
{
    let v = chars_of(name);
    if is_special_name_exec(&v) {
        return None;
    }
    match last_index_of(&v, '.') {
        Some(d) => {
            if d == 0 {
                Some(string_of(&v))
            } else {
                let mut t: Vec<char> = Vec::new();
                for i in 0..d
                    invariant
                        d < v@.len(),
                        t@ == v@.take(i as int),
                {
                    t.push(v[i]);
                }
                Some(string_of(&t))
            }
        },
        None => Some(string_of(&v)),
    }
}

/// The extension of a file name (see `spec_extension`).
pub fn extension(name: &str) -> (r: Option<String>)
    ensures
        match r {
            Some(s) => spec_extension(name@) == Some(s@),
            None => spec_extension(name@) is None,
        },
{
    let v = chars_of(name);
    if is_special_name_exec(&v) {
        return None;
    }
    match last_index_of(&v, '.') {
        Some(d) => {
            if d == 0 {
                None
            } else {
                let mut t: Vec<char> = Vec::new();
                for i in d + 1..v.len()
                    invariant
                        d < v@.len(),
                        t@ == v@.subrange(d + 1, i as int),
                {
                    t.push(v[i]);
                    assert(v@.subrange(d + 1, i + 1) == v@.subrange(d + 1, i as int).push(v@[i as int]));
                }
                assert(v@.subrange(d + 1, v@.len() as int) == v@.skip(d + 1));
                Some(string_of(&t))
            }
        },
        None => None,
    }
}

/// The stem of a file name, or the whole name when it has no stem.
pub open spec fn stem_or_name(n: Seq<char>) -> Seq<char> {
    match spec_file_stem(n) {
        Some(s) => s,
        None => n,
    }
}

/// The stem of a file name, or the whole name when it has no stem.
pub fn file_stem_or_name(name: &str) -> (r: String)
    ensures
        r@ == stem_or_name(name@),
{
    match file_stem(name) {
        Some(s) => s,
        None => string_of(&chars_of(name)),
    }
}

// ----- joining a name onto a directory ----------------------------------------------------

/// `c` separates path components: the platform separator `sep`, or `/`.
pub open spec fn is_path_separator(c: char, sep: char) -> bool {
    c == sep || c == '/'
}

/// What `dir` contributes when a plain name is joined onto it.
pub open spec fn join_prefix(dir: Seq<char>, sep: char) -> Seq<char> {
    if dir.len() == 0 {
        dir
    } else if is_path_separator(dir.last(), sep) {
        dir
    } else {
        dir.push(sep)
    }
}

/// A plain (relative, single-component) name joined onto a directory path whose separator is
/// `sep`, as `Path::join` does.
pub open spec fn spec_join(dir: Seq<char>, name: Seq<char>, sep: char) -> Seq<char> {
    join_prefix(dir, sep) + name
}

/// A plain name joined onto a directory path.
pub fn join_name(dir: &str, name: &str, sep: char) -> (r: String)
    ensures
        r@ == spec_join(dir@, name@, sep),
{
    let d = chars_of(dir);
    let mut out = string_of(&d);
    if d.len() > 0 && !(d[d.len() - 1] == sep || d[d.len() - 1] == '/') {
        push_char(&mut out, sep);
    }
    let n = string_of(&chars_of(name));
    out.append(n.as_str());
    out
}

// ----- numbered names ---------------------------------------------------------------------

pub open spec fn digit_char(d: int) -> char {
    if d == 0 {
        '0'
    } else if d == 1 {
        '1'
    } else if d == 2 {
        '2'
    } else if d == 3 {
        '3'
    } else if d == 4 {
        '4'
    } else if d == 5 {
        '5'
    } else if d == 6 {
        '6'
    } else if d == 7 {
        '7'
    } else if d == 8 {
        '8'
    } else {
        '9'
    }
}

/// The decimal digits of `n`.
pub open spec fn decimal(n: nat) -> Seq<char>
    decreases n,
{
    if n < 10 {
        seq![digit_char(n as int)]
    } else {
        decimal(n / 10).push(digit_char((n % 10) as int))
    }
}

proof fn lemma_decimal_len(n: nat)
    ensures
        decimal(n).len() >= 1,
        n >= 10 ==> decimal(n).len() >= 2,
        n < 10 ==> decimal(n).len() == 1,
    decreases n,
{
    if n >= 10 {
        lemma_decimal_len(n / 10);
    }
}

/// Different numbers have different decimal digits.
pub proof fn lemma_decimal_injective(a: nat, b: nat)
    requires
        decimal(a) == decimal(b),
    ensures
        a == b,
    decreases a,
{
    lemma_decimal_len(a);
    lemma_decimal_len(b);
    if a >= 10 && b >= 10 {
        assert(decimal(a).drop_last() == decimal(a / 10));
        assert(decimal(b).drop_last() == decimal(b / 10));
        lemma_decimal_injective(a / 10, b / 10);
        assert(decimal(a).last() == digit_char((a % 10) as int));
        assert(decimal(b).last() == digit_char((b % 10) as int));
    } else if a < 10 && b < 10 {
        assert(decimal(a)[0] == digit_char(a as int));
        assert(decimal(b)[0] == digit_char(b as int));
    }
}

fn digit_char_exec(d: u128) -> (c: char)
    requires
        d < 10,
    ensures
        c == digit_char(d as int),
{
    if d == 0 {
        '0'
    } else if d == 1 {
        '1'
    } else if d == 2 {
        '2'
    } else if d == 3 {
        '3'
    } else if d == 4 {
        '4'
    } else if d == 5 {
        '5'
    } else if d == 6 {
        '6'
    } else if d == 7 {
        '7'
    } else if d == 8 {
        '8'
    } else {
        '9'
    }
}

/// The decimal digits of `n`.
pub fn decimal_chars(n: u128) -> (r: Vec<char>)
    ensures
        r@ == decimal(n as nat),
    decreases n,
{
    if n < 10 {
        let mut v: Vec<char> = Vec::new();
        v.push(digit_char_exec(n));
        assert(v@ == seq![digit_char(n as int)]);
        v
    } else {
        let mut v = decimal_chars(n / 10);
        v.push(digit_char_exec(n % 10));
        v
    }
}

/// `stem (n)` followed by `tail`.
pub open spec fn numbered(stem: Seq<char>, n: nat, tail: Seq<char>) -> Seq<char> {
    stem + seq![' ', '('] + decimal(n) + seq![')'] + tail
}

proof fn lemma_numbered_injective(stem: Seq<char>, a: nat, b: nat, tail: Seq<char>)
    requires
        numbered(stem, a, tail) == numbered(stem, b, tail),
    ensures
        a == b,
{
    let x = numbered(stem, a, tail);
    let y = numbered(stem, b, tail);
    assert(x.len() == y.len());
    assert(decimal(a).len() == decimal(b).len());
    let lo: int = stem.len() as int + 2;
    assert(x.subrange(lo, lo + decimal(a).len() as int) =~= decimal(a));
    assert(y.subrange(lo, lo + decimal(b).len() as int) =~= decimal(b));
    lemma_decimal_injective(a, b);
}

/// Every candidate of an injective naming that is already taken takes up its own entry.
proof fn lemma_pigeonhole(cands: Seq<Seq<char>>, taken: Seq<Seq<char>>)
    requires
        cands.no_duplicates(),
        forall|i: int| 0 <= i < cands.len() ==> taken.contains(#[trigger] cands[i]),
    ensures
        cands.len() <= taken.len(),
{
    cands.unique_seq_to_set();
    taken.lemma_cardinality_of_set();
    assert(cands.to_set().subset_of(taken.to_set())) by {
        assert forall|x: Seq<char>| cands.to_set().contains(x) implies taken.to_set().contains(x) by {
            let i = choose|i: int| 0 <= i < cands.len() && cands[i] == x;
        }
    }
    lemma_len_subset(cands.to_set(), taken.to_set());
}

/// Whether `s` is one of `v`.
pub fn contains_string(v: &Vec<String>, s: &String) -> (r: bool)
    ensures
        r == strs_view(v@).contains(s@),
{
    for i in 0..v.len()
        invariant
            forall|j: int| 0 <= j < i ==> strs_view(v@)[j] != s@,
    {
        if v[i] == *s {
            assert(strs_view(v@)[i as int] == s@);
            return true;
        }
    }
    false
}

fn numbered_name(stem: &Vec<char>, n: u128, tail: &Vec<char>) -> (r: String)
    ensures
        r@ == numbered(stem@, n as nat, tail@),
{
    let mut out = string_of(stem);
    push_char(&mut out, ' ');
    push_char(&mut out, '(');
    let digits = string_of(&decimal_chars(n));
    out.append(digits.as_str());
    push_char(&mut out, ')');
    let t = string_of(tail);
    out.append(t.as_str());
    assert(out@ =~= numbered(stem@, n as nat, tail@));
    out
}

/// The `k`-th candidate folder for a project named `base` under `root`: the name itself first,
/// then `base (2)`, `base (3)`, ...
pub open spec fn project_folder_candidate(root: Seq<char>, base: Seq<char>, sep: char, k: nat) -> Seq<char> {
    if k <= 1 {
        spec_join(root, base, sep)
    } else {
        spec_join(root, numbered(base, k, Seq::empty()), sep)
    }
}

/// The folder for a new project named `name` under `root`: the first candidate folder for the
/// sanitized name (see `project_folder_candidate`) that is not in `taken`. `taken` holds the
/// folders already in use, whether by known projects or by entries that exist on disk.
pub fn unique_project_folder(root: &str, name: &str, sep: char, taken: &Vec<String>) -> (r: String)
    ensures
        exists|k: nat|
            {
                &&& k >= 1
                &&& r@ == project_folder_candidate(root@, spec_sanitize(name@), sep, k)
                &&& !strs_view(taken@).contains(r@)
                &&& forall|m: nat|
                    1 <= m < k ==> strs_view(taken@).contains(
                        #[trigger] project_folder_candidate(root@, spec_sanitize(name@), sep, m),
                    )
            },
{
    let base = sanitize_filename(name);
    let bv = chars_of(base.as_str());
    let empty: Vec<char> = Vec::new();
    let ghost tv = strs_view(taken@);
    let n_taken = taken.len();
    assert(n_taken as int == taken@.len());
    let mut k: u128 = 1;
    loop
        invariant
            bv@ == base@,
            base@ == spec_sanitize(name@),
            empty@ == Seq::<char>::empty(),
            tv == strs_view(taken@),
            taken@.len() <= usize::MAX,
            1 <= k <= taken@.len() + 1,
            forall|m: nat| 1 <= m < k ==> tv.contains(#[trigger] project_folder_candidate(root@, base@, sep, m)),
        decreases taken@.len() + 1 - k,
    {
        let c = if k == 1 {
            join_name(root, base.as_str(), sep)
        } else {
            let n = numbered_name(&bv, k, &empty);
            join_name(root, n.as_str(), sep)
        };
        assert(c@ == project_folder_candidate(root@, base@, sep, k as nat));
        if !contains_string(taken, &c) {
            assert(k as nat >= 1 && c@ == project_folder_candidate(root@, spec_sanitize(name@), sep, k as nat));
            return c;
        }
        proof {
            let cs = Seq::new(k as nat, |i: int| project_folder_candidate(root@, base@, sep, (i + 1) as nat));
            assert forall|i: int, j: int| 0 <= i < cs.len() && 0 <= j < cs.len() && i != j implies cs[i]
                != cs[j] by {
                if cs[i] == cs[j] {
                    let a = (i + 1) as nat;
                    let b = (j + 1) as nat;
                    let pre = join_prefix(root@, sep);
                    if a > 1 && b > 1 {
                        assert(pre + numbered(base@, a, Seq::empty()) == pre + numbered(base@, b, Seq::empty()));
                        assert(numbered(base@, a, Seq::empty()) =~= (pre + numbered(base@, a, Seq::empty())).skip(pre.len() as int));
                        assert(numbered(base@, b, Seq::empty()) =~= (pre + numbered(base@, b, Seq::empty())).skip(pre.len() as int));
                        lemma_numbered_injective(base@, a, b, Seq::empty());
                    } else {
                        let big = if a > 1 { a } else { b };
                        lemma_decimal_len(big);
                        assert(numbered(base@, big, Seq::empty()).len() > base@.len());
                    }
                }
            }
            assert forall|i: int| 0 <= i < cs.len() implies tv.contains(#[trigger] cs[i]) by {
                let m = (i + 1) as nat;
                assert(cs[i] == project_folder_candidate(root@, base@, sep, m));
            }
            lemma_pigeonhole(cs, tv);
        }
        k = k + 1;
    }
}

/// The `k`-th candidate destination for a file called `name` moved into `dir`: the name itself
/// first, then `stem (2).ext`, `stem (3).ext`, ... (without `.ext` when the name has no
/// extension).
pub open spec fn destination_candidate(dir: Seq<char>, name: Seq<char>, sep: char, k: nat) -> Seq<char> {
    if k <= 1 {
        spec_join(dir, name, sep)
    } else {
        let stem = match spec_file_stem(name) {
            Some(s) => s,
            None => Seq::empty(),
        };
        let tail = match spec_extension(name) {
            Some(e) => seq!['.'] + e,
            None => Seq::empty(),
        };
        spec_join(dir, numbered(stem, k, tail), sep)
    }
}

/// Where a file called `file_name` lands when moved into `dir`: the first candidate
/// destination (see `destination_candidate`) that is not in `existing`.
pub fn unique_destination(dir: &str, file_name: &str, sep: char, existing: &Vec<String>) -> (r: String)
    ensures
        exists|k: nat|
            {
                &&& k >= 1
                &&& r@ == destination_candidate(dir@, file_name@, sep, k)
                &&& !strs_view(existing@).contains(r@)
                &&& forall|m: nat|
                    1 <= m < k ==> strs_view(existing@).contains(
                        #[trigger] destination_candidate(dir@, file_name@, sep, m),
                    )
            },
{
    let ghost tv = strs_view(existing@);
    let first = join_name(dir, file_name, sep);
    assert(first@ == destination_candidate(dir@, file_name@, sep, 1));
    if !contains_string(existing, &first) {
        assert(1nat >= 1 && first@ == destination_candidate(dir@, file_name@, sep, 1nat));
        return first;
    }
    let stem: Vec<char> = match file_stem(file_name) {
        Some(s) => chars_of(s.as_str()),
        None => Vec::new(),
    };
    let tail: Vec<char> = match extension(file_name) {
        Some(e) => {
            let mut t: Vec<char> = Vec::new();
            t.push('.');
            let ev = chars_of(e.as_str());
            t.append(&mut ev.clone());
            assert(t@ =~= seq!['.'] + e@);
            t
        },
        None => Vec::new(),
    };
    let ghost stem_s = stem@;
    let ghost tail_s = tail@;
    assert(forall|m: nat| m > 1 ==> #[trigger] destination_candidate(dir@, file_name@, sep, m) == spec_join(dir@, numbered(stem_s, m, tail_s), sep));
    let n_existing = existing.len();
    assert(n_existing as int == existing@.len());
    let mut k: u128 = 2;
    loop
        invariant
            stem@ == stem_s,
            tail@ == tail_s,
            tv == strs_view(existing@),
            existing@.len() <= usize::MAX,
            forall|m: nat| m > 1 ==> #[trigger] destination_candidate(dir@, file_name@, sep, m) == spec_join(dir@, numbered(stem_s, m, tail_s), sep),
            2 <= k <= existing@.len() + 2,
            forall|m: nat| 1 <= m < k ==> tv.contains(#[trigger] destination_candidate(dir@, file_name@, sep, m)),
        decreases existing@.len() + 2 - k,
    {
        let n = numbered_name(&stem, k, &tail);
        let c = join_name(dir, n.as_str(), sep);
        assert(c@ == destination_candidate(dir@, file_name@, sep, k as nat));
        if !contains_string(existing, &c) {
            assert(k as nat >= 1 && c@ == destination_candidate(dir@, file_name@, sep, k as nat));
            return c;
        }
        proof {
            let cs = Seq::new((k - 1) as nat, |i: int| destination_candidate(dir@, file_name@, sep, (i + 2) as nat));
            assert forall|i: int, j: int| 0 <= i < cs.len() && 0 <= j < cs.len() && i != j implies cs[i]
                != cs[j] by {
                if cs[i] == cs[j] {
                    let a = (i + 2) as nat;
                    let b = (j + 2) as nat;
                    let pre = join_prefix(dir@, sep);
                    assert(cs[i] == pre + numbered(stem_s, a, tail_s));
                    assert(cs[j] == pre + numbered(stem_s, b, tail_s));
                    assert(numbered(stem_s, a, tail_s) =~= cs[i].skip(pre.len() as int));
                    assert(numbered(stem_s, b, tail_s) =~= cs[j].skip(pre.len() as int));
                    lemma_numbered_injective(stem_s, a, b, tail_s);
                }
            }
            assert forall|i: int| 0 <= i < cs.len() implies tv.contains(#[trigger] cs[i]) by {
                let m = (i + 2) as nat;
                assert(cs[i] == destination_candidate(dir@, file_name@, sep, m));
            }
            lemma_pigeonhole(cs, tv);
        }
        k = k + 1;
    }
}


// ----- laws -------------------------------------------------------------------------------

/// A sanitized folder name is never empty, holds no reserved or control character, and does
/// not end with a dot or a space.
pub proof fn law_sanitized_name_is_safe(name: Seq<char>)
    ensures
        spec_sanitize(name).len() > 0,
        forall|i: int| 0 <= i < spec_sanitize(name).len() ==> !is_reserved_char(#[trigger] spec_sanitize(name)[i])
            && !is_control_char(spec_sanitize(name)[i]),
        spec_sanitize(name).last() != '.' && spec_sanitize(name).last() != ' ',
{
    let m = name.map_values(|c: char| replace_unsafe(c));
    lemma_trimmed_len_bound(m);
    lemma_trimmed_len_ends(m);
    let t = m.take(trimmed_len(m) as int);
    if t.len() == 0 {
        let u = seq!['u', 'n', 't', 'i', 't', 'l', 'e', 'd'];
        assert(spec_sanitize(name) == u);
        assert forall|i: int| 0 <= i < u.len() implies !is_reserved_char(#[trigger] u[i]) && !is_control_char(u[i]) by {}
    } else {
        assert forall|i: int| 0 <= i < t.len() implies !is_reserved_char(#[trigger] t[i]) && !is_control_char(t[i]) by {
            assert(t[i] == replace_unsafe(name[i]));
        }
    }
}

proof fn lemma_trimmed_len_ends(s: Seq<char>)
    ensures
        trimmed_len(s) > 0 ==> s[trimmed_len(s) - 1] != '.' && s[trimmed_len(s) - 1] != ' ',
    decreases s.len(),
{
    if s.len() > 0 && (s.last() == '.' || s.last() == ' ') {
        lemma_trimmed_len_ends(s.drop_last());
        lemma_trimmed_len_bound(s.drop_last());
        if trimmed_len(s) > 0 {
            assert(s[trimmed_len(s) - 1] == s.drop_last()[trimmed_len(s) - 1]);
        }
    }
}

proof fn lemma_trimmed_len_of_clean(s: Seq<char>)
    requires
        s.len() > 0 ==> s.last() != '.' && s.last() != ' ',
    ensures
        trimmed_len(s) == s.len(),
{
}

/// Sanitizing a sanitized name changes nothing.
pub proof fn law_sanitize_idempotent(name: Seq<char>)
    ensures
        spec_sanitize(spec_sanitize(name)) == spec_sanitize(name),
{
    let s = spec_sanitize(name);
    law_sanitized_name_is_safe(name);
    let m = s.map_values(|c: char| replace_unsafe(c));
    assert(m =~= s);
    lemma_trimmed_len_of_clean(m);
    assert(m.take(trimmed_len(m) as int) =~= s);
}

proof fn lemma_separator_run_stops(s: Seq<char>)
    requires
        s.len() > 0 ==> !is_separator_run_char(s[0]),
    ensures
        separator_run_len(s) == 0,
{
}

proof fn lemma_zero_padded_digits(v: nat, w: nat)
    ensures
        zero_padded(v, w).len() >= 1,
        forall|i: int| 0 <= i < zero_padded(v, w).len() ==> is_ascii_digit(#[trigger] zero_padded(v, w)[i]),
{
    lemma_decimal_digits(v);
    lemma_decimal_len(v);
    let d = decimal(v);
    if d.len() < w {
        let z = Seq::new((w - d.len()) as nat, |i: int| '0');
        assert forall|i: int| 0 <= i < zero_padded(v, w).len() implies is_ascii_digit(#[trigger] zero_padded(v, w)[i]) by {
            if i >= z.len() {
                assert(zero_padded(v, w)[i] == d[i - z.len()]);
            }
        }
    }
}

/// A date written `%Y-%m-%d` is made of digits, dashes and a sign, none of which sanitizing
/// changes, and ends with a digit.
pub proof fn lemma_date_text_is_safe(t: Seq<char>)
    requires
        is_date_text(t),
    ensures
        t.len() > 0,
        forall|i: int| 0 <= i < t.len() ==> replace_unsafe(#[trigger] t[i]) == t[i],
        is_ascii_digit(t.last()),
{
    let (y, m, d) = choose|y: int, m: nat, d: nat| is_calendar_date(y, m, d) && #[trigger] ymd_text(y, m, d) == t;
    let yt = year_text(y);
    let a = if 0 <= y <= 9999 {
        y as nat
    } else if y > 9999 {
        y as nat
    } else {
        (-y) as nat
    };
    lemma_zero_padded_digits(a, 4);
    lemma_zero_padded_digits(m, 2);
    lemma_zero_padded_digits(d, 2);
    let mt = zero_padded(m, 2);
    let dt = zero_padded(d, 2);
    assert(t =~= yt + seq!['-'] + mt + seq!['-'] + dt);
    assert forall|i: int| 0 <= i < yt.len() implies is_ascii_digit(#[trigger] yt[i]) || yt[i] == '+' || yt[i] == '-' by {
        if !(0 <= y <= 9999) && i > 0 {
            assert(yt[i] == zero_padded(a, 4)[i - 1]);
        }
    }
    assert forall|i: int| 0 <= i < t.len() implies replace_unsafe(#[trigger] t[i]) == t[i] by {
        if i < yt.len() {
            assert(t[i] == yt[i]);
        } else if i == yt.len() {
        } else if i < yt.len() + 1 + mt.len() {
            assert(t[i] == mt[i - yt.len() - 1]);
        } else if i == yt.len() + 1 + mt.len() {
        } else {
            assert(t[i] == dt[i - yt.len() - 2 - mt.len()]);
        }
    }
    assert(t.last() == dt.last());
}

proof fn lemma_trimmed_len_keeps(s: Seq<char>, j: int)
    requires
        0 <= j < s.len(),
        s[j] != '.' && s[j] != ' ',
    ensures
        trimmed_len(s) > j,
    decreases s.len(),
{
    if s.len() > 0 && (s.last() == '.' || s.last() == ' ') {
        assert(s.drop_last()[j] == s[j]);
        lemma_trimmed_len_keeps(s.drop_last(), j);
    }
}

/// Sanitizing a name that starts with text `p` that sanitizing leaves alone, and that ends with
/// neither a dot nor a space, keeps `p` at the front.
pub proof fn lemma_sanitize_keeps_prefix(p: Seq<char>, rest: Seq<char>)
    requires
        p.len() > 0,
        forall|i: int| 0 <= i < p.len() ==> replace_unsafe(#[trigger] p[i]) == p[i],
        p.last() != '.' && p.last() != ' ',
    ensures
        spec_sanitize(p + rest).len() >= p.len(),
        spec_sanitize(p + rest).take(p.len() as int) == p,
{
    let s = p + rest;
    let m = s.map_values(|c: char| replace_unsafe(c));
    assert(m[p.len() - 1] == p.last());
    lemma_trimmed_len_keeps(m, p.len() - 1);
    lemma_trimmed_len_bound(m);
    let t = m.take(trimmed_len(m) as int);
    assert(t.take(p.len() as int) =~= p) by {
        assert forall|i: int| 0 <= i < p.len() implies t.take(p.len() as int)[i] == p[i] by {
            assert(s[i] == p[i]);
        }
    }
}

/// Numbers below ten to the `k` have at most `k` decimal digits, all of them ASCII digits.
proof fn lemma_decimal_short(n: nat, k: nat)
    requires
        1 <= k <= 4,
        k == 1 ==> n < 10,
        k == 2 ==> n < 100,
        k == 3 ==> n < 1000,
        k == 4 ==> n < 10000,
    ensures
        1 <= decimal(n).len() <= k,
        forall|i: int| 0 <= i < decimal(n).len() ==> '0' <= #[trigger] decimal(n)[i] <= '9',
    decreases n,
{
    lemma_decimal_len(n);
    if n >= 10 {
        lemma_decimal_short(n / 10, (k - 1) as nat);
        assert forall|i: int| 0 <= i < decimal(n).len() implies '0' <= #[trigger] decimal(n)[i] <= '9' by {
            if i < decimal(n).len() - 1 {
                assert(decimal(n)[i] == decimal(n / 10)[i]);
            }
        }
    }
}

proof fn lemma_zero_padded(v: nat, k: nat)
    requires
        1 <= k <= 4,
        k == 2 ==> v < 100,
        k == 4 ==> v < 10000,
        k == 1 || k == 3 ==> false,
    ensures
        zero_padded(v, k).len() == k,
        forall|i: int| 0 <= i < k ==> '0' <= #[trigger] zero_padded(v, k)[i] <= '9',
{
    lemma_decimal_short(v, k);
    let d = decimal(v);
    if d.len() < k {
        let z = Seq::new((k - d.len()) as nat, |i: int| '0');
        assert forall|i: int| 0 <= i < k implies '0' <= #[trigger] zero_padded(v, k)[i] <= '9' by {
            if i >= z.len() {
                assert(zero_padded(v, k)[i] == d[i - z.len()]);
            }
        }
    }
}

/// A date of the years 0 to 9999 written `%Y-%m-%d` is a `YYYY-MM-DD` date of ten characters.
pub proof fn lemma_ymd_text_is_date(y: int, m: nat, d: nat)
    requires
        is_calendar_date(y, m, d),
        0 <= y <= 9999,
    ensures
        ymd_text(y, m, d).len() == 10,
        starts_with_date(ymd_text(y, m, d)),
{
    lemma_zero_padded(y as nat, 4);
    lemma_zero_padded(m, 2);
    lemma_zero_padded(d, 2);
    let t = ymd_text(y, m, d);
    let a = zero_padded(y as nat, 4);
    let b = zero_padded(m, 2);
    let c = zero_padded(d, 2);
    assert(t =~= a + seq!['-'] + b + seq!['-'] + c);
    assert(t[0] == a[0] && t[1] == a[1] && t[2] == a[2] && t[3] == a[3]);
    assert(t[5] == b[0] && t[6] == b[1] && t[8] == c[0] && t[9] == c[1]);
}

/// A project title made by prefixing a name with a date of the years 0 to 9999 (see
/// `with_date_prefix`) gives the name back when its date prefix is stripped (see
/// `strip_date_prefix`), when the name does not start with a dash or white space.
pub proof fn law_strip_undoes_dated_title(y: int, m: nat, d: nat, name: Seq<char>)
    requires
        is_calendar_date(y, m, d),
        0 <= y <= 9999,
        name.len() > 0 ==> !is_separator_run_char(name[0]),
    ensures
        ({
            let title = ymd_text(y, m, d) + seq![' '] + name;
            title.skip(date_prefix_len(title) as int) == name
        }),
{
    lemma_ymd_text_is_date(y, m, d);
    law_strip_undoes_date_prefix(ymd_text(y, m, d), name);
}

/// Stripping the date prefix from a name that was given one gets the name back, when the name
/// does not itself start with a dash or white space.
pub proof fn law_strip_undoes_date_prefix(date: Seq<char>, name: Seq<char>)
    requires
        date.len() == 10,
        starts_with_date(date),
        name.len() > 0 ==> !is_separator_run_char(name[0]),
    ensures
        (date + seq![' '] + name).skip(date_prefix_len(date + seq![' '] + name) as int) == name,
{
    let s = date + seq![' '] + name;
    assert(starts_with_date(s)) by {
        assert(s.subrange(0, 10) =~= date);
        assert(s[0] == date[0] && s[1] == date[1] && s[2] == date[2] && s[3] == date[3] && s[4] == date[4]);
        assert(s[5] == date[5] && s[6] == date[6] && s[7] == date[7] && s[8] == date[8] && s[9] == date[9]);
    }
    let rest = s.skip(10);
    assert(rest =~= seq![' '] + name);
    assert(is_separator_run_char(rest[0]));
    assert(rest.drop_first() =~= name);
    lemma_separator_run_stops(name);
    assert(separator_run_len(rest) == 1);
    assert(s.skip(11) =~= name);
}

proof fn lemma_lower_concat(a: Seq<char>, b: Seq<char>)
    ensures
        lower(a + b) == lower(a) + lower(b),
{
    assert(lower(a + b) =~= lower(a) + lower(b));
}

proof fn lemma_decimal_digits(n: nat)
    ensures
        forall|k: int| 0 <= k < decimal(n).len() ==> is_ascii_digit(#[trigger] decimal(n)[k]),
    decreases n,
{
    if n >= 10 {
        lemma_decimal_digits(n / 10);
        let p = decimal(n / 10);
        let c = digit_char((n % 10) as int);
        assert(is_ascii_digit(c));
        assert forall|k: int| 0 <= k < decimal(n).len() implies is_ascii_digit(#[trigger] decimal(n)[k]) by {
            if k < p.len() {
                assert(decimal(n)[k] == p[k]);
            } else {
                assert(decimal(n)[k] == c);
            }
        }
    } else {
        assert(is_ascii_digit(digit_char(n as int)));
    }
}

/// The output a tool writes for a source with stem `stem`, named `stem-<n>`, has the lower-cased
/// stem as its base name.
pub proof fn law_numbered_output_base_name(stem: Seq<char>, n: nat)
    ensures
        spec_base_name(stem + seq!['-'] + decimal(n)) == lower(stem),
{
    let out = stem + seq!['-'] + decimal(n);
    let l = lower(out);
    lemma_decimal_digits(n);
    lemma_decimal_len(n);
    lemma_lower_concat(stem + seq!['-'], decimal(n));
    lemma_lower_concat(stem, seq!['-']);
    assert(lower(decimal(n)) =~= decimal(n)) by {
        assert forall|k: int| 0 <= k < decimal(n).len() implies lower(decimal(n))[k] == decimal(n)[k] by {
            assert(is_ascii_digit(decimal(n)[k]));
        }
    }
    assert(lower(seq!['-']) =~= seq!['-']);
    let d = stem.len() as int;
    assert(l =~= lower(stem) + seq!['-'] + decimal(n));
    assert(is_numbered_dash(l, d)) by {
        assert(l[d] == '-');
        assert forall|k: int| d < k < l.len() implies is_ascii_digit(#[trigger] l[k]) by {
            assert(l[k] == decimal(n)[k - d - 1]);
        }
    }
    let c = choose|x: int| is_numbered_dash(l, x);
    lemma_numbered_dash_unique(l, c, d);
    assert(l.take(d) =~= lower(stem));
}

/// A stem without a trailing `-<digits>` keeps its lower-cased self as its base name, so the
/// output named `stem-<n>` and the source `stem` share a base name.
pub proof fn law_source_and_output_share_base_name(stem: Seq<char>, n: nat)
    requires
        forall|d: int| !is_numbered_dash(lower(stem), d),
    ensures
        spec_base_name(stem) == spec_base_name(stem + seq!['-'] + decimal(n)),
{
    law_numbered_output_base_name(stem, n);
}

} // verus!
