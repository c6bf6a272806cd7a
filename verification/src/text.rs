//! Character-level helpers shared by the naming and matching rules.
use vstd::prelude::*;

verus! {

/// ASCII lower-casing of one character; other characters are unchanged.
pub open spec fn spec_ascii_lower(c: char) -> char {
    if 'A' <= c && c <= 'Z' {
        ((c as u32) + 32) as char
    } else {
        c
    }
}

/// ASCII lower-casing of every character of a sequence.
pub open spec fn lower(s: Seq<char>) -> Seq<char> {
    s.map_values(|c: char| spec_ascii_lower(c))
}

/// ASCII lower-casing of a character.
pub fn ascii_lower(c: char) -> (r: char)
    ensures
        r == spec_ascii_lower(c),
{
    if 'A' <= c && c <= 'Z' {
        let b: u8 = c as u8;
        assert(b == c as u32);
        (b + 32) as char
    } else {
        c
    }
}

/// Calls `String::push`; trusted to append the character to the string's characters.
#[verifier::external_body]
pub(crate) fn push_char(s: &mut String, c: char)
    ensures
        final(s)@ == old(s)@.push(c),
{
    s.push(c);
}

/// The characters of a string slice.
pub fn chars_of(s: &str) -> (v: Vec<char>)
    ensures
        v@ == s@,
{
    let mut v: Vec<char> = Vec::new();
    for c in it: s.chars()
        invariant
            it.seq() == s@,
            v@ == it.seq().take(it.index() as int),
    {
        v.push(c);
    }
    v
}

/// A string made of the given characters.
pub fn string_of(v: &Vec<char>) -> (s: String)
    ensures
        s@ == v@,
{
    let mut s = String::new();
    for i in 0..v.len()
        invariant
            s@ == v@.take(i as int),
    {
        push_char(&mut s, v[i]);
        assert(v@.take(i + 1) == v@.take(i as int).push(v@[i as int]));
    }
    assert(v@.take(v.len() as int) == v@);
    s
}


/// The ASCII lower-case form of a string.
pub fn to_ascii_lowercase(s: &str) -> (r: String)
    ensures
        r@ == lower(s@),
{
    let cs = chars_of(s);
    let mut out: Vec<char> = Vec::new();
    for i in 0..cs.len()
        invariant
            cs@ == s@,
            out@ == lower(s@).take(i as int),
    {
        let c = ascii_lower(cs[i]);
        out.push(c);
        assert(lower(s@).take(i + 1) == lower(s@).take(i as int).push(c));
    }
    assert(lower(s@).take(cs.len() as int) == lower(s@));
    string_of(&out)
}

/// The ASCII lower-case form of a character sequence held in a vector.
pub fn lower_chars(v: &Vec<char>) -> (r: Vec<char>)
    ensures
        r@ == lower(v@),
{
    let mut out: Vec<char> = Vec::new();
    for i in 0..v.len()
        invariant
            out@ == lower(v@).take(i as int),
    {
        let c = ascii_lower(v[i]);
        out.push(c);
        assert(lower(v@).take(i + 1) == lower(v@).take(i as int).push(c));
    }
    assert(lower(v@).take(v.len() as int) == lower(v@));
    out
}

/// Equality of two character vectors.
pub fn chars_eq(a: &Vec<char>, b: &Vec<char>) -> (r: bool)
    ensures
        r == (a@ == b@),
{
    if a.len() != b.len() {
        return false;
    }
    for i in 0..a.len()
        invariant
            a@.len() == b@.len(),
            forall|j: int| 0 <= j < i ==> a@[j] == b@[j],
    {
        if a[i] != b[i] {
            return false;
        }
    }
    assert(a@ =~= b@);
    true
}

/// Case-insensitive equality over ASCII letters, as `str::eq_ignore_ascii_case` defines it:
/// the two strings are equal once every ASCII letter is lower-cased.
pub open spec fn eq_ignore_case(a: Seq<char>, b: Seq<char>) -> bool {
    lower(a) == lower(b)
}

/// Case-insensitive equality over ASCII letters.
pub fn eq_ignore_ascii_case(a: &str, b: &str) -> (r: bool)
    ensures
        r == eq_ignore_case(a@, b@),
{
    let x = lower_chars(&chars_of(a));
    let y = lower_chars(&chars_of(b));
    chars_eq(&x, &y)
}

/// Lexicographic order on character sequences, comparing code points; this is the order of
/// Rust's `str` comparison, since UTF-8 preserves code point order.
pub open spec fn text_lt(a: Seq<char>, b: Seq<char>) -> bool
    decreases a.len(),
{
    if a.len() == 0 {
        b.len() > 0
    } else if b.len() == 0 {
        false
    } else if a[0] != b[0] {
        a[0] < b[0]
    } else {
        text_lt(a.drop_first(), b.drop_first())
    }
}

/// `text_lt` is a strict total order.
pub proof fn lemma_text_lt_order(a: Seq<char>, b: Seq<char>, c: Seq<char>)
    ensures
        !text_lt(a, a),
        text_lt(a, b) ==> !text_lt(b, a),
        a != b ==> text_lt(a, b) || text_lt(b, a),
        text_lt(a, b) && text_lt(b, c) ==> text_lt(a, c),
    decreases a.len(),
{
    if a.len() == 0 {
        if b.len() == 0 {
            assert(a =~= b);
        }
    } else if b.len() == 0 {
        lemma_text_lt_order(a.drop_first(), a.drop_first(), a.drop_first());
    } else {
        lemma_text_lt_order(a.drop_first(), a.drop_first(), a.drop_first());
        let c2 = if c.len() > 0 { c.drop_first() } else { b.drop_first() };
        lemma_text_lt_order(a.drop_first(), b.drop_first(), c2);
        if a != b && a[0] == b[0] {
            assert(a =~= seq![a[0]] + a.drop_first());
            assert(b =~= seq![b[0]] + b.drop_first());
        }
    }
}

/// Lexicographic comparison of two character vectors.
pub fn chars_lt(a: &Vec<char>, b: &Vec<char>) -> (r: bool)
    ensures
        r == text_lt(a@, b@),
{
    let mut i: usize = 0;
    assert(a@.skip(0) == a@);
    assert(b@.skip(0) == b@);
    while i < a.len() && i < b.len() && a[i] == b[i]
        invariant
            i <= a@.len(),
            i <= b@.len(),
            text_lt(a@, b@) == text_lt(a@.skip(i as int), b@.skip(i as int)),
        decreases a@.len() - i,
    {
        assert(a@.skip(i as int).drop_first() == a@.skip(i + 1));
        assert(b@.skip(i as int).drop_first() == b@.skip(i + 1));
        i = i + 1;
    }
    if i == a.len() {
        i < b.len()
    } else if i == b.len() {
        false
    } else {
        a[i] < b[i]
    }
}

} // verus!
