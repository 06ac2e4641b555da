//! Characters and strings: lower case, and the few string operations of the
//! standard library that the rest of the crate builds on.
use vstd::prelude::*;

verus! {

/// The lowercase form of `s` under Unicode's full case mapping.
pub uninterp spec fn lowercased(s: Seq<char>) -> Seq<char>;

/// `str::to_lowercase`, which is called for a text with a character outside
/// ASCII. The mapping is Unicode's (tables and the final-sigma rule), so the
/// result is only named here: it depends on the characters of `s` and on
/// nothing else.
#[verifier::external_body]
pub(crate) fn lowercase(s: &str) -> (r: String)
    ensures
        r@ == lowercased(s@),
{
    s.to_lowercase()
}

/// A character of ASCII.
pub open spec fn is_ascii_char(c: char) -> bool {
    c <= '\u{7f}'
}

/// Whether `s` holds characters of ASCII only.
pub open spec fn all_ascii(s: Seq<char>) -> bool {
    forall|i: int| 0 <= i < s.len() ==> is_ascii_char(#[trigger] s[i])
}

/// The small letter for a capital letter of ASCII; any other character as
/// it is.
pub open spec fn ascii_lower(c: char) -> char {
    if 'A' <= c <= 'Z' {
        ((c as u8) + 32) as char
    } else {
        c
    }
}

/// `s` in lower case. A text of ASCII has its capital letters replaced by
/// the small ones, which is all that Unicode's mapping does to such a text;
/// any other text has Unicode's mapping.
pub open spec fn folded(s: Seq<char>) -> Seq<char> {
    if all_ascii(s) {
        Seq::new(s.len(), |i: int| ascii_lower(s[i]))
    } else {
        lowercased(s)
    }
}

/// `String::push`: appends one character.
#[verifier::external_body]
pub(crate) fn push_char(s: &mut String, c: char)
    ensures
        final(s)@ == old(s)@.push(c),
{
    s.push(c)
}

/// `String::pop`: takes the last character away, if there is one.
#[verifier::external_body]
pub(crate) fn pop_char(s: &mut String)
    ensures
        final(s)@ == (if old(s)@.len() > 0 {
            old(s)@.drop_last()
        } else {
            old(s)@
        }),
{
    s.pop();
}

/// The characters of `s`, in order.
pub fn chars_of(s: &str) -> (r: Vec<char>)
    ensures
        r@ == s@,
{
    let mut out: Vec<char> = Vec::new();
    let it = s.chars();
    for c in iter: it
        invariant
            out@ == iter.history(),
    {
        out.push(c);
    }
    out
}

/// The small letter for a capital letter of ASCII; any other character as
/// it is.
pub fn lower_ascii(c: char) -> (r: char)
    ensures
        r == ascii_lower(c),
{
    if c >= 'A' && c <= 'Z' {
        ((c as u8) + 32) as char
    } else {
        c
    }
}

/// `text` in lower case.
pub fn fold(text: &str) -> (r: String)
    ensures
        r@ == folded(text@),
{
    let chars = chars_of(text);
    let mut i: usize = 0;
    while i < chars.len() && chars[i] <= '\u{7f}'
        invariant
            i <= chars.len(),
            forall|k: int| 0 <= k < i ==> is_ascii_char(#[trigger] chars@[k]),
        decreases chars.len() - i,
    {
        i += 1;
    }
    if i < chars.len() {
        assert(!is_ascii_char(chars@[i as int]));
        return lowercase(text);
    }
    let mut out = String::new();
    let mut j: usize = 0;
    while j < chars.len()
        invariant
            j <= chars.len(),
            out@.len() == j,
            forall|k: int| 0 <= k < j ==> #[trigger] out@[k] == ascii_lower(chars@[k]),
        decreases chars.len() - j,
    {
        push_char(&mut out, lower_ascii(chars[j]));
        j += 1;
    }
    assert(out@ =~= folded(text@));
    out
}

/// The number of characters of a text that are embedded when a host hands
/// over texts of any length.
pub const EMBEDDED_CHARS: usize = 2500;

/// The first `limit` characters of `text`, or all of it where it has fewer.
pub fn first_chars(text: &str, limit: usize) -> (r: String)
    ensures
        r@ == text@.take(
            if limit <= text@.len() {
                limit as int
            } else {
                text@.len() as int
            },
        ),
{
    let chars = chars_of(text);
    let end = if limit <= chars.len() {
        limit
    } else {
        chars.len()
    };
    assert(chars@.subrange(0, end as int) =~= text@.take(end as int));
    string_of(&chars, 0, end)
}

/// The string made of `chars[from..to]`.
pub(crate) fn string_of(chars: &Vec<char>, from: usize, to: usize) -> (r: String)
    requires
        from <= to <= chars.len(),
    ensures
        r@ == chars@.subrange(from as int, to as int),
{
    let mut out = String::new();
    let mut i: usize = from;
    while i < to
        invariant
            from <= i <= to <= chars.len(),
            out@ == chars@.subrange(from as int, i as int),
        decreases to - i,
    {
        push_char(&mut out, chars[i]);
        assert(out@ =~= chars@.subrange(from as int, i + 1));
        i += 1;
    }
    assert(out@ =~= chars@.subrange(from as int, to as int));
    out
}

} // verus!
