//! Cleaning text that was rendered from HTML: what stands in square
//! brackets goes, links go, and so do the lines that are left blank.
//!
//! The text is read line by line and character by character. Two things are
//! remembered from one character to the next, and from one line to the next:
//! how many brackets are open, and whether a link is being skipped. A link
//! starts at an `h` that is followed by a `t`, in a line that holds `http`
//! somewhere, and ends at the next space.
use vstd::prelude::*;
use vstd::string::StringExecFns;
use crate::text::{chars_of, push_char};

verus! {

/// What is remembered while reading.
pub struct Reading {
    /// The number of brackets that are open.
    pub depth: nat,
    /// Whether a link is being skipped.
    pub in_link: bool,
}

/// A white-space character, as Unicode lists them under White_Space.
pub open spec fn is_space(c: char) -> bool {
    ||| '\u{9}' <= c <= '\u{d}'
    ||| c == ' '
    ||| c == '\u{85}'
    ||| c == '\u{a0}'
    ||| c == '\u{1680}'
    ||| '\u{2000}' <= c <= '\u{200a}'
    ||| c == '\u{2028}'
    ||| c == '\u{2029}'
    ||| c == '\u{202f}'
    ||| c == '\u{205f}'
    ||| c == '\u{3000}'
}

/// Whether `s` holds nothing but white space.
pub open spec fn is_blank(s: Seq<char>) -> bool {
    forall|i: int| 0 <= i < s.len() ==> is_space(#[trigger] s[i])
}

/// Whether `http` stands in `line` from position `at` on.
pub open spec fn http_at(line: Seq<char>, at: int) -> bool {
    &&& 0 <= at
    &&& at + 4 <= line.len()
    &&& line[at] == 'h'
    &&& line[at + 1] == 't'
    &&& line[at + 2] == 't'
    &&& line[at + 3] == 'p'
}

/// Whether `http` stands somewhere in `line`.
pub open spec fn has_http(line: Seq<char>) -> bool {
    exists|at: int| http_at(line, at)
}

/// The number of characters of `s` before its first line feed, or all of
/// them where it has none.
pub open spec fn line_length(s: Seq<char>) -> nat
    decreases s.len(),
{
    if s.len() == 0 || s[0] == '\n' {
        0
    } else {
        1 + line_length(s.drop_first())
    }
}

/// `line` without the carriage return at its end, if it has one.
pub open spec fn without_cr(line: Seq<char>) -> Seq<char> {
    if line.len() > 0 && line.last() == '\r' {
        line.drop_last()
    } else {
        line
    }
}

/// The lines of `s`. A line ends at a line feed, or at a carriage return
/// followed by a line feed; neither belongs to the line. What follows the
/// last line feed is a line too, unless it is empty.
pub open spec fn lines(s: Seq<char>) -> Seq<Seq<char>>
    decreases s.len(),
{
    if s.len() == 0 {
        Seq::empty()
    } else {
        let n = line_length(s) as int;
        proof {
            lemma_line_length(s);
        }
        if n == s.len() {
            seq![s]
        } else {
            seq![without_cr(s.take(n))] + lines(s.skip(n + 1))
        }
    }
}

/// What is remembered after `c`, which is followed by `next` in a line that
/// holds `http` or not.
pub open spec fn after(r: Reading, c: char, next: Option<char>, http: bool) -> Reading {
    if c == '[' {
        Reading { depth: r.depth + 1, in_link: r.in_link }
    } else if c == ']' {
        Reading {
            depth: if r.depth > 0 {
                (r.depth - 1) as nat
            } else {
                0
            },
            in_link: r.in_link,
        }
    } else if c == 'h' && next == Some('t') && http {
        Reading { depth: r.depth, in_link: true }
    } else if c == ' ' {
        Reading { depth: r.depth, in_link: false }
    } else {
        r
    }
}

/// Whether `c` is kept.
pub open spec fn kept(r: Reading, c: char, next: Option<char>, http: bool) -> bool {
    if c == '[' || c == ']' {
        false
    } else if c == 'h' && next == Some('t') && http {
        false
    } else if c == ' ' {
        r.depth == 0
    } else {
        r.depth == 0 && !r.in_link
    }
}

/// The character that follows position `at` of `line`.
pub open spec fn next_char(line: Seq<char>, at: int) -> Option<char> {
    if at + 1 < line.len() {
        Some(line[at + 1])
    } else {
        None
    }
}

/// What is remembered after the first `k` characters of `line`, starting
/// from `start`.
pub open spec fn reading_after(line: Seq<char>, start: Reading, k: nat) -> Reading
    decreases k,
{
    if k == 0 {
        start
    } else {
        after(
            reading_after(line, start, (k - 1) as nat),
            line[k - 1],
            next_char(line, k - 1),
            has_http(line),
        )
    }
}

/// What is kept of the first `k` characters of `line`, starting from
/// `start`.
pub open spec fn kept_of(line: Seq<char>, start: Reading, k: nat) -> Seq<char>
    decreases k,
{
    if k == 0 {
        Seq::empty()
    } else {
        let before = kept_of(line, start, (k - 1) as nat);
        if kept(
            reading_after(line, start, (k - 1) as nat),
            line[k - 1],
            next_char(line, k - 1),
            has_http(line),
        ) {
            before.push(line[k - 1])
        } else {
            before
        }
    }
}

/// What is remembered after the first `m` of `all` lines.
pub open spec fn reading_after_lines(all: Seq<Seq<char>>, m: nat) -> Reading
    decreases m,
{
    if m == 0 {
        Reading { depth: 0, in_link: false }
    } else {
        reading_after(all[m - 1], reading_after_lines(all, (m - 1) as nat), all[m - 1].len())
    }
}

/// The cleaned text for the first `m` of `all` lines: of each line what is
/// kept and a line feed, unless what is kept is blank.
pub open spec fn cleaned_lines(all: Seq<Seq<char>>, m: nat) -> Seq<char>
    decreases m,
{
    if m == 0 {
        Seq::empty()
    } else {
        let before = cleaned_lines(all, (m - 1) as nat);
        let line = all[m - 1];
        let rest = kept_of(line, reading_after_lines(all, (m - 1) as nat), line.len());
        if is_blank(rest) {
            before
        } else {
            before + rest + seq!['\n']
        }
    }
}

/// The cleaned text.
pub open spec fn cleaned(text: Seq<char>) -> Seq<char> {
    cleaned_lines(lines(text), lines(text).len())
}

/// A line is no longer than the text, and holds no line feed; where it is
/// shorter than the text, a line feed follows it.
pub proof fn lemma_line_length(s: Seq<char>)
    ensures
        line_length(s) <= s.len(),
        forall|i: int| 0 <= i < line_length(s) ==> #[trigger] s[i] != '\n',
        line_length(s) < s.len() ==> s[line_length(s) as int] == '\n',
    decreases s.len(),
{
    if s.len() > 0 && s[0] != '\n' {
        let t = s.drop_first();
        lemma_line_length(t);
        assert forall|i: int| 0 <= i < line_length(s) implies #[trigger] s[i] != '\n' by {
            if i > 0 {
                assert(s[i] == t[i - 1]);
            }
        }
        if line_length(s) < s.len() {
            assert(s[line_length(s) as int] == t[line_length(t) as int]);
        }
    }
}

/// The first line ends at the first line feed.
pub proof fn lemma_line_end(s: Seq<char>, n: nat)
    requires
        n <= s.len(),
        forall|i: int| 0 <= i < n ==> #[trigger] s[i] != '\n',
        n == s.len() || s[n as int] == '\n',
    ensures
        line_length(s) == n,
    decreases n,
{
    if n > 0 {
        let t = s.drop_first();
        assert forall|i: int| 0 <= i < n - 1 implies #[trigger] t[i] != '\n' by {
            assert(t[i] == s[i + 1]);
        }
        lemma_line_end(t, (n - 1) as nat);
    }
}

/// Whether `c` is a white-space character.
pub fn check_space(c: char) -> (r: bool)
    ensures
        r == is_space(c),
{
    (c >= '\u{9}' && c <= '\u{d}') || c == ' ' || c == '\u{85}' || c == '\u{a0}' || c
        == '\u{1680}' || (c >= '\u{2000}' && c <= '\u{200a}') || c == '\u{2028}' || c
        == '\u{2029}' || c == '\u{202f}' || c == '\u{205f}' || c == '\u{3000}'
}

/// Whether `http` stands somewhere in `chars[from..to]`.
fn find_http(chars: &Vec<char>, from: usize, to: usize) -> (r: bool)
    requires
        from <= to <= chars.len(),
    ensures
        r == has_http(chars@.subrange(from as int, to as int)),
{
    let ghost line = chars@.subrange(from as int, to as int);
    if to - from < 4 {
        assert forall|at: int| !http_at(line, at) by {}
        return false;
    }
    let last = to - 3;
    let mut i: usize = from;
    while i < last
        invariant
            from <= i <= last,
            last == to - 3,
            to <= chars.len(),
            line == chars@.subrange(from as int, to as int),
            forall|at: int| 0 <= at < i - from ==> !http_at(line, at),
        decreases last - i,
    {
        if chars[i] == 'h' && chars[i + 1] == 't' && chars[i + 2] == 't' && chars[i + 3] == 'p' {
            assert(http_at(line, i - from));
            return true;
        }
        assert(!http_at(line, i - from));
        i += 1;
    }
    assert forall|at: int| !http_at(line, at) by {}
    false
}

/// `text` without what stands in square brackets, without its links, and
/// without the lines that are left blank; each line that stays ends with a
/// line feed.
pub fn clean_text(text: &str) -> (r: String)
    ensures
        r@ == cleaned(text@),
{
    let chars = chars_of(text);
    let n = chars.len();
    let mut out = String::new();
    let mut depth: usize = 0;
    let mut in_link = false;
    let mut i: usize = 0;
    let ghost all = lines(chars@);
    let ghost mut m: nat = 0;
    assert(chars@.skip(0) =~= chars@);
    assert(all.skip(0) =~= all);
    while i < n
        invariant
            i <= n,
            n == chars.len(),
            chars@ == text@,
            all == lines(chars@),
            m <= all.len(),
            lines(chars@.skip(i as int)) == all.skip(m as int),
            reading_after_lines(all, m) == (Reading { depth: depth as nat, in_link }),
            depth <= i,
            out@ == cleaned_lines(all, m),
        decreases n - i,
    {
        let ghost rest = chars@.skip(i as int);
        let mut end: usize = i;
        while end < n && chars[end] != '\n'
            invariant
                i <= end <= n,
                n == chars.len(),
                forall|k: int| i <= k < end ==> #[trigger] chars@[k] != '\n',
            decreases n - end,
        {
            end += 1;
        }
        let next_start = if end < n {
            end + 1
        } else {
            n
        };
        let stop = if end < n && end > i && chars[end - 1] == '\r' {
            end - 1
        } else {
            end
        };
        let ghost line = chars@.subrange(i as int, stop as int);
        proof {
            assert forall|k: int| 0 <= k < end - i implies #[trigger] rest[k] != '\n' by {
                assert(rest[k] == chars@[i + k]);
            }
            lemma_line_end(rest, (end - i) as nat);
            assert(rest.take(end - i) =~= chars@.subrange(i as int, end as int));
            if end < n {
                assert(rest.skip(end - i + 1) =~= chars@.skip(next_start as int));
                assert(without_cr(rest.take(end - i)) =~= line);
            } else {
                assert(rest =~= line);
                assert(chars@.skip(n as int) =~= Seq::<char>::empty());
            }
            assert(lines(rest) =~= seq![line] + lines(chars@.skip(next_start as int)));
            assert(all.skip(m as int)[0] == line);
            assert(all[m as int] == line);
            assert(all.skip(m as int).skip(1) =~= all.skip(m as int + 1));
            assert(lines(chars@.skip(next_start as int)) =~= all.skip(m as int + 1)) by {
                assert((seq![line] + lines(chars@.skip(next_start as int))).skip(1) =~= lines(
                    chars@.skip(next_start as int),
                ));
            }
        }
        let http = find_http(&chars, i, stop);
        let ghost start = Reading { depth: depth as nat, in_link };
        let mut kept_line = String::new();
        let mut blank = true;
        let mut j: usize = i;
        while j < stop
            invariant
                i <= j <= stop <= n,
                n == chars.len(),
                line == chars@.subrange(i as int, stop as int),
                http == has_http(line),
                reading_after(line, start, (j - i) as nat) == (Reading {
                    depth: depth as nat,
                    in_link,
                }),
                depth <= j,
                kept_line@ == kept_of(line, start, (j - i) as nat),
                blank == is_blank(kept_line@),
            decreases stop - j,
        {
            let c = chars[j];
            let follows_t = j + 1 < stop && chars[j + 1] == 't';
            let ghost k = (j - i) as int;
            let ghost before = Reading { depth: depth as nat, in_link };
            let ghost kept_before = kept_line@;
            assert(line[k] == c);
            assert(follows_t == (next_char(line, k) == Some('t'))) by {
                if j + 1 < stop {
                    assert(line[k + 1] == chars@[j + 1]);
                }
            }
            if c == '[' {
                depth += 1;
            } else if c == ']' {
                if depth > 0 {
                    depth -= 1;
                }
            } else if c == 'h' && follows_t && http {
                in_link = true;
            } else if c == ' ' {
                in_link = false;
                if depth == 0 {
                    push_char(&mut kept_line, c);
                }
            } else {
                if depth == 0 && !in_link {
                    push_char(&mut kept_line, c);
                    if !check_space(c) {
                        blank = false;
                    }
                }
            }
            proof {
                assert(reading_after(line, start, (k + 1) as nat) == after(
                    before,
                    c,
                    next_char(line, k),
                    http,
                ));
                if kept(before, c, next_char(line, k), http) {
                    assert(kept_line@ == kept_before.push(c));
                    assert forall|a: int| 0 <= a < kept_before.len() implies kept_line@[a]
                        == kept_before[a] by {}
                    if is_blank(kept_before) && is_space(c) {
                        assert forall|a: int| 0 <= a < kept_line@.len() implies is_space(
                            #[trigger] kept_line@[a],
                        ) by {
                            if a < kept_before.len() {
                                assert(kept_line@[a] == kept_before[a]);
                            }
                        }
                    } else if !is_space(c) {
                        assert(kept_line@[kept_before.len() as int] == c);
                    } else {
                        let a = choose|a: int|
                            0 <= a < kept_before.len() && !is_space(#[trigger] kept_before[a]);
                        assert(kept_line@[a] == kept_before[a]);
                    }
                }
            }
            j += 1;
        }
        proof {
            assert(line.len() == stop - i);
            assert(reading_after_lines(all, m + 1) == reading_after(
                line,
                start,
                line.len(),
            ));
        }
        if !blank {
            let ghost before = out@;
            out.append(kept_line.as_str());
            push_char(&mut out, '\n');
            assert(out@ =~= before + kept_line@ + seq!['\n']);
        }
        proof {
            m = m + 1;
        }
        i = next_start;
    }
    proof {
        assert(lines(chars@.skip(n as int)) =~= Seq::<Seq<char>>::empty());
        assert(all.skip(m as int).len() == 0);
    }
    out
}

} // verus!
