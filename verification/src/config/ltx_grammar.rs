//! The line grammar of the LTX format: what one physical line means.

use crate::text::{
    find, find_char, has_prefix, lemma_find_bounds, starts_with, string_of, string_of_range,
    sub_chars, trim, trim_chars,
};
use vstd::prelude::*;

verus! {

/// The keyword that opens an include directive.
pub open spec fn include_keyword() -> Seq<char> {
    seq!['#', 'i', 'n', 'c', 'l', 'u', 'd', 'e']
}

/// `s` without every copy of the include keyword at its front.
pub open spec fn strip_keyword(s: Seq<char>) -> Seq<char>
    decreases s.len(),
{
    if starts_with(s, include_keyword()) {
        strip_keyword(s.skip(8))
    } else {
        s
    }
}

/// The file name or pattern of an include directive: what stands between
/// the first and the last character of the argument, both of which must be
/// double quotes. `t` is the trimmed line.
pub open spec fn include_argument(t: Seq<char>) -> Option<Seq<char>> {
    let rest = trim(strip_keyword(t));
    if rest.len() >= 2 && rest[0] == '"' && rest.last() == '"' {
        Some(rest.subrange(1, rest.len() - 1))
    } else {
        None
    }
}

/// Whether an include argument asks for glob expansion.
pub open spec fn is_wildcard(p: Seq<char>) -> bool {
    p.contains('*') || p.contains('?')
}

/// Index of the first `;` of `s` that stands outside double quotes, or
/// `s.len()` if there is none. Every `"` toggles the quoted state, which is
/// `quoted` at the start.
pub open spec fn comment_start(s: Seq<char>, quoted: bool) -> nat
    decreases s.len(),
{
    if s.len() == 0 {
        0
    } else if s[0] == '"' {
        1 + comment_start(s.drop_first(), !quoted)
    } else if s[0] == ';' && !quoted {
        0
    } else {
        1 + comment_start(s.drop_first(), quoted)
    }
}

/// A raw value without its inline comment. Where a comment is cut off, what
/// is left is trimmed.
pub open spec fn strip_inline_comment(s: Seq<char>) -> Seq<char> {
    let i = comment_start(s, false);
    if i < s.len() {
        trim(s.take(i as int))
    } else {
        s
    }
}

/// The value that the text behind `=` gives: nothing where only whitespace
/// and a comment stand there.
pub open spec fn value_of(raw: Seq<char>) -> Option<Seq<char>> {
    let v = strip_inline_comment(trim(raw));
    if v.len() == 0 {
        None
    } else {
        Some(v)
    }
}

/// What a line means.
pub enum LineKind {
    /// Blank, a comment, or anything that is none of the others.
    Skip,
    /// A well-formed include directive with its file name or pattern.
    Include(Seq<char>),
    /// An include directive without a quoted argument; holds the trimmed line.
    Malformed(Seq<char>),
    /// A section header with the section's name.
    Section(Seq<char>),
    /// A key with its value.
    Assign(Seq<char>, Option<Seq<char>>),
}

/// The meaning of one physical line.
pub open spec fn classify(line: Seq<char>) -> LineKind {
    let t = trim(line);
    if t.len() == 0 || t[0] == ';' {
        LineKind::Skip
    } else if starts_with(t, include_keyword()) {
        match include_argument(t) {
            Some(p) => LineKind::Include(p),
            None => LineKind::Malformed(t),
        }
    } else if t[0] == '[' && find(t, ']') < t.len() {
        LineKind::Section(trim(t.subrange(1, find(t, ']') as int)))
    } else if find(t, '=') < t.len() {
        LineKind::Assign(
            trim(t.take(find(t, '=') as int)),
            value_of(t.skip(find(t, '=') as int + 1)),
        )
    } else {
        LineKind::Skip
    }
}

/// What a line means, in owned strings.
pub enum Directive {
    /// Blank, a comment, or anything that is none of the others.
    Skip,
    /// A well-formed include directive with its file name or pattern.
    Include(String),
    /// An include directive without a quoted argument; holds the trimmed line.
    Malformed(String),
    /// A section header with the section's name.
    Section(String),
    /// A key with its value.
    Assign(String, Option<String>),
}

impl View for Directive {
    type V = LineKind;

    open spec fn view(&self) -> LineKind {
        match self {
            Directive::Skip => LineKind::Skip,
            Directive::Include(p) => LineKind::Include(p@),
            Directive::Malformed(t) => LineKind::Malformed(t@),
            Directive::Section(n) => LineKind::Section(n@),
            Directive::Assign(k, v) => LineKind::Assign(
                k@,
                match v {
                    Some(s) => Some(s@),
                    None => None,
                },
            ),
        }
    }
}

/// The include keyword as characters.
fn keyword_chars() -> (k: Vec<char>)
    ensures
        k@ == include_keyword(),
{
    vec!['#', 'i', 'n', 'c', 'l', 'u', 'd', 'e']
}

/// The file name or pattern of the include directive in the trimmed line
/// `line`, or `None` if its argument is not quoted.
pub fn parse_include_directive(line: &Vec<char>) -> (r: Option<String>)
    ensures
        r is Some == include_argument(line@) is Some,
        r matches Some(p) ==> include_argument(line@) == Some(p@),
{
    let keyword = keyword_chars();
    let mut start: usize = 0;
    assert(line@.skip(0) == line@);
    loop
        invariant
            start <= line.len(),
            keyword@ == include_keyword(),
            strip_keyword(line@) == strip_keyword(line@.skip(start as int)),
        ensures
            start <= line.len(),
            strip_keyword(line@) == line@.skip(start as int),
        decreases line.len() - start,
    {
        let here = sub_chars(line, start, line.len());
        assert(here@ == line@.skip(start as int));
        if has_prefix(&here, &keyword) {
            assert(line@.skip(start as int).skip(8) == line@.skip(start as int + 8));
            start = start + 8;
        } else {
            break ;
        }
    }
    let rest = trim_chars(&sub_chars(line, start, line.len()));
    assert(line@.subrange(start as int, line.len() as int) == line@.skip(start as int));
    let n: usize = rest.len();
    if n >= 2 && rest[0] == '"' && rest[n - 1] == '"' {
        Some(string_of_range(&rest, 1, n - 1))
    } else {
        None
    }
}

/// Whether the include argument `pattern` asks for glob expansion.
pub fn has_wildcard(pattern: &Vec<char>) -> (r: bool)
    ensures
        r == is_wildcard(pattern@),
{
    let a = find_char(pattern, '*');
    let b = find_char(pattern, '?');
    proof {
        lemma_find_bounds(pattern@, '*');
        lemma_find_bounds(pattern@, '?');
        if a < pattern.len() {
            assert(pattern@[a as int] == '*');
        }
        if b < pattern.len() {
            assert(pattern@[b as int] == '?');
        }
    }
    a < pattern.len() || b < pattern.len()
}

/// The raw value `value` without its inline comment.
pub fn strip_inline_comment_chars(value: &Vec<char>) -> (r: Vec<char>)
    ensures
        r@ == strip_inline_comment(value@),
{
    let mut i: usize = 0;
    let mut quoted = false;
    assert(value@.skip(0) == value@);
    while i < value.len()
        invariant
            i <= value.len(),
            comment_start(value@, false) == i + comment_start(value@.skip(i as int), quoted),
        decreases value.len() - i,
    {
        let c = value[i];
        proof {
            let rest = value@.skip(i as int);
            assert(rest[0] == c);
            assert(rest.drop_first() == value@.skip(i as int + 1));
        }
        if c == '"' {
            quoted = !quoted;
        } else if c == ';' && !quoted {
            let head = sub_chars(value, 0, i);
            assert(head@ == value@.take(i as int));
            return trim_chars(&head);
        }
        i += 1;
    }
    let whole = sub_chars(value, 0, value.len());
    assert(whole@ == value@);
    whole
}

/// The meaning of the physical line `line`.
pub fn classify_line(line: &Vec<char>) -> (d: Directive)
    ensures
        d@ == classify(line@),
{
    let t = trim_chars(line);
    let n: usize = t.len();
    if n == 0 || t[0] == ';' {
        return Directive::Skip;
    }
    let keyword = keyword_chars();
    if has_prefix(&t, &keyword) {
        return match parse_include_directive(&t) {
            Some(p) => Directive::Include(p),
            None => Directive::Malformed(string_of(&t)),
        };
    }
    if t[0] == '[' {
        let end = find_char(&t, ']');
        if end < n {
            proof {
                lemma_find_bounds(t@, ']');
            }
            let name = trim_chars(&sub_chars(&t, 1, end));
            return Directive::Section(string_of(&name));
        }
    }
    let eq = find_char(&t, '=');
    if eq < n {
        let key = trim_chars(&sub_chars(&t, 0, eq));
        assert(t@.subrange(0, eq as int) == t@.take(eq as int));
        let raw = trim_chars(&sub_chars(&t, eq + 1, n));
        assert(t@.subrange(eq as int + 1, n as int) == t@.skip(eq as int + 1));
        let value = strip_inline_comment_chars(&raw);
        let v = if value.len() == 0 {
            None
        } else {
            Some(string_of(&value))
        };
        return Directive::Assign(string_of(&key), v);
    }
    Directive::Skip
}

} // verus!
