//! Writing an LTX document as text: root pairs first, then each section with
//! its keys indented and padded to a common column.

use crate::config::ltx_parser::{LtxFile, LtxView, SectionList};
use crate::ordered::{
    body_entries, body_get_index, body_len, section_bodies, sections_get_index, sections_len,
    value_view, Pair,
};
use indexmap::IndexMap;
use vstd::prelude::*;
use vstd::string::StringExecFns;
use vstd::string::StrSliceExecFns;

verus! {

/// `n` spaces.
pub open spec fn spaces(n: nat) -> Seq<char> {
    Seq::new(n, |i: int| ' ')
}

/// The number of bytes that `c` takes in UTF-8.
pub open spec fn char_width(c: char) -> nat {
    let n = c as u32;
    if n < 0x80 {
        1
    } else if n < 0x800 {
        2
    } else if n < 0x10000 {
        3
    } else {
        4
    }
}

/// The number of bytes that `s` takes in UTF-8.
pub open spec fn utf8_len(s: Seq<char>) -> nat
    decreases s.len(),
{
    if s.len() == 0 {
        0
    } else {
        utf8_len(s.drop_last()) + char_width(s.last())
    }
}

/// The greatest UTF-8 length among the keys of `body`, 0 if it has none.
pub open spec fn widest_key(body: Seq<Pair>) -> nat
    decreases body.len(),
{
    if body.len() == 0 {
        0
    } else {
        let rest = widest_key(body.drop_last());
        let last = utf8_len(body.last().0);
        if last > rest {
            last
        } else {
            rest
        }
    }
}

/// `k`, filled up with spaces to `width` characters if it has fewer.
pub open spec fn padded(k: Seq<char>, width: nat) -> Seq<char> {
    if k.len() < width {
        k + spaces((width - k.len()) as nat)
    } else {
        k
    }
}

/// The rest of a line behind its key: ` = value` or ` =`, and the newline.
pub open spec fn render_assignment(v: Option<Seq<char>>) -> Seq<char> {
    match v {
        Some(x) => seq![' ', '=', ' '] + x + seq!['\n'],
        None => seq![' ', '=', '\n'],
    }
}

/// The line of a root pair.
pub open spec fn render_root_pair(p: Pair) -> Seq<char> {
    p.0 + render_assignment(p.1)
}

/// The line of a pair within a section whose key column is `width` wide.
pub open spec fn render_pair(p: Pair, width: nat) -> Seq<char> {
    spaces(8) + padded(p.0, width) + render_assignment(p.1)
}

/// The lines of the root pairs.
pub open spec fn render_root(root: Seq<Pair>) -> Seq<char>
    decreases root.len(),
{
    if root.len() == 0 {
        Seq::empty()
    } else {
        render_root(root.drop_last()) + render_root_pair(root.last())
    }
}

/// The lines of the pairs of a section.
pub open spec fn render_body(body: Seq<Pair>, width: nat) -> Seq<char>
    decreases body.len(),
{
    if body.len() == 0 {
        Seq::empty()
    } else {
        render_body(body.drop_last(), width) + render_pair(body.last(), width)
    }
}

/// A section: its header and its pairs.
pub open spec fn render_section(name: Seq<char>, body: Seq<Pair>) -> Seq<char> {
    seq!['['] + name + seq![']', '\n'] + render_body(body, widest_key(body))
}

/// The sections, each but the first behind an empty line; the first too if
/// `lead` is set.
pub open spec fn render_sections(secs: SectionList, lead: bool) -> Seq<char>
    decreases secs.len(),
{
    if secs.len() == 0 {
        Seq::empty()
    } else {
        render_sections(secs.drop_last(), lead) + (if secs.len() > 1 || lead {
            seq!['\n']
        } else {
            Seq::empty()
        }) + render_section(secs.last().0, secs.last().1)
    }
}

/// The text of a document. Where there are root pairs, two empty lines
/// part them from the first section.
pub open spec fn render(doc: LtxView) -> Seq<char> {
    render_root(doc.root) + (if doc.root.len() > 0 {
        seq!['\n']
    } else {
        Seq::empty()
    }) + render_sections(doc.sections, doc.root.len() > 0)
}

/// `String::len`: the length of the string in bytes, which is the sum of
/// the UTF-8 widths of its characters.
#[verifier::external_body]
fn byte_len(s: &String) -> (n: usize)
    ensures
        n == utf8_len(s@),
{
    s.len()
}

/// Appends `n` spaces to `out`.
fn push_spaces(out: &mut String, n: usize)
    ensures
        final(out)@ == old(out)@ + spaces(n as nat),
{
    let mut i: usize = 0;
    assert(old(out)@ + spaces(0) == old(out)@);
    while i < n
        invariant
            i <= n,
            out@ == old(out)@ + spaces(i as nat),
        decreases n - i,
    {
        out.push(' ');
        i += 1;
        assert(old(out)@ + spaces((i - 1) as nat) + seq![' '] == old(out)@ + spaces(i as nat));
    }
}

/// Appends ` = value` or ` =`, and the newline.
fn push_assignment(out: &mut String, value: &Option<String>)
    ensures
        final(out)@ == old(out)@ + render_assignment(value_view(*value)),
{
    out.push(' ');
    out.push('=');
    match value {
        Some(v) => {
            out.push(' ');
            out.append(v.as_str());
            out.push('\n');
            assert(out@ == old(out)@ + (seq![' ', '=', ' '] + v@ + seq!['\n']));
        },
        None => {
            out.push('\n');
            assert(out@ == old(out)@ + seq![' ', '=', '\n']);
        },
    }
}

/// The greatest UTF-8 length among the keys of `body`.
fn key_column(body: &IndexMap<String, Option<String>>) -> (w: usize)
    ensures
        w == widest_key(body_entries(*body)),
{
    let ghost b = body_entries(*body);
    let n = body_len(body);
    let mut w: usize = 0;
    let mut i: usize = 0;
    assert(b.take(0) == Seq::<Pair>::empty());
    while i < n
        invariant
            i <= n,
            n == b.len(),
            b == body_entries(*body),
            w == widest_key(b.take(i as int)),
        decreases n - i,
    {
        match body_get_index(body, i) {
            Some(p) => {
                proof {
                    assert(b.take(i as int + 1).drop_last() == b.take(i as int));
                    assert(b.take(i as int + 1).last() == b[i as int]);
                }
                let l = byte_len(p.0);
                if l > w {
                    w = l;
                }
            },
            None => {},
        }
        i += 1;
    }
    assert(b.take(n as int) == b);
    w
}

/// Appends a section: its header and its pairs.
fn push_section(out: &mut String, name: &String, body: &IndexMap<String, Option<String>>)
    ensures
        final(out)@ == old(out)@ + render_section(name@, body_entries(*body)),
{
    let ghost b = body_entries(*body);
    out.push('[');
    out.append(name.as_str());
    out.push(']');
    out.push('\n');
    let ghost head = out@;
    assert(head == old(out)@ + (seq!['['] + name@ + seq![']', '\n']));
    let width = key_column(body);
    let n = body_len(body);
    let mut i: usize = 0;
    assert(b.take(0) == Seq::<Pair>::empty());
    assert(head + Seq::<char>::empty() == head);
    while i < n
        invariant
            i <= n,
            n == b.len(),
            b == body_entries(*body),
            out@ == head + render_body(b.take(i as int), width as nat),
        decreases n - i,
    {
        match body_get_index(body, i) {
            Some(p) => {
                proof {
                    assert(b.take(i as int + 1).drop_last() == b.take(i as int));
                    assert(b.take(i as int + 1).last() == b[i as int]);
                }
                let ghost before = out@;
                push_spaces(out, 8);
                out.append(p.0.as_str());
                let count = p.0.as_str().unicode_len();
                if count < width {
                    push_spaces(out, width - count);
                }
                push_assignment(out, p.1);
                assert(out@ == before + render_pair(b[i as int], width as nat));
            },
            None => {},
        }
        i += 1;
    }
    assert(b.take(n as int) == b);
    assert(out@ == old(out)@ + (seq!['['] + name@ + seq![']', '\n'] + render_body(
        b,
        widest_key(b),
    )));
}

impl LtxFile {
    /// The document as text, with aligned keys.
    pub fn to_string_formatted(&self) -> (r: String)
        ensures
            r@ == render(self@),
    {
        let mut out = String::new();
        let root = self.root_entries();
        let ghost rt = body_entries(*root);
        let n = body_len(root);
        let mut i: usize = 0;
        assert(rt.take(0) == Seq::<Pair>::empty());
        while i < n
            invariant
                i <= n,
                n == rt.len(),
                rt == body_entries(*root),
                out@ == render_root(rt.take(i as int)),
            decreases n - i,
        {
            match body_get_index(root, i) {
                Some(p) => {
                    proof {
                        assert(rt.take(i as int + 1).drop_last() == rt.take(i as int));
                        assert(rt.take(i as int + 1).last() == rt[i as int]);
                    }
                    let ghost before = out@;
                    out.append(p.0.as_str());
                    push_assignment(&mut out, p.1);
                    assert(out@ == before + render_root_pair(rt[i as int]));
                },
                None => {},
            }
            i += 1;
        }
        assert(rt.take(n as int) == rt);
        let lead = n > 0;
        if lead {
            out.push('\n');
        }
        let ghost head = out@;
        let sections = self.all_entries();
        let ghost secs = section_bodies(*sections);
        let m = sections_len(sections);
        let mut j: usize = 0;
        assert(secs.take(0) == Seq::<(Seq<char>, Seq<Pair>)>::empty());
        assert(head + Seq::<char>::empty() == head);
        while j < m
            invariant
                j <= m,
                m == secs.len(),
                secs == section_bodies(*sections),
                out@ == head + render_sections(secs.take(j as int), lead),
            decreases m - j,
        {
            match sections_get_index(sections, j) {
                Some(p) => {
                    proof {
                        assert(secs.take(j as int + 1).drop_last() == secs.take(j as int));
                        assert(secs.take(j as int + 1).last() == secs[j as int]);
                    }
                    let ghost before = out@;
                    if j > 0 || lead {
                        out.push('\n');
                    }
                    let ghost mid = out@;
                    push_section(&mut out, p.0, p.1);
                    assert(out@ == before + ((if j + 1 > 1 || lead {
                        seq!['\n']
                    } else {
                        Seq::<char>::empty()
                    }) + render_section(secs[j as int].0, secs[j as int].1))) by {
                        assert(mid == before + (if j + 1 > 1 || lead {
                            seq!['\n']
                        } else {
                            Seq::<char>::empty()
                        }));
                    }
                },
                None => {},
            }
            j += 1;
        }
        assert(secs.take(m as int) == secs);
        out
    }
}

} // verus!
