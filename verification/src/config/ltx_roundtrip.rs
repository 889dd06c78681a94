//! Writing a document and reading the text back gives the same document.

use crate::config::ltx_grammar::{
    classify, comment_start, include_keyword, strip_inline_comment, value_of, LineKind,
};
use crate::config::ltx_loader::{
    apply_line, apply_lines, is_directive, merge_all, parsed, self_contained, LoadState,
};
use crate::config::ltx_parser::{
    section_ensure, section_put, LtxView, SectionList,
};
use crate::config::ltx_writer::{
    padded, render, render_assignment, render_body, render_pair, render_root, render_root_pair,
    render_section, render_sections, spaces, widest_key,
};
use crate::ordered::{
    distinct_keys, has_key, lemma_position_bounds, lemma_position_is, lemma_put, position, put,
    Pair,
};
use crate::text::{
    all_whitespace, find, is_trimmed, is_whitespace, join_lines, leading_ws, lemma_find_bounds,
    lemma_find_is, lemma_join_concat, lemma_leading_ws_bounds, lemma_leading_ws_is,
    lemma_lines_no_newline, lemma_lines_of_join, lemma_trailing_ws_is, lemma_trim_is_trimmed,
    lemma_subrange_lacks, lemma_trim_lacks, lemma_trim_padded, lemma_trim_prefix,
    lemma_trim_skip_ws, lemma_trimmed_fixed, lines, plain_line, starts_with, trim, trim_start,
};
use vstd::prelude::*;

verus! {

/// Whether a key reads back as itself: it is trimmed, holds neither a line
/// feed nor `=`, and does not look like a comment or an include directive.
pub open spec fn printable_key(k: Seq<char>) -> bool {
    &&& is_trimmed(k)
    &&& !k.contains('\n')
    &&& !k.contains('=')
    &&& k.len() > 0 ==> k[0] != ';'
    &&& !starts_with(k, include_keyword())
}

/// Whether a value reads back as itself: if there is one, it is not empty,
/// is trimmed, and holds neither a line feed nor a `;` outside quotes.
pub open spec fn printable_value(v: Option<Seq<char>>) -> bool {
    v matches Some(x) ==> {
        &&& x.len() > 0
        &&& is_trimmed(x)
        &&& !x.contains('\n')
        &&& comment_start(x, false) == x.len()
    }
}

/// Whether a pair reads back as itself. A key that begins with `[` must
/// not be taken for a section header, so no `]` may follow on its line.
pub open spec fn printable_pair(p: Pair) -> bool {
    &&& printable_key(p.0)
    &&& printable_value(p.1)
    &&& (p.0.len() > 0 && p.0[0] == '[') ==> {
        &&& !p.0.contains(']')
        &&& p.1 matches Some(x) ==> !x.contains(']')
    }
}

/// Whether a section name reads back as itself.
pub open spec fn printable_name(n: Seq<char>) -> bool {
    &&& is_trimmed(n)
    &&& !n.contains('\n')
    &&& !n.contains(']')
}

/// Whether the pairs have distinct keys and each reads back as itself.
pub open spec fn printable_body(b: Seq<Pair>) -> bool {
    &&& distinct_keys(b)
    &&& forall|i: int| 0 <= i < b.len() ==> printable_pair(#[trigger] b[i])
}

/// Whether the sections have distinct names and each reads back as itself.
pub open spec fn printable_sections(t: SectionList) -> bool {
    &&& distinct_keys(t)
    &&& forall|i: int|
        0 <= i < t.len() ==> printable_name((#[trigger] t[i]).0) && printable_body(t[i].1)
}

/// Whether a document reads back as itself.
pub open spec fn printable(d: LtxView) -> bool {
    printable_body(d.root) && printable_sections(d.sections)
}

/// What stands behind `=` on a line.
pub open spec fn value_text(v: Option<Seq<char>>) -> Seq<char> {
    match v {
        Some(x) => seq![' '] + x,
        None => Seq::empty(),
    }
}

/// The line of a pair, with `pre` spaces before the key and `pad` behind it.
pub open spec fn assign_line(pre: nat, k: Seq<char>, pad: nat, v: Option<Seq<char>>) -> Seq<
    char,
> {
    spaces(pre) + k + spaces(pad) + seq![' ', '='] + value_text(v)
}

/// The line of a section header.
pub open spec fn header_line(n: Seq<char>) -> Seq<char> {
    seq!['['] + n + seq![']']
}

proof fn lemma_not_contains(s: Seq<char>, c: char)
    requires
        !s.contains(c),
    ensures
        forall|i: int| 0 <= i < s.len() ==> s[i] != c,
{
    assert forall|i: int| 0 <= i < s.len() implies s[i] != c by {
        if s[i] == c {
            assert(s.contains(c));
        }
    }
}

proof fn lemma_keyword_chars()
    ensures
        include_keyword().len() == 8,
        include_keyword()[0] == '#',
        forall|i: int| 0 <= i < 8 ==> include_keyword()[i] != ' ',
{
    let k = include_keyword();
    assert(k[0] == '#' && k[1] == 'i' && k[2] == 'n' && k[3] == 'c' && k[4] == 'l' && k[5] == 'u'
        && k[6] == 'd' && k[7] == 'e');
}

/// The line of a printable pair is read as that pair.
pub proof fn lemma_classify_assign(pre: nat, k: Seq<char>, pad: nat, v: Option<Seq<char>>)
    requires
        printable_pair((k, v)),
    ensures
        classify(assign_line(pre, k, pad, v)) == LineKind::Assign(k, v),
        plain_line(assign_line(pre, k, pad, v)),
{
    let l = assign_line(pre, k, pad, v);
    let c = value_text(v);
    let e = (pre + k.len() + pad + 1) as int;
    lemma_not_contains(k, '=');
    lemma_not_contains(k, '\n');
    assert(l.len() == e + 1 + c.len());
    assert(l[e] == '=');
    assert forall|i: int| 0 <= i < e implies l[i] != '=' && l[i] != '\n' && (i < pre || i >= pre
        + k.len() ==> l[i] == ' ') && (pre <= i < pre + k.len() ==> l[i] == k[i - pre]) by {
        if i < pre {
            assert(l[i] == spaces(pre)[i]);
        } else if i < pre + k.len() {
            assert(l[i] == k[i - pre]);
        } else if i < pre + k.len() + pad {
            assert(l[i] == spaces(pad)[i - pre - k.len()]);
        } else {
            assert(l[i] == ' ');
        }
    }
    assert forall|i: int| e < i < l.len() implies l[i] == c[i - e - 1] by {}
    match v {
        Some(x) => {
            lemma_not_contains(x, '\n');
            assert(c.len() == x.len() + 1);
            assert(c[0] == ' ');
            assert forall|i: int| 1 <= i < c.len() implies c[i] == x[i - 1] by {}
            assert(l.last() == x.last());
        },
        None => {
            assert(l.last() == '=');
        },
    }
    assert(!is_whitespace(l.last()));
    assert forall|i: int| 0 <= i < l.len() implies l[i] != '\n' by {
        if i > e {
            assert(l[i] == c[i - e - 1]);
        }
    }
    assert(plain_line(l)) by {
        if l.contains('\n') {
            let i = choose|i: int| 0 <= i < l.len() && l[i] == '\n';
            assert(l[i] != '\n');
        }
    }
    // What trimming leaves.
    lemma_leading_ws_bounds(l);
    let a = leading_ws(l) as int;
    if a > e {
        assert(is_whitespace(l[e]));
    }
    let ts = trim_start(l);
    assert(ts.last() == l.last());
    lemma_trailing_ws_is(ts, 0);
    let t = trim(l);
    assert(t == l.skip(a));
    assert(t.len() > 0);
    assert(t[0] == l[a]);
    if k.len() > 0 {
        assert(l[pre as int] == k[0]);
        lemma_leading_ws_is(l, pre as int);
        assert(a == pre);
    } else {
        lemma_leading_ws_is(l, e);
        assert(a == e);
    }
    assert(t[0] != ';');
    // Not an include directive.
    lemma_keyword_chars();
    let kw = include_keyword();
    if starts_with(t, kw) {
        assert(t.take(8)[0] == kw[0]);
        assert(k.len() > 0);
        if k.len() >= 8 {
            assert(k.take(8) =~= t.take(8));
            assert(false);
        } else {
            let j = k.len() as int;
            assert(t.take(8)[j] == kw[j]);
            assert(t[j] == l[pre + j]);
            assert(false);
        }
    }
    // Not a section header.
    if t[0] == '[' {
        lemma_not_contains(k, ']');
        assert forall|i: int| 0 <= i < t.len() implies t[i] != ']' by {
            let q = i + a;
            assert(t[i] == l[q]);
            if q > e {
                assert(l[q] == c[q - e - 1]);
                match v {
                    Some(x) => {
                        lemma_not_contains(x, ']');
                        if q - e - 1 >= 1 {
                            assert(c[q - e - 1] == x[q - e - 2]);
                        }
                    },
                    None => {},
                }
            }
        }
        lemma_find_is(t, ']', t.len() as int);
    }
    // The key and the value.
    assert forall|i: int| 0 <= i < e - a implies t[i] != '=' by {
        assert(t[i] == l[i + a]);
    }
    assert(t[e - a] == '=');
    lemma_find_is(t, '=', e - a);
    let head = l.take(e);
    assert(t.take(e - a) == head.skip(a));
    lemma_trim_skip_ws(head, a);
    assert(head == spaces(pre) + k + (spaces(pad) + seq![' ']));
    assert(all_whitespace(spaces(pre)));
    assert(all_whitespace(spaces(pad) + seq![' ']));
    lemma_trim_padded(spaces(pre), k, spaces(pad) + seq![' ']);
    assert(t.skip(e - a + 1) == c);
    match v {
        Some(x) => {
            assert(all_whitespace(seq![' ']));
            assert(all_whitespace(Seq::<char>::empty()));
            assert(seq![' '] + x + Seq::<char>::empty() == c);
            lemma_trim_padded(seq![' '], x, Seq::<char>::empty());
            assert(strip_inline_comment(x) == x);
        },
        None => {
            lemma_trimmed_fixed(c);
            assert(strip_inline_comment(c) == c);
        },
    }
    assert(value_of(c) == v);
}

/// The header of a printable section name is read as that section.
pub proof fn lemma_classify_header(n: Seq<char>)
    requires
        printable_name(n),
    ensures
        classify(header_line(n)) == LineKind::Section(n),
        plain_line(header_line(n)),
{
    let l = header_line(n);
    lemma_not_contains(n, ']');
    lemma_not_contains(n, '\n');
    assert(l[0] == '[');
    assert(l.last() == ']');
    assert forall|i: int| 1 <= i <= n.len() implies l[i] == n[i - 1] by {}
    lemma_trimmed_fixed(l);
    lemma_keyword_chars();
    if starts_with(l, include_keyword()) {
        assert(l.take(8)[0] == include_keyword()[0]);
    }
    lemma_find_is(l, ']', n.len() as int + 1);
    assert(l.subrange(1, n.len() as int + 1) == n);
    lemma_trimmed_fixed(n);
    assert(plain_line(l)) by {
        if l.contains('\n') {
            let i = choose|i: int| 0 <= i < l.len() && l[i] == '\n';
            if 1 <= i <= n.len() {
                assert(l[i] == n[i - 1]);
            }
        }
    }
}

/// An empty line is skipped.
pub proof fn lemma_classify_blank()
    ensures
        classify(Seq::<char>::empty()) == LineKind::Skip,
        plain_line(Seq::<char>::empty()),
{
    lemma_trimmed_fixed(Seq::<char>::empty());
}

/// The number of spaces that fill `k` up to `width` characters.
pub open spec fn pad_of(k: Seq<char>, width: nat) -> nat {
    if k.len() < width {
        (width - k.len()) as nat
    } else {
        0
    }
}

/// The lines of the root pairs.
pub open spec fn root_lines(root: Seq<Pair>) -> Seq<Seq<char>> {
    root.map_values(|p: Pair| assign_line(0, p.0, 0, p.1))
}

/// The lines of the pairs of a section whose key column is `width` wide.
pub open spec fn body_lines(body: Seq<Pair>, width: nat) -> Seq<Seq<char>> {
    body.map_values(|p: Pair| assign_line(8, p.0, pad_of(p.0, width), p.1))
}

/// An empty line, or nothing.
pub open spec fn separator(blank: bool) -> Seq<Seq<char>> {
    if blank {
        seq![Seq::empty()]
    } else {
        Seq::empty()
    }
}

/// The lines of a section.
pub open spec fn section_lines(name: Seq<char>, body: Seq<Pair>) -> Seq<Seq<char>> {
    seq![header_line(name)] + body_lines(body, widest_key(body))
}

/// The lines of the sections, with the empty lines between them.
pub open spec fn sections_lines(secs: SectionList, lead: bool) -> Seq<Seq<char>>
    decreases secs.len(),
{
    if secs.len() == 0 {
        Seq::empty()
    } else {
        sections_lines(secs.drop_last(), lead) + separator(secs.len() > 1 || lead)
            + section_lines(secs.last().0, secs.last().1)
    }
}

/// The lines of a document as it is written.
pub open spec fn doc_lines(d: LtxView) -> Seq<Seq<char>> {
    root_lines(d.root) + separator(d.root.len() > 0) + sections_lines(
        d.sections,
        d.root.len() > 0,
    )
}

/// Whether a line can stand in a text and is no include directive.
pub open spec fn quiet_line(l: Seq<char>) -> bool {
    plain_line(l) && !is_directive(l)
}

/// Whether every line is quiet.
pub open spec fn quiet(ls: Seq<Seq<char>>) -> bool {
    forall|i: int| 0 <= i < ls.len() ==> quiet_line(#[trigger] ls[i])
}

proof fn lemma_quiet_concat(a: Seq<Seq<char>>, b: Seq<Seq<char>>)
    requires
        quiet(a),
        quiet(b),
    ensures
        quiet(a + b),
{
    assert forall|i: int| 0 <= i < (a + b).len() implies quiet_line(#[trigger] (a + b)[i]) by {
        if i < a.len() {
            assert((a + b)[i] == a[i]);
        } else {
            assert((a + b)[i] == b[i - a.len()]);
        }
    }
}

proof fn lemma_join_one(l: Seq<char>)
    ensures
        join_lines(seq![l]) == l + seq!['\n'],
{
    assert(seq![l].drop_last() == Seq::<Seq<char>>::empty());
    assert(join_lines(seq![l].drop_last()) == Seq::<char>::empty());
    assert(join_lines(seq![l]) =~= l + seq!['\n']);
}

proof fn lemma_separator(blank: bool)
    ensures
        join_lines(separator(blank)) == if blank {
            seq!['\n']
        } else {
            Seq::<char>::empty()
        },
        quiet(separator(blank)),
{
    lemma_classify_blank();
    if blank {
        lemma_join_one(Seq::<char>::empty());
        assert(Seq::<char>::empty() + seq!['\n'] == seq!['\n']);
    }
}

proof fn lemma_assign_text(pre: nat, k: Seq<char>, pad: nat, v: Option<Seq<char>>)
    ensures
        assign_line(pre, k, pad, v) + seq!['\n'] == spaces(pre) + k + spaces(pad)
            + render_assignment(v),
{
    match v {
        Some(x) => {
            assert(assign_line(pre, k, pad, v) + seq!['\n'] =~= spaces(pre) + k + spaces(pad) + (
            seq![' ', '=', ' '] + x + seq!['\n']));
        },
        None => {
            assert(assign_line(pre, k, pad, v) + seq!['\n'] =~= spaces(pre) + k + spaces(pad)
                + seq![' ', '=', '\n']);
        },
    }
}

/// The root pairs are written as their lines, all of them quiet.
proof fn lemma_render_root(root: Seq<Pair>)
    requires
        printable_body(root),
    ensures
        render_root(root) == join_lines(root_lines(root)),
        quiet(root_lines(root)),
    decreases root.len(),
{
    if root.len() > 0 {
        let head = root.drop_last();
        let p = root.last();
        assert forall|i: int| 0 <= i < head.len() implies printable_pair(#[trigger] head[i]) by {
            assert(head[i] == root[i]);
        }
        assert(distinct_keys(head)) by {
            assert forall|i: int, j: int| 0 <= i < j < head.len() implies (#[trigger] head[i]).0
                != (#[trigger] head[j]).0 by {
                assert(head[i] == root[i] && head[j] == root[j]);
            }
        }
        lemma_render_root(head);
        assert(root_lines(root).drop_last() == root_lines(head));
        assert(root_lines(root).last() == assign_line(0, p.0, 0, p.1));
        lemma_assign_text(0, p.0, 0, p.1);
        assert(spaces(0) + p.0 + spaces(0) + render_assignment(p.1) =~= render_root_pair(p));
        assert(printable_pair(root[root.len() - 1]));
        lemma_classify_assign(0, p.0, 0, p.1);
        assert(join_lines(root_lines(root)) =~= render_root(root));
        assert forall|i: int| 0 <= i < root_lines(root).len() implies quiet_line(
            #[trigger] root_lines(root)[i],
        ) by {
            if i < head.len() {
                assert(root_lines(root)[i] == root_lines(head)[i]);
            }
        }
    }
}

/// The pairs of a section are written as their lines, all of them quiet.
proof fn lemma_render_body(body: Seq<Pair>, width: nat)
    requires
        printable_body(body),
    ensures
        render_body(body, width) == join_lines(body_lines(body, width)),
        quiet(body_lines(body, width)),
    decreases body.len(),
{
    if body.len() > 0 {
        let head = body.drop_last();
        let p = body.last();
        assert forall|i: int| 0 <= i < head.len() implies printable_pair(#[trigger] head[i]) by {
            assert(head[i] == body[i]);
        }
        assert(distinct_keys(head)) by {
            assert forall|i: int, j: int| 0 <= i < j < head.len() implies (#[trigger] head[i]).0
                != (#[trigger] head[j]).0 by {
                assert(head[i] == body[i] && head[j] == body[j]);
            }
        }
        lemma_render_body(head, width);
        assert(body_lines(body, width).drop_last() == body_lines(head, width));
        assert(body_lines(body, width).last() == assign_line(8, p.0, pad_of(p.0, width), p.1));
        lemma_assign_text(8, p.0, pad_of(p.0, width), p.1);
        assert(padded(p.0, width) =~= p.0 + spaces(pad_of(p.0, width)));
        assert(spaces(8) + p.0 + spaces(pad_of(p.0, width)) + render_assignment(p.1)
            =~= render_pair(p, width));
        assert(printable_pair(body[body.len() - 1]));
        lemma_classify_assign(8, p.0, pad_of(p.0, width), p.1);
        assert(join_lines(body_lines(body, width)) =~= render_body(body, width));
        assert forall|i: int| 0 <= i < body_lines(body, width).len() implies quiet_line(
            #[trigger] body_lines(body, width)[i],
        ) by {
            if i < head.len() {
                assert(body_lines(body, width)[i] == body_lines(head, width)[i]);
            }
        }
    }
}

/// A section is written as its lines, all of them quiet.
proof fn lemma_render_section(name: Seq<char>, body: Seq<Pair>)
    requires
        printable_name(name),
        printable_body(body),
    ensures
        render_section(name, body) == join_lines(section_lines(name, body)),
        quiet(section_lines(name, body)),
{
    let w = widest_key(body);
    lemma_render_body(body, w);
    lemma_classify_header(name);
    lemma_join_one(header_line(name));
    lemma_join_concat(seq![header_line(name)], body_lines(body, w));
    assert(header_line(name) + seq!['\n'] =~= seq!['['] + name + seq![']', '\n']);
    assert(quiet(seq![header_line(name)]));
    lemma_quiet_concat(seq![header_line(name)], body_lines(body, w));
}

/// The sections are written as their lines, all of them quiet.
proof fn lemma_render_sections(secs: SectionList, lead: bool)
    requires
        printable_sections(secs),
    ensures
        render_sections(secs, lead) == join_lines(sections_lines(secs, lead)),
        quiet(sections_lines(secs, lead)),
    decreases secs.len(),
{
    if secs.len() > 0 {
        let head = secs.drop_last();
        lemma_sections_head(secs);
        lemma_render_sections(head, lead);
        let blank = secs.len() > 1 || lead;
        lemma_separator(blank);
        assert(printable_name(secs[secs.len() - 1].0) && printable_body(secs[secs.len() - 1].1));
        lemma_render_section(secs.last().0, secs.last().1);
        let a = sections_lines(head, lead);
        let b = separator(blank);
        let c = section_lines(secs.last().0, secs.last().1);
        lemma_join_concat(a, b);
        lemma_join_concat(a + b, c);
        lemma_quiet_concat(a, b);
        lemma_quiet_concat(a + b, c);
    }
}

/// All but the last of printable sections are printable, and none of them
/// has the name of the last.
proof fn lemma_sections_head(secs: SectionList)
    requires
        printable_sections(secs),
        secs.len() > 0,
    ensures
        printable_sections(secs.drop_last()),
        !has_key(secs.drop_last(), secs.last().0),
{
    let head = secs.drop_last();
    assert forall|i: int| 0 <= i < head.len() implies printable_name((#[trigger] head[i]).0)
        && printable_body(head[i].1) by {
        assert(head[i] == secs[i]);
    }
    assert forall|i: int, j: int| 0 <= i < j < head.len() implies (#[trigger] head[i]).0 != (
    #[trigger] head[j]).0 by {
        assert(head[i] == secs[i] && head[j] == secs[j]);
    }
    assert forall|i: int| 0 <= i < head.len() implies (#[trigger] head[i]).0 != secs.last().0 by {
        assert(head[i] == secs[i]);
        assert(secs[i].0 != secs[secs.len() - 1].0);
    }
    lemma_position_is(head, secs.last().0, head.len() as int);
}

/// All but the last of printable pairs are printable, and none of them has
/// the key of the last.
proof fn lemma_body_head(body: Seq<Pair>)
    requires
        printable_body(body),
        body.len() > 0,
    ensures
        printable_body(body.drop_last()),
        !has_key(body.drop_last(), body.last().0),
        printable_pair(body.last()),
{
    let head = body.drop_last();
    assert forall|i: int| 0 <= i < head.len() implies printable_pair(#[trigger] head[i]) by {
        assert(head[i] == body[i]);
    }
    assert forall|i: int, j: int| 0 <= i < j < head.len() implies (#[trigger] head[i]).0 != (
    #[trigger] head[j]).0 by {
        assert(head[i] == body[i] && head[j] == body[j]);
    }
    assert forall|i: int| 0 <= i < head.len() implies (#[trigger] head[i]).0 != body.last().0 by {
        assert(head[i] == body[i]);
        assert(body[i].0 != body[body.len() - 1].0);
    }
    lemma_position_is(head, body.last().0, head.len() as int);
    assert(printable_pair(body[body.len() - 1]));
}

/// A printable document is written as its lines, all of them quiet.
pub proof fn lemma_render_lines(d: LtxView)
    requires
        printable(d),
    ensures
        render(d) == join_lines(doc_lines(d)),
        lines(render(d)) == doc_lines(d),
        quiet(doc_lines(d)),
{
    let lead = d.root.len() > 0;
    lemma_render_root(d.root);
    lemma_separator(lead);
    lemma_render_sections(d.sections, lead);
    let a = root_lines(d.root);
    let b = separator(lead);
    let c = sections_lines(d.sections, lead);
    lemma_join_concat(a, b);
    lemma_join_concat(a + b, c);
    lemma_quiet_concat(a, b);
    lemma_quiet_concat(a + b, c);
    lemma_lines_of_join(doc_lines(d));
}

/// Lines are applied one after the other.
pub proof fn lemma_apply_concat(st: LoadState, a: Seq<Seq<char>>, b: Seq<Seq<char>>)
    ensures
        apply_lines(st, a + b) == apply_lines(apply_lines(st, a), b),
    decreases b.len(),
{
    if b.len() == 0 {
        assert(a + b == a);
    } else {
        lemma_apply_concat(st, a, b.drop_last());
        assert((a + b).drop_last() == a + b.drop_last());
        assert((a + b).last() == b.last());
    }
}

/// One line is applied by its meaning.
proof fn lemma_apply_one(st: LoadState, l: Seq<char>)
    ensures
        apply_lines(st, seq![l]) == apply_line(st, classify(l)),
{
    reveal_with_fuel(apply_lines, 2);
    assert(seq![l].drop_last() == Seq::<Seq<char>>::empty());
    assert(seq![l].last() == l);
}

/// A separator changes nothing.
proof fn lemma_apply_separator(st: LoadState, blank: bool)
    ensures
        apply_lines(st, separator(blank)) == st,
{
    lemma_classify_blank();
    if blank {
        lemma_apply_one(st, Seq::<char>::empty());
    }
}

/// The header of a new section adds it, empty, and makes it current.
proof fn lemma_apply_header(st: LoadState, name: Seq<char>)
    requires
        printable_name(name),
        !has_key(st.doc.sections, name),
    ensures
        apply_lines(st, seq![header_line(name)]) == (LoadState {
            doc: LtxView {
                root: st.doc.root,
                sections: st.doc.sections.push((name, Seq::<Pair>::empty())),
            },
            current: Some(name),
        }),
{
    lemma_classify_header(name);
    lemma_apply_one(st, header_line(name));
}

/// Reading the lines of printable root pairs into a document without root
/// pairs, before any section header, gives those root pairs.
proof fn lemma_apply_root(st: LoadState, root: Seq<Pair>)
    requires
        printable_body(root),
        st.current is None,
        st.doc.root == Seq::<Pair>::empty(),
    ensures
        apply_lines(st, root_lines(root)) == (LoadState {
            doc: LtxView { root: root, sections: st.doc.sections },
            current: None,
        }),
    decreases root.len(),
{
    if root.len() == 0 {
        assert(root =~= st.doc.root);
    } else {
        let head = root.drop_last();
        let p = root.last();
        lemma_body_head(root);
        lemma_apply_root(st, head);
        assert(root_lines(root).drop_last() == root_lines(head));
        assert(root_lines(root).last() == assign_line(0, p.0, 0, p.1));
        lemma_classify_assign(0, p.0, 0, p.1);
        assert(put(head, p.0, p.1) == root);
    }
}

/// Reading the lines of printable pairs behind the header of a new, last
/// section gives that section those pairs.
proof fn lemma_apply_body(
    st: LoadState,
    prefix: SectionList,
    name: Seq<char>,
    body: Seq<Pair>,
    width: nat,
)
    requires
        printable_body(body),
        st.current == Some(name),
        st.doc.sections == prefix.push((name, Seq::<Pair>::empty())),
        !has_key(prefix, name),
    ensures
        apply_lines(st, body_lines(body, width)) == (LoadState {
            doc: LtxView { root: st.doc.root, sections: prefix.push((name, body)) },
            current: Some(name),
        }),
    decreases body.len(),
{
    if body.len() == 0 {
        assert(body =~= Seq::<Pair>::empty());
    } else {
        let head = body.drop_last();
        let p = body.last();
        lemma_body_head(body);
        lemma_apply_body(st, prefix, name, head, width);
        assert(body_lines(body, width).drop_last() == body_lines(head, width));
        assert(body_lines(body, width).last() == assign_line(8, p.0, pad_of(p.0, width), p.1));
        lemma_classify_assign(8, p.0, pad_of(p.0, width), p.1);
        let t = prefix.push((name, head));
        lemma_position_bounds(prefix, name);
        assert forall|i: int| 0 <= i < prefix.len() implies (#[trigger] t[i]).0 != name by {
            assert(t[i] == prefix[i]);
        }
        lemma_position_is(t, name, prefix.len() as int);
        assert(put(head, p.0, p.1) == body);
        assert(section_put(t, name, p.0, p.1) == prefix.push((name, body)));
    }
}

/// Reading the lines of printable sections into a document without
/// sections gives those sections.
proof fn lemma_apply_sections(st: LoadState, secs: SectionList, lead: bool)
    requires
        printable_sections(secs),
        st.doc.sections == Seq::<(Seq<char>, Seq<Pair>)>::empty(),
    ensures
        apply_lines(st, sections_lines(secs, lead)).doc == (LtxView {
            root: st.doc.root,
            sections: secs,
        }),
    decreases secs.len(),
{
    if secs.len() == 0 {
        assert(secs =~= st.doc.sections);
    } else {
        let head = secs.drop_last();
        let name = secs.last().0;
        let body = secs.last().1;
        lemma_sections_head(secs);
        lemma_apply_sections(st, head, lead);
        let a = sections_lines(head, lead);
        let b = separator(secs.len() > 1 || lead);
        let c = seq![header_line(name)];
        let w = widest_key(body);
        let e = body_lines(body, w);
        assert(sections_lines(secs, lead) == ((a + b) + c) + e);
        lemma_apply_concat(st, (a + b) + c, e);
        lemma_apply_concat(st, a + b, c);
        lemma_apply_concat(st, a, b);
        let s1 = apply_lines(st, a);
        lemma_apply_separator(s1, secs.len() > 1 || lead);
        lemma_apply_header(s1, name);
        let s3 = apply_lines(s1, c);
        lemma_apply_body(s3, head, name, body, w);
        assert(head.push((name, body)) == secs);
    }
}

/// Reading what was written of a printable document gives the document,
/// and the text written holds no include directive.
pub proof fn lemma_reparse(d: LtxView)
    requires
        printable(d),
    ensures
        parsed(render(d)) == d,
        self_contained(render(d)),
{
    lemma_render_lines(d);
    let lead = d.root.len() > 0;
    let st = LoadState { doc: LtxView::empty(), current: None };
    let a = root_lines(d.root);
    let b = separator(lead);
    let c = sections_lines(d.sections, lead);
    lemma_apply_concat(st, a + b, c);
    lemma_apply_concat(st, a, b);
    lemma_apply_root(st, d.root);
    let s1 = apply_lines(st, a);
    lemma_apply_separator(s1, lead);
    let s2 = apply_lines(s1, b);
    lemma_apply_sections(s2, d.sections, lead);
    assert forall|i: int| 0 <= i < lines(render(d)).len() implies !is_directive(
        #[trigger] lines(render(d))[i],
    ) by {
        assert(quiet_line(doc_lines(d)[i]));
    }
}

/// Up to the first `;` outside quotes, a prefix holds none.
proof fn lemma_comment_start_prefix(s: Seq<char>, quoted: bool, m: int)
    requires
        0 <= m <= comment_start(s, quoted),
        m <= s.len(),
    ensures
        comment_start(s.take(m), quoted) == m,
    decreases s.len(),
{
    if m == 0 {
        assert(s.take(0).len() == 0);
    } else {
        let u = s.take(m);
        assert(u[0] == s[0]);
        assert(u.drop_first() == s.drop_first().take(m - 1));
        if s[0] == '"' {
            lemma_comment_start_prefix(s.drop_first(), !quoted, m - 1);
        } else {
            lemma_comment_start_prefix(s.drop_first(), quoted, m - 1);
        }
    }
}

proof fn lemma_comment_start_bound(s: Seq<char>, quoted: bool)
    ensures
        comment_start(s, quoted) <= s.len(),
    decreases s.len(),
{
    if s.len() > 0 {
        lemma_comment_start_bound(s.drop_first(), quoted);
        lemma_comment_start_bound(s.drop_first(), !quoted);
    }
}

/// The value read behind `=` is printable and holds no character that the
/// text there lacks.
proof fn lemma_value_printable(raw: Seq<char>)
    requires
        !raw.contains('\n'),
    ensures
        printable_value(value_of(raw)),
        forall|c: char|
            !raw.contains(c) ==> (value_of(raw) matches Some(x) ==> !x.contains(c)),
{
    let s = trim(raw);
    lemma_trim_is_trimmed(raw);
    let i = comment_start(s, false) as int;
    lemma_comment_start_bound(s, false);
    let x = strip_inline_comment(s);
    if i < s.len() {
        lemma_trim_is_trimmed(s.take(i));
        if x.len() > 0 {
            assert(i > 0);
            assert(s.take(i)[0] == s[0]);
            lemma_trim_prefix(s.take(i));
            assert(x == s.take(x.len() as int)) by {
                assert(s.take(i).take(x.len() as int) == s.take(x.len() as int));
            }
            lemma_comment_start_prefix(s, false, x.len() as int);
        }
    }
    assert forall|c: char| !raw.contains(c) implies (value_of(raw) matches Some(y)
        ==> !y.contains(c)) by {
        lemma_trim_lacks(raw, c);
        if i < s.len() {
            lemma_subrange_lacks(s, 0, i, c);
            lemma_trim_lacks(s.take(i), c);
        }
    }
    lemma_trim_lacks(raw, '\n');
    if i < s.len() {
        lemma_subrange_lacks(s, 0, i, '\n');
        lemma_trim_lacks(s.take(i), '\n');
    }
}

/// What a line without a line feed is read as, is printable.
pub proof fn lemma_classify_printable(l: Seq<char>)
    requires
        !l.contains('\n'),
    ensures
        match classify(l) {
            LineKind::Assign(k, v) => printable_pair((k, v)),
            LineKind::Section(n) => printable_name(n),
            _ => true,
        },
{
    let t = trim(l);
    lemma_trim_is_trimmed(l);
    lemma_trim_lacks(l, '\n');
    match classify(l) {
        LineKind::Section(n) => {
            lemma_find_bounds(t, ']');
            let e = find(t, ']') as int;
            let inner = t.subrange(1, e);
            lemma_trim_is_trimmed(inner);
            lemma_subrange_lacks(t, 1, e, '\n');
            lemma_trim_lacks(inner, '\n');
            assert(!inner.contains(']')) by {
                if inner.contains(']') {
                    let i = choose|i: int| 0 <= i < inner.len() && inner[i] == ']';
                    assert(t[i + 1] == ']');
                }
            }
            lemma_trim_lacks(inner, ']');
        },
        LineKind::Assign(k, v) => {
            lemma_find_bounds(t, '=');
            let e = find(t, '=') as int;
            let head = t.take(e);
            let raw = t.skip(e + 1);
            lemma_trim_is_trimmed(head);
            lemma_subrange_lacks(t, 0, e, '\n');
            lemma_trim_lacks(head, '\n');
            assert(!head.contains('=')) by {
                if head.contains('=') {
                    let i = choose|i: int| 0 <= i < head.len() && head[i] == '=';
                    assert(t[i] == '=');
                }
            }
            lemma_trim_lacks(head, '=');
            assert(raw == t.subrange(e + 1, t.len() as int));
            lemma_subrange_lacks(t, e + 1, t.len() as int, '\n');
            lemma_value_printable(raw);
            if k.len() > 0 {
                if e == 0 {
                    lemma_trimmed_fixed(head);
                }
                assert(head[0] == t[0]);
                lemma_trim_prefix(head);
                assert(k == t.take(k.len() as int)) by {
                    assert(head.take(k.len() as int) == t.take(k.len() as int));
                }
                assert(k[0] == t[0]);
                if starts_with(k, include_keyword()) {
                    assert(t.take(8) == k.take(8));
                    assert(false);
                }
                if k[0] == '[' {
                    lemma_find_bounds(t, ']');
                    assert(!t.contains(']')) by {
                        if t.contains(']') {
                            let i = choose|i: int| 0 <= i < t.len() && t[i] == ']';
                            assert(t[i] != ']');
                        }
                    }
                    lemma_subrange_lacks(t, 0, e, ']');
                    lemma_trim_lacks(head, ']');
                    lemma_subrange_lacks(t, e + 1, t.len() as int, ']');
                }
            } else {
                lemma_keyword_chars();
            }
        },
        _ => {},
    }
}

/// Storing a printable pair among printable pairs leaves them printable.
proof fn lemma_put_printable(b: Seq<Pair>, k: Seq<char>, v: Option<Seq<char>>)
    requires
        printable_body(b),
        printable_pair((k, v)),
    ensures
        printable_body(put(b, k, v)),
{
    lemma_put(b, k, v);
    lemma_position_bounds(b, k);
    let t = put(b, k, v);
    assert forall|i: int| 0 <= i < t.len() implies printable_pair(#[trigger] t[i]) by {
        if i < b.len() && !(has_key(b, k) && i == position(b, k)) {
            assert(t[i] == b[i]);
        }
    }
}

/// Whether the document built so far, and the name of the current
/// section, read back as themselves.
pub open spec fn printable_state(st: LoadState) -> bool {
    &&& printable(st.doc)
    &&& st.current matches Some(s) ==> printable_name(s)
}

/// Applying a line without a line feed keeps the state printable.
proof fn lemma_apply_line_printable(st: LoadState, l: Seq<char>)
    requires
        printable_state(st),
        !l.contains('\n'),
    ensures
        printable_state(apply_line(st, classify(l))),
{
    lemma_classify_printable(l);
    let t = st.doc.sections;
    match classify(l) {
        LineKind::Section(n) => {
            lemma_position_bounds(t, n);
            let u = section_ensure(t, n);
            if !has_key(t, n) {
                assert forall|i: int| 0 <= i < u.len() implies printable_name(
                    (#[trigger] u[i]).0,
                ) && printable_body(u[i].1) by {
                    if i < t.len() {
                        assert(u[i] == t[i]);
                    }
                }
                assert forall|i: int, j: int| 0 <= i < j < u.len() implies (#[trigger] u[i]).0
                    != (#[trigger] u[j]).0 by {
                    assert(u[i] == t[i]);
                    if j < t.len() {
                        assert(u[j] == t[j]);
                    }
                }
            }
        },
        LineKind::Assign(k, v) => {
            match st.current {
                Some(s) => {
                    lemma_position_bounds(t, s);
                    let u = section_put(t, s, k, v);
                    let p = position(t, s) as int;
                    if has_key(t, s) {
                        assert(printable_body(t[p].1));
                        lemma_put_printable(t[p].1, k, v);
                        assert forall|i: int| 0 <= i < u.len() implies printable_name(
                            (#[trigger] u[i]).0,
                        ) && printable_body(u[i].1) by {
                            if i != p {
                                assert(u[i] == t[i]);
                            } else {
                                assert(printable_name(t[p].0));
                            }
                        }
                        assert forall|i: int, j: int| 0 <= i < j < u.len() implies (
                        #[trigger] u[i]).0 != (#[trigger] u[j]).0 by {
                            assert(u[i].0 == t[i].0);
                            assert(u[j].0 == t[j].0);
                        }
                    } else {
                        lemma_put_printable(Seq::<Pair>::empty(), k, v);
                        assert(put(Seq::<Pair>::empty(), k, v) == seq![(k, v)]);
                        assert forall|i: int| 0 <= i < u.len() implies printable_name(
                            (#[trigger] u[i]).0,
                        ) && printable_body(u[i].1) by {
                            if i < t.len() {
                                assert(u[i] == t[i]);
                            }
                        }
                        assert forall|i: int, j: int| 0 <= i < j < u.len() implies (
                        #[trigger] u[i]).0 != (#[trigger] u[j]).0 by {
                            assert(u[i] == t[i]);
                            if j < t.len() {
                                assert(u[j] == t[j]);
                            }
                        }
                    }
                },
                None => {
                    lemma_put_printable(st.doc.root, k, v);
                },
            }
        },
        _ => {},
    }
}

/// Applying lines without line feeds keeps the state printable.
proof fn lemma_apply_lines_printable(st: LoadState, ls: Seq<Seq<char>>)
    requires
        printable_state(st),
        forall|i: int| 0 <= i < ls.len() ==> !(#[trigger] ls[i]).contains('\n'),
    ensures
        printable_state(apply_lines(st, ls)),
    decreases ls.len(),
{
    if ls.len() > 0 {
        let head = ls.drop_last();
        assert forall|i: int| 0 <= i < head.len() implies !(#[trigger] head[i]).contains(
            '\n',
        ) by {
            assert(head[i] == ls[i]);
        }
        lemma_apply_lines_printable(st, head);
        assert(!ls[ls.len() - 1].contains('\n'));
        lemma_apply_line_printable(apply_lines(st, head), ls.last());
    }
}

/// The document that a text describes is printable.
pub proof fn lemma_parsed_printable(text: Seq<char>)
    ensures
        printable(parsed(text)),
{
    lemma_lines_no_newline(text);
    lemma_apply_lines_printable(LoadState { doc: LtxView::empty(), current: None }, lines(text));
}

/// Writing a document that was read from a text, and reading what was
/// written, gives the same document: the same sections and keys in the same
/// order with the same values. The text written holds no include
/// directive, and writing the document read from it gives the same text
/// again.
pub proof fn lemma_round_trip(text: Seq<char>)
    requires
        self_contained(text),
    ensures
        parsed(text).well_formed(),
        self_contained(render(parsed(text))),
        parsed(render(parsed(text))) == parsed(text),
        render(parsed(render(parsed(text)))) == render(parsed(text)),
{
    lemma_parsed_printable(text);
    lemma_reparse(parsed(text));
}

/// Merging a document that holds nothing changes nothing; so does
/// merging the documents of an include directive that found no file.
pub proof fn lemma_merge_nothing(d: LtxView)
    ensures
        d.merge(LtxView::empty()) == d,
        merge_all(Seq::<LtxView>::empty()) == LtxView::empty(),
        d.merge(merge_all(Seq::<LtxView>::empty())) == d,
{
}

} // verus!
