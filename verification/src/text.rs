//! Character-sequence primitives shared by both configuration formats:
//! whitespace classification, trimming, searching and line splitting.
//!
//! Every function is specified over `Seq<char>`, the view of a string.

use vstd::prelude::*;

verus! {

/// Whether `c` is whitespace as Unicode defines it (`White_Space`).
pub open spec fn is_whitespace(c: char) -> bool {
    let n = c as u32;
    (0x09 <= n <= 0x0D) || n == 0x20 || n == 0x85 || n == 0xA0 || n == 0x1680 || (0x2000 <= n
        <= 0x200A) || n == 0x2028 || n == 0x2029 || n == 0x202F || n == 0x205F || n == 0x3000
}

/// Number of whitespace characters at the front of `s`.
pub open spec fn leading_ws(s: Seq<char>) -> nat
    decreases s.len(),
{
    if s.len() > 0 && is_whitespace(s[0]) {
        1 + leading_ws(s.drop_first())
    } else {
        0
    }
}

/// Number of whitespace characters at the back of `s`.
pub open spec fn trailing_ws(s: Seq<char>) -> nat
    decreases s.len(),
{
    if s.len() > 0 && is_whitespace(s.last()) {
        1 + trailing_ws(s.drop_last())
    } else {
        0
    }
}

/// `s` without its leading whitespace.
pub open spec fn trim_start(s: Seq<char>) -> Seq<char> {
    s.skip(leading_ws(s) as int)
}

/// `s` without its trailing whitespace.
pub open spec fn trim_end(s: Seq<char>) -> Seq<char> {
    s.take(s.len() - trailing_ws(s))
}

/// `s` without leading and trailing whitespace.
pub open spec fn trim(s: Seq<char>) -> Seq<char> {
    trim_end(trim_start(s))
}

/// Whether `s` neither begins nor ends with whitespace.
pub open spec fn is_trimmed(s: Seq<char>) -> bool {
    s.len() > 0 ==> !is_whitespace(s[0]) && !is_whitespace(s.last())
}

/// Index of the first occurrence of `c` in `s`, or `s.len()` if there is none.
pub open spec fn find(s: Seq<char>, c: char) -> nat
    decreases s.len(),
{
    if s.len() == 0 || s[0] == c {
        0
    } else {
        1 + find(s.drop_first(), c)
    }
}

/// Index of the first whitespace character in `s`, or `s.len()` if there is none.
pub open spec fn find_ws(s: Seq<char>) -> nat
    decreases s.len(),
{
    if s.len() == 0 || is_whitespace(s[0]) {
        0
    } else {
        1 + find_ws(s.drop_first())
    }
}

/// Whether `s` begins with `p`.
pub open spec fn starts_with(s: Seq<char>, p: Seq<char>) -> bool {
    p.len() <= s.len() && s.take(p.len() as int) == p
}

/// A line with one trailing carriage return removed, if it has one.
pub open spec fn strip_cr(l: Seq<char>) -> Seq<char> {
    if l.len() > 0 && l.last() == '\r' {
        l.drop_last()
    } else {
        l
    }
}

/// The lines of a text. A line ends at `\n` or `\r\n`; the terminator of the
/// last line is optional, and neither terminator belongs to the line. A
/// carriage return elsewhere stays in its line.
pub open spec fn lines(s: Seq<char>) -> Seq<Seq<char>>
    decreases s.len(),
{
    if s.len() == 0 {
        Seq::empty()
    } else {
        let j = find(s, '\n');
        if j >= s.len() {
            seq![s]
        } else {
            seq![strip_cr(s.take(j as int))] + lines(s.skip(j as int + 1))
        }
    }
}

/// The text in which each of `ls` stands on a line of its own, ended by `\n`.
pub open spec fn join_lines(ls: Seq<Seq<char>>) -> Seq<char>
    decreases ls.len(),
{
    if ls.len() == 0 {
        Seq::empty()
    } else {
        join_lines(ls.drop_last()) + ls.last() + seq!['\n']
    }
}

pub proof fn lemma_find_bounds(s: Seq<char>, c: char)
    ensures
        find(s, c) <= s.len(),
        find(s, c) < s.len() ==> s[find(s, c) as int] == c,
        forall|k: int| 0 <= k < find(s, c) ==> s[k] != c,
    decreases s.len(),
{
    if s.len() == 0 || s[0] == c {
    } else {
        let t = s.drop_first();
        lemma_find_bounds(t, c);
        assert forall|k: int| 0 <= k < find(s, c) implies s[k] != c by {
            if k > 0 {
                assert(s[k] == t[k - 1]);
            }
        }
    }
}

/// `find` is the least index holding `c`.
pub proof fn lemma_find_is(s: Seq<char>, c: char, r: int)
    requires
        0 <= r <= s.len(),
        forall|k: int| 0 <= k < r ==> s[k] != c,
        r < s.len() ==> s[r] == c,
    ensures
        find(s, c) == r,
    decreases s.len(),
{
    if s.len() == 0 {
    } else if r == 0 {
    } else {
        let t = s.drop_first();
        assert(s[0] != c);
        assert forall|k: int| 0 <= k < r - 1 implies t[k] != c by {
            assert(t[k] == s[k + 1]);
        }
        lemma_find_is(t, c, r - 1);
    }
}

pub proof fn lemma_find_ws_bounds(s: Seq<char>)
    ensures
        find_ws(s) <= s.len(),
        find_ws(s) < s.len() ==> is_whitespace(s[find_ws(s) as int]),
        forall|k: int| 0 <= k < find_ws(s) ==> !is_whitespace(s[k]),
    decreases s.len(),
{
    if s.len() == 0 || is_whitespace(s[0]) {
    } else {
        let t = s.drop_first();
        lemma_find_ws_bounds(t);
        assert forall|k: int| 0 <= k < find_ws(s) implies !is_whitespace(s[k]) by {
            if k > 0 {
                assert(s[k] == t[k - 1]);
            }
        }
    }
}

/// `find_ws` is the least index holding whitespace.
pub proof fn lemma_find_ws_is(s: Seq<char>, r: int)
    requires
        0 <= r <= s.len(),
        forall|k: int| 0 <= k < r ==> !is_whitespace(s[k]),
        r < s.len() ==> is_whitespace(s[r]),
    ensures
        find_ws(s) == r,
    decreases s.len(),
{
    if s.len() == 0 {
    } else if r == 0 {
    } else {
        let t = s.drop_first();
        assert(!is_whitespace(s[0]));
        assert forall|k: int| 0 <= k < r - 1 implies !is_whitespace(t[k]) by {
            assert(t[k] == s[k + 1]);
        }
        lemma_find_ws_is(t, r - 1);
    }
}

pub proof fn lemma_leading_ws_bounds(s: Seq<char>)
    ensures
        leading_ws(s) <= s.len(),
        leading_ws(s) < s.len() ==> !is_whitespace(s[leading_ws(s) as int]),
        forall|k: int| 0 <= k < leading_ws(s) ==> is_whitespace(s[k]),
    decreases s.len(),
{
    if s.len() > 0 && is_whitespace(s[0]) {
        let t = s.drop_first();
        lemma_leading_ws_bounds(t);
        assert forall|k: int| 0 <= k < leading_ws(s) implies is_whitespace(s[k]) by {
            if k > 0 {
                assert(s[k] == t[k - 1]);
            }
        }
    }
}

/// `leading_ws` is the length of the longest all-whitespace prefix.
pub proof fn lemma_leading_ws_is(s: Seq<char>, r: int)
    requires
        0 <= r <= s.len(),
        forall|k: int| 0 <= k < r ==> is_whitespace(s[k]),
        r < s.len() ==> !is_whitespace(s[r]),
    ensures
        leading_ws(s) == r,
    decreases s.len(),
{
    if s.len() == 0 {
    } else if r == 0 {
    } else {
        let t = s.drop_first();
        assert(is_whitespace(s[0]));
        assert forall|k: int| 0 <= k < r - 1 implies is_whitespace(t[k]) by {
            assert(t[k] == s[k + 1]);
        }
        lemma_leading_ws_is(t, r - 1);
    }
}

pub proof fn lemma_trailing_ws_bounds(s: Seq<char>)
    ensures
        trailing_ws(s) <= s.len(),
        trailing_ws(s) < s.len() ==> !is_whitespace(s[s.len() - trailing_ws(s) - 1]),
        forall|k: int| s.len() - trailing_ws(s) <= k < s.len() ==> is_whitespace(s[k]),
    decreases s.len(),
{
    if s.len() > 0 && is_whitespace(s.last()) {
        let t = s.drop_last();
        lemma_trailing_ws_bounds(t);
        assert forall|k: int| s.len() - trailing_ws(s) <= k < s.len() implies is_whitespace(
            s[k],
        ) by {
            if k < s.len() - 1 {
                assert(s[k] == t[k]);
            }
        }
        if trailing_ws(s) < s.len() {
            assert(t[t.len() - trailing_ws(t) - 1] == s[s.len() - trailing_ws(s) - 1]);
        }
    }
}

/// `trailing_ws` is the length of the longest all-whitespace suffix.
pub proof fn lemma_trailing_ws_is(s: Seq<char>, r: int)
    requires
        0 <= r <= s.len(),
        forall|k: int| s.len() - r <= k < s.len() ==> is_whitespace(s[k]),
        r < s.len() ==> !is_whitespace(s[s.len() - r - 1]),
    ensures
        trailing_ws(s) == r,
    decreases s.len(),
{
    if s.len() == 0 {
    } else if r == 0 {
    } else {
        let t = s.drop_last();
        assert(is_whitespace(s[s.len() - 1]));
        assert forall|k: int| t.len() - (r - 1) <= k < t.len() implies is_whitespace(t[k]) by {
            assert(t[k] == s[k]);
        }
        if r - 1 < t.len() {
            assert(t[t.len() - (r - 1) - 1] == s[s.len() - r - 1]);
        }
        lemma_trailing_ws_is(t, r - 1);
    }
}

/// What `trim` leaves is trimmed, and trimming it again changes nothing.
pub proof fn lemma_trim_is_trimmed(s: Seq<char>)
    ensures
        is_trimmed(trim(s)),
        trim(trim(s)) == trim(s),
        trim(s).len() <= s.len(),
{
    lemma_leading_ws_bounds(s);
    let a = trim_start(s);
    lemma_trailing_ws_bounds(a);
    let t = trim(s);
    if t.len() > 0 {
        assert(t[0] == s[leading_ws(s) as int]);
        assert(t.last() == a[a.len() - trailing_ws(a) - 1]);
    }
    lemma_trimmed_fixed(t);
}

/// A trimmed sequence is a fixed point of `trim`.
pub proof fn lemma_trimmed_fixed(s: Seq<char>)
    requires
        is_trimmed(s),
    ensures
        trim(s) == s,
        leading_ws(s) == 0,
        trailing_ws(s) == 0,
{
    assert(s.skip(0) == s);
    assert(s.take(s.len() as int) == s);
}

/// Whether `c` is whitespace as Unicode defines it (`White_Space`).
pub fn is_whitespace_char(c: char) -> (b: bool)
    ensures
        b == is_whitespace(c),
{
    let n: u32 = c as u32;
    (0x09 <= n && n <= 0x0D) || n == 0x20 || n == 0x85 || n == 0xA0 || n == 0x1680 || (0x2000 <= n
        && n <= 0x200A) || n == 0x2028 || n == 0x2029 || n == 0x202F || n == 0x205F || n
        == 0x3000
}

/// The characters of a string slice.
pub fn chars_of(s: &str) -> (v: Vec<char>)
    ensures
        v@ == s@,
{
    let mut v: Vec<char> = Vec::new();
    for c in it: s.chars()
        invariant
            it.seq() == s@,
            v@ == it.seq().take(it.index() as int),
    {
        v.push(c);
    }
    v
}

/// `String::push` appends one character.
pub assume_specification[ String::push ](s: &mut String, c: char)
    ensures
        final(s)@ == old(s)@.push(c),
;

/// Appends the characters `v[from..to]` to `out`.
pub(crate) fn push_chars(out: &mut String, v: &Vec<char>, from: usize, to: usize)
    requires
        from <= to <= v.len(),
    ensures
        final(out)@ == old(out)@ + v@.subrange(from as int, to as int),
{
    let mut i: usize = from;
    while i < to
        invariant
            from <= i <= to <= v.len(),
            out@ == old(out)@ + v@.subrange(from as int, i as int),
        decreases to - i,
    {
        out.push(v[i]);
        i += 1;
        assert(v@.subrange(from as int, i as int) == v@.subrange(from as int, i - 1).push(
            v@[i - 1],
        ));
    }
}

/// The string made of the characters `v[from..to]`.
pub(crate) fn string_of_range(v: &Vec<char>, from: usize, to: usize) -> (s: String)
    requires
        from <= to <= v.len(),
    ensures
        s@ == v@.subrange(from as int, to as int),
{
    let mut s = String::new();
    push_chars(&mut s, v, from, to);
    s
}

/// The string made of the characters of `v`.
pub fn string_of(v: &Vec<char>) -> (s: String)
    ensures
        s@ == v@,
{
    let s = string_of_range(v, 0, v.len());
    assert(v@.subrange(0, v.len() as int) == v@);
    s
}

/// A copy of `v[from..to]`.
pub(crate) fn sub_chars(v: &Vec<char>, from: usize, to: usize) -> (r: Vec<char>)
    requires
        from <= to <= v.len(),
    ensures
        r@ == v@.subrange(from as int, to as int),
{
    let mut r: Vec<char> = Vec::new();
    let mut i: usize = from;
    while i < to
        invariant
            from <= i <= to <= v.len(),
            r@ == v@.subrange(from as int, i as int),
        decreases to - i,
    {
        r.push(v[i]);
        i += 1;
    }
    r
}

/// Index of the first `c` in `v`, or `v.len()`.
pub fn find_char(v: &Vec<char>, c: char) -> (r: usize)
    ensures
        r == find(v@, c),
        r <= v.len(),
{
    let mut i: usize = 0;
    while i < v.len() && v[i] != c
        invariant
            i <= v.len(),
            forall|k: int| 0 <= k < i ==> v@[k] != c,
        decreases v.len() - i,
    {
        i += 1;
    }
    proof {
        lemma_find_is(v@, c, i as int);
    }
    i
}

/// Index of the first whitespace character in `v`, or `v.len()`.
pub fn find_whitespace(v: &Vec<char>) -> (r: usize)
    ensures
        r == find_ws(v@),
        r <= v.len(),
{
    let mut i: usize = 0;
    while i < v.len() && !is_whitespace_char(v[i])
        invariant
            i <= v.len(),
            forall|k: int| 0 <= k < i ==> !is_whitespace(v@[k]),
        decreases v.len() - i,
    {
        i += 1;
    }
    proof {
        lemma_find_ws_is(v@, i as int);
    }
    i
}

/// `v` without leading and trailing whitespace.
pub fn trim_chars(v: &Vec<char>) -> (r: Vec<char>)
    ensures
        r@ == trim(v@),
{
    let mut a: usize = 0;
    while a < v.len() && is_whitespace_char(v[a])
        invariant
            a <= v.len(),
            forall|k: int| 0 <= k < a ==> is_whitespace(v@[k]),
        decreases v.len() - a,
    {
        a += 1;
    }
    let mut b: usize = v.len();
    while b > a && is_whitespace_char(v[b - 1])
        invariant
            a <= b <= v.len(),
            forall|k: int| b <= k < v.len() ==> is_whitespace(v@[k]),
        decreases b,
    {
        b -= 1;
    }
    proof {
        lemma_leading_ws_is(v@, a as int);
        let t = trim_start(v@);
        assert(t.len() == v.len() - a);
        assert forall|k: int| t.len() - (v.len() - b) <= k < t.len() implies is_whitespace(
            t[k],
        ) by {
            assert(t[k] == v@[k + a]);
        }
        if b > a {
            assert(t[t.len() - (v.len() - b) - 1] == v@[b - 1]);
        }
        lemma_trailing_ws_is(t, v.len() - b);
        assert(trim(v@) == v@.subrange(a as int, b as int));
    }
    sub_chars(v, a, b)
}

/// Whether `v` begins with `p`.
pub fn has_prefix(v: &Vec<char>, p: &Vec<char>) -> (b: bool)
    ensures
        b == starts_with(v@, p@),
{
    if p.len() > v.len() {
        return false;
    }
    let mut i: usize = 0;
    while i < p.len()
        invariant
            i <= p.len() <= v.len(),
            forall|k: int| 0 <= k < i ==> v@[k] == p@[k],
        decreases p.len() - i,
    {
        if v[i] != p[i] {
            assert(v@.take(p.len() as int)[i as int] != p@[i as int]);
            return false;
        }
        i += 1;
    }
    assert(v@.take(p.len() as int) == p@);
    true
}

/// Whether two character vectors hold the same characters.
pub fn same_chars(a: &Vec<char>, b: &Vec<char>) -> (r: bool)
    ensures
        r == (a@ == b@),
{
    if a.len() != b.len() {
        return false;
    }
    let r = has_prefix(a, b);
    assert(a@.take(b.len() as int) == a@);
    r
}

/// The character sequences that a vector of lines holds.
pub open spec fn views(r: Seq<Vec<char>>) -> Seq<Seq<char>> {
    r.map_values(|l: Vec<char>| l@)
}

/// The lines of `v`, each as its own vector.
pub fn split_lines(v: &Vec<char>) -> (r: Vec<Vec<char>>)
    ensures
        views(r@) == lines(v@),
{
    let mut r: Vec<Vec<char>> = Vec::new();
    let mut i: usize = 0;
    assert(v@.skip(0) == v@);
    assert(views(r@) == Seq::<Seq<char>>::empty());
    while i < v.len()
        invariant
            i <= v.len(),
            lines(v@) == views(r@) + lines(v@.skip(i as int)),
        decreases v.len() - i,
    {
        let ghost rest = v@.skip(i as int);
        let ghost before = views(r@);
        let ghost old_r = r@;
        let mut j: usize = i;
        while j < v.len() && v[j] != '\n'
            invariant
                i <= j <= v.len(),
                rest == v@.skip(i as int),
                forall|k: int| 0 <= k < j - i ==> rest[k] != '\n',
            decreases v.len() - j,
        {
            j += 1;
        }
        proof {
            lemma_find_is(rest, '\n', j - i);
        }
        if j >= v.len() {
            let line = sub_chars(v, i, j);
            assert(line@ == rest);
            r.push(line);
            assert(r@ == old_r.push(line));
            assert(views(r@) == before.push(rest));
            i = j;
            assert(lines(v@.skip(i as int)) == Seq::<Seq<char>>::empty());
        } else {
            let end: usize = if j > i && v[j - 1] == '\r' {
                j - 1
            } else {
                j
            };
            let line = sub_chars(v, i, end);
            assert(rest.take(j - i) == v@.subrange(i as int, j as int));
            assert(line@ == strip_cr(rest.take(j - i)));
            r.push(line);
            assert(r@ == old_r.push(line));
            assert(views(r@) == before.push(strip_cr(rest.take(j - i))));
            i = j + 1;
            assert(v@.skip(i as int) == rest.skip(find(rest, '\n') as int + 1));
        }
    }
    assert(lines(v@.skip(i as int)) == Seq::<Seq<char>>::empty());
    r
}

/// Whether every character of `s` is whitespace.
pub open spec fn all_whitespace(s: Seq<char>) -> bool {
    forall|i: int| 0 <= i < s.len() ==> is_whitespace(#[trigger] s[i])
}

/// Whether `l` can stand as a line of a text: it holds no line feed and
/// does not end with a carriage return.
pub open spec fn plain_line(l: Seq<char>) -> bool {
    !l.contains('\n') && !(l.len() > 0 && l.last() == '\r')
}

/// Trimming removes whitespace around a trimmed sequence, and no more.
pub proof fn lemma_trim_padded(pre: Seq<char>, k: Seq<char>, post: Seq<char>)
    requires
        all_whitespace(pre),
        all_whitespace(post),
        is_trimmed(k),
    ensures
        trim(pre + k + post) == k,
{
    let s = pre + k + post;
    if k.len() == 0 {
        assert forall|i: int| 0 <= i < s.len() implies is_whitespace(s[i]) by {
            if i < pre.len() {
                assert(s[i] == pre[i]);
            } else {
                assert(s[i] == post[i - pre.len()]);
            }
        }
        lemma_leading_ws_is(s, s.len() as int);
        assert(trim_start(s) == Seq::<char>::empty());
        assert(trim(s) == Seq::<char>::empty());
    } else {
        let a = pre.len() as int;
        assert forall|i: int| 0 <= i < a implies is_whitespace(s[i]) by {
            assert(s[i] == pre[i]);
        }
        assert(s[a] == k[0]);
        lemma_leading_ws_is(s, a);
        let t = trim_start(s);
        assert(t == k + post);
        assert forall|i: int| t.len() - post.len() <= i < t.len() implies is_whitespace(t[i]) by {
            assert(t[i] == post[i - k.len()]);
        }
        assert(t[t.len() - post.len() - 1] == k.last());
        lemma_trailing_ws_is(t, post.len() as int);
        assert(trim(s) == k);
    }
}

/// Whitespace cut off the front does not change what trimming leaves.
pub proof fn lemma_trim_skip_ws(s: Seq<char>, j: int)
    requires
        0 <= j <= s.len(),
        forall|i: int| 0 <= i < j ==> is_whitespace(s[i]),
    ensures
        trim(s.skip(j)) == trim(s),
{
    lemma_leading_ws_bounds(s);
    let a = leading_ws(s) as int;
    if a < j {
        assert(is_whitespace(s[a]));
    }
    let u = s.skip(j);
    assert forall|i: int| 0 <= i < a - j implies is_whitespace(u[i]) by {
        assert(u[i] == s[i + j]);
    }
    if a - j < u.len() {
        assert(u[a - j] == s[a]);
    }
    lemma_leading_ws_is(u, a - j);
    assert(trim_start(u) == trim_start(s));
}

/// The first line of a joined text and the rest.
pub proof fn lemma_join_first(ls: Seq<Seq<char>>)
    requires
        ls.len() > 0,
    ensures
        join_lines(ls) == ls[0] + seq!['\n'] + join_lines(ls.drop_first()),
    decreases ls.len(),
{
    if ls.len() == 1 {
        assert(ls.drop_last() == Seq::<Seq<char>>::empty());
        assert(ls.drop_first() == Seq::<Seq<char>>::empty());
        assert(join_lines(ls.drop_last()) == Seq::<char>::empty());
        assert(join_lines(ls) =~= ls[0] + seq!['\n']);
    } else {
        let head = ls.drop_last();
        lemma_join_first(head);
        assert(head.drop_first() == ls.drop_first().drop_last());
        assert(ls.drop_first().last() == ls.last());
        assert(head[0] == ls[0]);
        assert(join_lines(ls) =~= ls[0] + seq!['\n'] + join_lines(ls.drop_first()));
    }
}

/// Joining is concatenation.
pub proof fn lemma_join_concat(a: Seq<Seq<char>>, b: Seq<Seq<char>>)
    ensures
        join_lines(a + b) == join_lines(a) + join_lines(b),
    decreases b.len(),
{
    if b.len() == 0 {
        assert(a + b == a);
        assert(join_lines(a) + join_lines(b) =~= join_lines(a));
    } else {
        lemma_join_concat(a, b.drop_last());
        assert((a + b).drop_last() == a + b.drop_last());
        assert((a + b).last() == b.last());
        assert(join_lines(a + b) =~= join_lines(a) + join_lines(b));
    }
}

/// The lines of a text joined from plain lines are those lines.
pub proof fn lemma_lines_of_join(ls: Seq<Seq<char>>)
    requires
        forall|i: int| 0 <= i < ls.len() ==> plain_line(#[trigger] ls[i]),
    ensures
        lines(join_lines(ls)) == ls,
    decreases ls.len(),
{
    if ls.len() == 0 {
    } else {
        let s = join_lines(ls);
        let l = ls[0];
        let rest = ls.drop_first();
        lemma_join_first(ls);
        assert(plain_line(l));
        assert forall|k: int| 0 <= k < l.len() implies s[k] != '\n' by {
            assert(s[k] == l[k]);
            assert(l.contains(l[k]));
        }
        assert(s[l.len() as int] == '\n');
        lemma_find_is(s, '\n', l.len() as int);
        assert(s.take(l.len() as int) == l);
        assert(s.skip(l.len() as int + 1) == join_lines(rest));
        assert forall|i: int| 0 <= i < rest.len() implies plain_line(#[trigger] rest[i]) by {
            assert(rest[i] == ls[i + 1]);
        }
        lemma_lines_of_join(rest);
        assert(seq![l] + rest == ls);
    }
}

/// No line of a text holds a line feed.
pub proof fn lemma_lines_no_newline(s: Seq<char>)
    ensures
        forall|i: int| 0 <= i < lines(s).len() ==> !(#[trigger] lines(s)[i]).contains('\n'),
    decreases s.len(),
{
    if s.len() == 0 {
    } else {
        lemma_find_bounds(s, '\n');
        let j = find(s, '\n') as int;
        if j >= s.len() {
            assert forall|k: int| 0 <= k < s.len() implies s[k] != '\n' by {}
        } else {
            let first = strip_cr(s.take(j));
            let rest = lines(s.skip(j + 1));
            lemma_lines_no_newline(s.skip(j + 1));
            assert forall|i: int| 0 <= i < lines(s).len() implies !(#[trigger] lines(
                s,
            )[i]).contains('\n') by {
                if i == 0 {
                    assert forall|k: int| 0 <= k < first.len() implies first[k] != '\n' by {
                        assert(first[k] == s[k]);
                    }
                } else {
                    assert(lines(s)[i] == rest[i - 1]);
                }
            }
        }
    }
}

/// A character that `s` lacks is also lacking between any two of its indices.
pub proof fn lemma_subrange_lacks(s: Seq<char>, a: int, b: int, c: char)
    requires
        0 <= a <= b <= s.len(),
        !s.contains(c),
    ensures
        !s.subrange(a, b).contains(c),
{
    let u = s.subrange(a, b);
    if u.contains(c) {
        let i = choose|i: int| 0 <= i < u.len() && u[i] == c;
        assert(s[a + i] == c);
        assert(s.contains(c));
    }
}

/// What trimming leaves is a part of the sequence.
pub proof fn lemma_trim_is_subrange(s: Seq<char>)
    ensures
        leading_ws(s) + trim(s).len() <= s.len(),
        trim(s) == s.subrange(leading_ws(s) as int, leading_ws(s) as int + trim(s).len()),
{
    lemma_leading_ws_bounds(s);
    lemma_trailing_ws_bounds(trim_start(s));
}

/// A character that `s` lacks is also lacking in what trimming leaves.
pub proof fn lemma_trim_lacks(s: Seq<char>, c: char)
    requires
        !s.contains(c),
    ensures
        !trim(s).contains(c),
{
    lemma_trim_is_subrange(s);
    lemma_subrange_lacks(s, leading_ws(s) as int, leading_ws(s) as int + trim(s).len(), c);
}

/// Trimming a sequence that begins with a character other than whitespace
/// leaves a prefix of it.
pub proof fn lemma_trim_prefix(s: Seq<char>)
    requires
        s.len() > 0,
        !is_whitespace(s[0]),
    ensures
        trim(s).len() > 0,
        trim(s) == s.take(trim(s).len() as int),
{
    lemma_leading_ws_is(s, 0);
    assert(s.skip(0) == s);
    lemma_trailing_ws_bounds(s);
    if trailing_ws(s) >= s.len() {
        assert(is_whitespace(s[0]));
    }
}

} // verus!
