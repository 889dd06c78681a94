//! The flat `user.ltx` file: one console command per line, with comments
//! and blank lines kept so that the file can be written back as it was.

use crate::text::{
    chars_of, find, find_whitespace, find_ws, is_trimmed, is_whitespace, join_lines,
    lemma_find_bounds, lemma_find_is, lemma_find_ws_bounds, lemma_join_first,
    lemma_lines_no_newline, lemma_subrange_lacks, lemma_trim_is_trimmed, lemma_trim_lacks,
    lemma_trimmed_fixed, lines, split_lines, string_of, string_of_range, sub_chars, trim,
    trim_chars, views,
};
use vstd::hash_map::StringHashMap;
use vstd::prelude::*;
use vstd::string::StringExecFns;

verus! {

/// What one line of the file holds.
pub enum EntryView {
    /// A command with its value; a flag has the empty value.
    Command { name: Seq<char>, value: Seq<char> },
    /// A comment: the whole line as it stood, untrimmed.
    Comment(Seq<char>),
    /// A blank line, or the place of a removed command.
    Empty,
}

/// What a `user.ltx` document holds.
pub struct UserLtxView {
    /// One record per physical line.
    pub entries: Seq<EntryView>,
    /// For each active command name, the position of its record.
    pub index: Map<Seq<char>, int>,
}

/// Whether the trimmed, non-empty line `t` is a comment.
pub open spec fn is_comment(t: Seq<char>) -> bool {
    t[0] == ';' || (t.len() >= 2 && t[0] == '/' && t[1] == '/')
}

/// The record of one physical line.
pub open spec fn classify_entry(line: Seq<char>) -> EntryView {
    let t = trim(line);
    if t.len() == 0 {
        EntryView::Empty
    } else if is_comment(t) {
        EntryView::Comment(line)
    } else {
        let p = find_ws(t) as int;
        if p < t.len() {
            EntryView::Command { name: t.take(p), value: trim(t.skip(p)) }
        } else {
            EntryView::Command { name: t, value: Seq::empty() }
        }
    }
}

/// The text of one record, with its newline.
pub open spec fn render_entry(e: EntryView) -> Seq<char> {
    match e {
        EntryView::Command { name, value } => if value.len() == 0 {
            name + seq!['\n']
        } else {
            name + seq![' '] + value + seq!['\n']
        },
        EntryView::Comment(text) => text + seq!['\n'],
        EntryView::Empty => seq!['\n'],
    }
}

/// The text of all records, in order.
pub open spec fn render_entries(es: Seq<EntryView>) -> Seq<char>
    decreases es.len(),
{
    if es.len() == 0 {
        Seq::empty()
    } else {
        render_entries(es.drop_last()) + render_entry(es.last())
    }
}

/// The commands among the records as a mapping from name to value. Of
/// several records with one name the last decides.
pub open spec fn command_map(es: Seq<EntryView>) -> Map<Seq<char>, Seq<char>>
    decreases es.len(),
{
    if es.len() == 0 {
        Map::empty()
    } else {
        match es.last() {
            EntryView::Command { name, value } => command_map(es.drop_last()).insert(
                name,
                value,
            ),
            _ => command_map(es.drop_last()),
        }
    }
}

impl UserLtxView {
    /// The document without any line.
    pub open spec fn empty() -> UserLtxView {
        UserLtxView { entries: Seq::empty(), index: Map::empty() }
    }

    /// Every indexed name points at a command record with that name.
    pub open spec fn well_formed(self) -> bool {
        forall|n: Seq<char>| #[trigger]
            self.index.contains_key(n) ==> {
                &&& 0 <= self.index[n] < self.entries.len()
                &&& self.entries[self.index[n]] is Command
                &&& self.entries[self.index[n]]->name == n
            }
    }

    /// Whether `name` is an active command.
    pub open spec fn has(self, name: Seq<char>) -> bool {
        self.index.contains_key(name)
    }

    /// The value of the active command `name`.
    pub open spec fn value(self, name: Seq<char>) -> Option<Seq<char>> {
        if self.has(name) {
            match self.entries[self.index[name]] {
                EntryView::Command { name: _, value } => Some(value),
                _ => None,
            }
        } else {
            None
        }
    }

    /// The document with one more line at its end. A command becomes the
    /// active one of its name.
    pub open spec fn append(self, e: EntryView) -> UserLtxView {
        UserLtxView {
            entries: self.entries.push(e),
            index: match e {
                EntryView::Command { name, value } => self.index.insert(
                    name,
                    self.entries.len() as int,
                ),
                _ => self.index,
            },
        }
    }

    /// The document after all of `ls` were appended, in order.
    pub open spec fn append_lines(self, ls: Seq<Seq<char>>) -> UserLtxView
        decreases ls.len(),
    {
        if ls.len() == 0 {
            self
        } else {
            self.append_lines(ls.drop_last()).append(classify_entry(ls.last()))
        }
    }

    /// The document after setting `name` to `value`: the active record is
    /// rewritten where it stands, a new command is appended.
    pub open spec fn set(self, name: Seq<char>, value: Seq<char>) -> UserLtxView {
        if self.has(name) {
            UserLtxView {
                entries: self.entries.update(
                    self.index[name],
                    EntryView::Command { name, value },
                ),
                index: self.index,
            }
        } else {
            self.append(EntryView::Command { name, value })
        }
    }

    /// The document after removing `name`: its record becomes a blank line
    /// and the name is no longer active.
    pub open spec fn remove(self, name: Seq<char>) -> UserLtxView {
        if self.has(name) {
            UserLtxView {
                entries: self.entries.update(self.index[name], EntryView::Empty),
                index: self.index.remove(name),
            }
        } else {
            self
        }
    }
}

/// The document that a text describes.
pub open spec fn parse_text(text: Seq<char>) -> UserLtxView {
    UserLtxView::empty().append_lines(lines(text))
}

/// One line of the file.
#[derive(Debug, Clone)]
pub enum UserLtxEntry {
    /// A command with its value; a flag has the empty value.
    Command { name: String, value: String },
    /// A comment: the whole line as it stood.
    Comment(String),
    /// A blank line, or the place of a removed command.
    Empty,
}

impl View for UserLtxEntry {
    type V = EntryView;

    open spec fn view(&self) -> EntryView {
        match self {
            UserLtxEntry::Command { name, value } => EntryView::Command {
                name: name@,
                value: value@,
            },
            UserLtxEntry::Comment(text) => EntryView::Comment(text@),
            UserLtxEntry::Empty => EntryView::Empty,
        }
    }
}

/// The views of a list of records.
pub open spec fn entry_views(es: Seq<UserLtxEntry>) -> Seq<EntryView> {
    es.map_values(|e: UserLtxEntry| e@)
}

/// The views of the values of a map.
pub open spec fn value_views(m: Map<Seq<char>, String>) -> Map<Seq<char>, Seq<char>> {
    m.map_values(|s: String| s@)
}

/// The record of the physical line `line`.
pub fn classify_entry_line(line: &Vec<char>) -> (e: UserLtxEntry)
    ensures
        e@ == classify_entry(line@),
{
    let t = trim_chars(line);
    let n: usize = t.len();
    if n == 0 {
        return UserLtxEntry::Empty;
    }
    if t[0] == ';' || (n >= 2 && t[0] == '/' && t[1] == '/') {
        return UserLtxEntry::Comment(string_of(line));
    }
    let p = find_whitespace(&t);
    if p < n {
        let name = string_of_range(&t, 0, p);
        assert(t@.subrange(0, p as int) == t@.take(p as int));
        let rest = trim_chars(&sub_chars(&t, p, n));
        assert(t@.subrange(p as int, n as int) == t@.skip(p as int));
        UserLtxEntry::Command { name, value: string_of(&rest) }
    } else {
        UserLtxEntry::Command { name: string_of(&t), value: String::new() }
    }
}

/// A parsed `user.ltx` file.
pub struct UserLtx {
    entries: Vec<UserLtxEntry>,
    index: StringHashMap<usize>,
}

impl View for UserLtx {
    type V = UserLtxView;

    closed spec fn view(&self) -> UserLtxView {
        UserLtxView {
            entries: entry_views(self.entries@),
            index: self.index@.map_values(|i: usize| i as int),
        }
    }
}

impl UserLtx {
    #[verifier::type_invariant]
    spec fn inv(self) -> bool {
        self@.well_formed()
    }

    /// A document without any line.
    pub fn new() -> (r: Self)
        ensures
            r@ == UserLtxView::empty(),
            r@.well_formed(),
    {
        let entries: Vec<UserLtxEntry> = Vec::new();
        let index: StringHashMap<usize> = StringHashMap::new();
        assert(entry_views(entries@) == Seq::<EntryView>::empty());
        assert(index@.map_values(|i: usize| i as int) == Map::<Seq<char>, int>::empty());
        UserLtx { entries, index }
    }

    /// Takes the document apart, leaving an empty one in its place.
    fn take(&mut self) -> (r: (Vec<UserLtxEntry>, StringHashMap<usize>))
        ensures
            final(self)@ == UserLtxView::empty(),
            (UserLtxView {
                entries: entry_views(r.0@),
                index: r.1@.map_values(|i: usize| i as int),
            }) == old(self)@,
            old(self)@.well_formed(),
    {
        proof {
            use_type_invariant(&*self);
        }
        let mut taken = UserLtx::new();
        std::mem::swap(self, &mut taken);
        let UserLtx { entries, index } = taken;
        (entries, index)
    }

    /// Appends one record; a command becomes the active one of its name.
    fn push_entry(&mut self, e: UserLtxEntry)
        ensures
            final(self)@ == old(self)@.append(e@),
    {
        let (mut entries, mut index) = self.take();
        let idx: usize = entries.len();
        match &e {
            UserLtxEntry::Command { name, value } => {
                index.insert(name.clone(), idx);
            },
            _ => {},
        }
        let ghost before = entries@;
        entries.push(e);
        proof {
            assert(entry_views(entries@) == entry_views(before).push(e@));
            let v = UserLtxView {
                entries: entry_views(entries@),
                index: index@.map_values(|i: usize| i as int),
            };
            assert(v.index == old(self)@.append(e@).index);
            assert forall|n: Seq<char>| #[trigger] v.index.contains_key(n) implies {
                &&& 0 <= v.index[n] < v.entries.len()
                &&& v.entries[v.index[n]] is Command
                &&& v.entries[v.index[n]]->name == n
            } by {
                if old(self)@.index.contains_key(n) && v.index[n] == old(self)@.index[n] {
                    assert(v.entries[v.index[n]] == old(self)@.entries[v.index[n]]);
                }
            }
        }
        *self = UserLtx { entries, index };
    }

    /// The document that `content` describes. Never fails: a line that is
    /// neither blank nor a comment is a command.
    pub fn parse(content: &str) -> (r: Self)
        ensures
            r@ == parse_text(content@),
            r@.well_formed(),
    {
        let chars = chars_of(content);
        let ls = split_lines(&chars);
        let mut r = UserLtx::new();
        let mut i: usize = 0;
        let ghost all = views(ls@);
        assert(all.take(0) == Seq::<Seq<char>>::empty());
        while i < ls.len()
            invariant
                i <= ls.len(),
                all == views(ls@),
                r@ == UserLtxView::empty().append_lines(all.take(i as int)),
            decreases ls.len() - i,
        {
            proof {
                assert(all.take(i as int + 1).drop_last() == all.take(i as int));
                assert(all.take(i as int + 1).last() == ls@[i as int]@);
            }
            r.push_entry(classify_entry_line(&ls[i]));
            i += 1;
        }
        assert(all.take(ls.len() as int) == all);
        proof {
            use_type_invariant(&r);
        }
        r
    }

    /// The value of the active command `command`.
    pub fn get(&self, command: &str) -> (r: Option<&str>)
        ensures
            r is Some == self@.value(command@) is Some,
            r matches Some(v) ==> self@.value(command@) == Some(v@),
    {
        proof {
            use_type_invariant(self);
        }
        match self.index.get(command) {
            Some(idx) => {
                assert(self@.index.contains_key(command@));
                assert(self@.index[command@] == *idx);
                match &self.entries[*idx] {
                    UserLtxEntry::Command { name, value } => Some(value.as_str()),
                    _ => None,
                }
            },
            None => None,
        }
    }

    /// Every command with its value. Of several records with one name the
    /// last decides, active or not.
    pub fn get_all(&self) -> (r: StringHashMap<String>)
        ensures
            value_views(r@) == command_map(self@.entries),
    {
        let mut r: StringHashMap<String> = StringHashMap::new();
        let ghost es = self@.entries;
        let mut i: usize = 0;
        assert(es.take(0) == Seq::<EntryView>::empty());
        assert(value_views(r@) == Map::<Seq<char>, Seq<char>>::empty());
        while i < self.entries.len()
            invariant
                i <= self.entries.len(),
                es == entry_views(self.entries@),
                value_views(r@) == command_map(es.take(i as int)),
            decreases self.entries.len() - i,
        {
            proof {
                assert(es.take(i as int + 1).drop_last() == es.take(i as int));
                assert(es.take(i as int + 1).last() == self.entries@[i as int]@);
            }
            let ghost before = r@;
            match &self.entries[i] {
                UserLtxEntry::Command { name, value } => {
                    let v = value.clone();
                    r.insert(name.clone(), v);
                    assert(value_views(r@) == value_views(before).insert(name@, value@));
                },
                _ => {},
            }
            i += 1;
        }
        assert(es.take(self.entries.len() as int) == es);
        r
    }

    /// Sets `command` to `value`: the active record is rewritten where it
    /// stands, a new command is appended.
    pub fn set(&mut self, command: &str, value: &str)
        ensures
            final(self)@ == old(self)@.set(command@, value@),
            final(self)@.well_formed(),
    {
        let e = UserLtxEntry::Command { name: command.to_owned(), value: value.to_owned() };
        let found = match self.index.get(command) {
            Some(idx) => Some(*idx),
            None => None,
        };
        match found {
            Some(idx) => {
                let (mut entries, index) = self.take();
                assert(old(self)@.index.contains_key(command@));
                assert(old(self)@.index[command@] == idx);
                let ghost before = entries@;
                entries.set(idx, e);
                proof {
                    assert(entry_views(entries@) == entry_views(before).update(idx as int, e@));
                    let v = UserLtxView {
                        entries: entry_views(entries@),
                        index: index@.map_values(|i: usize| i as int),
                    };
                    assert forall|n: Seq<char>| #[trigger] v.index.contains_key(n) implies {
                        &&& 0 <= v.index[n] < v.entries.len()
                        &&& v.entries[v.index[n]] is Command
                        &&& v.entries[v.index[n]]->name == n
                    } by {
                        assert(old(self)@.index.contains_key(n));
                        if v.index[n] != idx {
                            assert(v.entries[v.index[n]] == old(self)@.entries[v.index[n]]);
                        }
                    }
                }
                *self = UserLtx { entries, index };
            },
            None => {
                self.push_entry(e);
            },
        }
        proof {
            use_type_invariant(&*self);
        }
    }

    /// Whether `command` is an active command.
    pub fn has(&self, command: &str) -> (r: bool)
        ensures
            r == self@.has(command@),
    {
        self.index.contains_key(command)
    }

    /// Removes `command` and says whether it was active. Its record
    /// becomes a blank line, so that no other line moves.
    pub fn remove(&mut self, command: &str) -> (r: bool)
        ensures
            r == old(self)@.has(command@),
            final(self)@ == old(self)@.remove(command@),
            old(self)@.well_formed(),
            final(self)@.well_formed(),
    {
        proof {
            use_type_invariant(&*self);
        }
        let found = match self.index.get(command) {
            Some(idx) => Some(*idx),
            None => None,
        };
        match found {
            Some(idx) => {
                let (mut entries, mut index) = self.take();
                assert(old(self)@.index.contains_key(command@));
                assert(old(self)@.index[command@] == idx);
                let ghost before = entries@;
                let ghost index_before = index@;
                entries.set(idx, UserLtxEntry::Empty);
                index.remove(command);
                proof {
                    assert(entry_views(entries@) == entry_views(before).update(
                        idx as int,
                        EntryView::Empty,
                    ));
                    let v = UserLtxView {
                        entries: entry_views(entries@),
                        index: index@.map_values(|i: usize| i as int),
                    };
                    assert(v.index == old(self)@.index.remove(command@));
                    assert forall|n: Seq<char>| #[trigger] v.index.contains_key(n) implies {
                        &&& 0 <= v.index[n] < v.entries.len()
                        &&& v.entries[v.index[n]] is Command
                        &&& v.entries[v.index[n]]->name == n
                    } by {
                        assert(old(self)@.index.contains_key(n));
                        assert(n != command@);
                        if v.index[n] != idx {
                            assert(v.entries[v.index[n]] == old(self)@.entries[v.index[n]]);
                        }
                    }
                }
                *self = UserLtx { entries, index };
                true
            },
            None => false,
        }
    }

    /// The number of lines.
    pub fn line_count(&self) -> (n: usize)
        ensures
            n == self@.entries.len(),
    {
        self.entries.len()
    }

    /// The record of line `i`, if there is such a line.
    pub fn entry(&self, i: usize) -> (r: Option<&UserLtxEntry>)
        ensures
            r is Some == (i < self@.entries.len()),
            r matches Some(e) ==> e@ == self@.entries[i as int],
    {
        if i < self.entries.len() {
            Some(&self.entries[i])
        } else {
            None
        }
    }

    /// The document as text: one line per record, each ended by a newline.
    pub fn to_string_formatted(&self) -> (r: String)
        ensures
            r@ == render_entries(self@.entries),
    {
        let mut out = String::new();
        let ghost es = self@.entries;
        let mut i: usize = 0;
        assert(es.take(0) == Seq::<EntryView>::empty());
        while i < self.entries.len()
            invariant
                i <= self.entries.len(),
                es == entry_views(self.entries@),
                out@ == render_entries(es.take(i as int)),
            decreases self.entries.len() - i,
        {
            proof {
                assert(es.take(i as int + 1).drop_last() == es.take(i as int));
                assert(es.take(i as int + 1).last() == self.entries@[i as int]@);
            }
            let ghost before = out@;
            match &self.entries[i] {
                UserLtxEntry::Command { name, value } => {
                    out.append(name.as_str());
                    if !value.as_str().is_empty() {
                        out.push(' ');
                        out.append(value.as_str());
                    }
                    out.push('\n');
                },
                UserLtxEntry::Comment(text) => {
                    out.append(text.as_str());
                    out.push('\n');
                },
                UserLtxEntry::Empty => {
                    out.push('\n');
                },
            }
            assert(out@ == before + render_entry(es[i as int]));
            i += 1;
        }
        assert(es.take(self.entries.len() as int) == es);
        out
    }
}

/// Whether a line is written the way the writer writes it: empty, or a
/// comment, or a command without whitespace around it whose value, if it
/// has one, stands behind exactly one space.
pub open spec fn canonical_line(l: Seq<char>) -> bool {
    let t = trim(l);
    if t.len() == 0 {
        l.len() == 0
    } else if is_comment(t) {
        true
    } else {
        let p = find_ws(l) as int;
        &&& is_trimmed(l)
        &&& p < l.len() ==> l[p] == ' ' && !is_whitespace(l[p + 1])
    }
}

/// A line is canonical exactly if its record is written back as the line.
pub proof fn lemma_canonical_line(l: Seq<char>)
    ensures
        canonical_line(l) <==> render_entry(classify_entry(l)) == l + seq!['\n'],
{
    let t = trim(l);
    let nl = seq!['\n'];
    lemma_trim_is_trimmed(l);
    if t.len() == 0 {
        if l.len() == 0 {
            assert(l + nl == nl);
        } else {
            assert((l + nl).len() != nl.len());
        }
    } else if is_comment(t) {
    } else {
        lemma_find_ws_bounds(t);
        let p = find_ws(t) as int;
        let name = t.take(p);
        if canonical_line(l) {
            lemma_trimmed_fixed(l);
            assert(t == l);
            if p < l.len() {
                let rest = l.skip(p);
                let value = trim(rest);
                assert(rest[0] == ' ');
                assert(rest[1] == l[p + 1]);
                assert(rest.last() == l.last());
                let tail = rest.skip(1);
                assert(tail[0] == l[p + 1]);
                assert(tail.last() == l.last());
                lemma_trimmed_fixed(tail);
                crate::text::lemma_leading_ws_is(rest, 1);
                crate::text::lemma_trailing_ws_is(rest.skip(1), 0);
                assert(value == tail);
                assert(name + seq![' '] + value == l);
            } else {
                assert(name == l);
            }
        } else {
            let r = render_entry(classify_entry(l));
            if r == l + nl {
                if p < t.len() {
                    let value = trim(t.skip(p));
                    lemma_trim_is_trimmed(t.skip(p));
                    assert(t.skip(p).last() == t.last());
                    crate::text::lemma_trailing_ws_bounds(t.skip(p));
                    crate::text::lemma_leading_ws_bounds(t.skip(p));
                    assert(value.len() > 0) by {
                        let u = t.skip(p);
                        let a = crate::text::trim_start(u);
                        if crate::text::leading_ws(u) >= u.len() {
                            assert(is_whitespace(u[u.len() - 1]));
                        }
                        assert(a.len() > 0);
                        assert(a.last() == u.last());
                        crate::text::lemma_trailing_ws_is(a, 0);
                    }
                    assert(r == name + seq![' '] + value + nl);
                    assert(r.len() == l.len() + 1);
                    let w = name + seq![' '] + value;
                    assert(w == l) by {
                        assert(w =~= r.take(w.len() as int));
                        assert(l =~= (l + nl).take(l.len() as int));
                    }
                    assert(l.len() > 0);
                    assert(l[0] == if p > 0 { name[0] } else { ' ' });
                    if p == 0 {
                        assert(is_whitespace(t[0]));
                    }
                    assert(l[0] == t[0]);
                    assert(l.last() == value.last());
                    assert(is_trimmed(l));
                    lemma_trimmed_fixed(l);
                    assert(l[p] == ' ');
                    assert(l[p + 1] == value[0]);
                    assert(false);
                } else {
                    assert(r == t + nl);
                    assert(t == l) by {
                        assert(t =~= r.take(t.len() as int));
                        assert(l =~= (l + nl).take(l.len() as int));
                    }
                    assert(false);
                }
            }
        }
    }
}

/// The records of a parsed text are the records of its lines.
pub proof fn lemma_parsed_entries(v: UserLtxView, ls: Seq<Seq<char>>)
    ensures
        v.append_lines(ls).entries == v.entries + line_entries(ls),
    decreases ls.len(),
{
    if ls.len() > 0 {
        lemma_parsed_entries(v, ls.drop_last());
    }
}

/// Appending a record appends its text.
pub proof fn lemma_render_push(es: Seq<EntryView>, e: EntryView)
    ensures
        render_entries(es.push(e)) == render_entries(es) + render_entry(e),
{
    assert(es.push(e).drop_last() == es);
}

/// Writing the records of canonical lines gives the lines back.
pub proof fn lemma_render_canonical(ls: Seq<Seq<char>>)
    requires
        forall|i: int| 0 <= i < ls.len() ==> canonical_line(#[trigger] ls[i]),
    ensures
        render_entries(line_entries(ls)) == join_lines(ls),
    decreases ls.len(),
{
    if ls.len() > 0 {
        let head = ls.drop_last();
        assert forall|i: int| 0 <= i < head.len() implies canonical_line(#[trigger] head[i]) by {
            assert(head[i] == ls[i]);
        }
        lemma_render_canonical(head);
        assert(line_entries(ls) == line_entries(head).push(classify_entry(ls.last())));
        lemma_render_push(line_entries(head), classify_entry(ls.last()));
        assert(canonical_line(ls[ls.len() - 1]));
        lemma_canonical_line(ls.last());
    } else {
        assert(line_entries(ls) == Seq::<EntryView>::empty());
    }
}

/// Parsing a text and writing it gives the same text, character for
/// character, if every line of it ends with a line feed that no carriage
/// return precedes and is written the way the writer writes it.
pub proof fn lemma_flat_round_trip(text: Seq<char>)
    requires
        join_lines(lines(text)) == text,
        forall|i: int| 0 <= i < lines(text).len() ==> canonical_line(#[trigger] lines(text)[i]),
    ensures
        render_entries(parse_text(text).entries) == text,
{
    let ls = lines(text);
    lemma_parsed_entries(UserLtxView::empty(), ls);
    lemma_render_canonical(ls);
    assert(Seq::<EntryView>::empty() + line_entries(ls) == line_entries(ls));
}

/// Setting an active command rewrites its record where it stands: no line
/// is added, every other line stays, and the command stays active at the
/// same line.
pub proof fn lemma_set_keeps_line(v: UserLtxView, name: Seq<char>, value: Seq<char>)
    requires
        v.well_formed(),
        v.has(name),
    ensures
        v.set(name, value).entries.len() == v.entries.len(),
        v.set(name, value).index == v.index,
        v.set(name, value).entries[v.index[name]] == (EntryView::Command { name, value }),
        forall|i: int|
            0 <= i < v.entries.len() && i != v.index[name] ==> v.set(name, value).entries[i]
                == v.entries[i],
        v.set(name, value).value(name) == Some(value),
{
}

/// Removing an active command leaves a blank line where its record stood:
/// no line goes away, every other line stays, every other command stays
/// active at its line, and the command is no longer active.
pub proof fn lemma_remove_leaves_blank(v: UserLtxView, name: Seq<char>)
    requires
        v.well_formed(),
        v.has(name),
    ensures
        v.remove(name).entries.len() == v.entries.len(),
        v.remove(name).entries[v.index[name]] == EntryView::Empty,
        forall|i: int|
            0 <= i < v.entries.len() && i != v.index[name] ==> v.remove(name).entries[i]
                == v.entries[i],
        !v.remove(name).has(name),
        forall|o: Seq<char>|
            o != name && v.has(o) ==> v.remove(name).has(o) && v.remove(name).index[o]
                == v.index[o],
        render_entry(v.remove(name).entries[v.index[name]]) == seq!['\n'],
{
}

/// A command without a value is written as its bare name.
pub proof fn lemma_flag_is_bare(name: Seq<char>)
    ensures
        render_entry(EntryView::Command { name, value: Seq::empty() }) == name + seq!['\n'],
{
}

/// The records of the lines `ls`.
pub open spec fn line_entries(ls: Seq<Seq<char>>) -> Seq<EntryView> {
    ls.map_values(|l: Seq<char>| classify_entry(l))
}

/// The text of records is the text of the first and that of the rest.
proof fn lemma_render_first(es: Seq<EntryView>)
    requires
        es.len() > 0,
    ensures
        render_entries(es) == render_entry(es[0]) + render_entries(es.drop_first()),
    decreases es.len(),
{
    if es.len() == 1 {
        assert(es.drop_last() == Seq::<EntryView>::empty());
        assert(es.drop_first() == Seq::<EntryView>::empty());
        assert(es.last() == es[0]);
        assert(render_entries(es.drop_last()) == Seq::<char>::empty());
        assert(render_entries(es) =~= render_entry(es[0]));
        assert(render_entry(es[0]) + render_entries(es.drop_first()) =~= render_entry(es[0]));
    } else {
        let head = es.drop_last();
        lemma_render_first(head);
        assert(head.drop_first() == es.drop_first().drop_last());
        assert(es.drop_first().last() == es.last());
        assert(head[0] == es[0]);
        assert(render_entries(es) =~= render_entry(es[0]) + render_entries(es.drop_first()));
    }
}

/// The text of the record of a line without a line feed holds exactly one
/// line feed, at its end. The text of a command has no whitespace before it.
proof fn lemma_render_entry_shape(l: Seq<char>)
    requires
        !l.contains('\n'),
    ensures
        render_entry(classify_entry(l)).len() > 0,
        find(render_entry(classify_entry(l)), '\n') == render_entry(classify_entry(l)).len() - 1,
        classify_entry(l) is Command ==> {
            let r = render_entry(classify_entry(l));
            r.len() >= 2 && !is_whitespace(r[r.len() - 2])
        },
{
    let t = trim(l);
    let r = render_entry(classify_entry(l));
    lemma_trim_is_trimmed(l);
    lemma_trim_lacks(l, '\n');
    match classify_entry(l) {
        EntryView::Empty => {
            lemma_find_is(r, '\n', 0);
        },
        EntryView::Comment(text) => {
            assert forall|k: int| 0 <= k < r.len() - 1 implies r[k] != '\n' by {
                assert(r[k] == l[k]);
                assert(l.contains(l[k]));
            }
            lemma_find_is(r, '\n', r.len() - 1);
        },
        EntryView::Command { name, value } => {
            lemma_find_ws_bounds(t);
            let p = find_ws(t) as int;
            assert(p > 0) by {
                if p == 0 {
                    assert(is_whitespace(t[0]));
                }
            }
            let q = if p < t.len() { p } else { t.len() as int };
            assert(name == t.subrange(0, q));
            lemma_subrange_lacks(t, 0, q, '\n');
            assert(!is_whitespace(name.last())) by {
                assert(name.last() == t[name.len() - 1]);
            }
            if p < t.len() {
                let u = t.skip(p);
                assert(u == t.subrange(p, t.len() as int));
                lemma_subrange_lacks(t, p, t.len() as int, '\n');
                lemma_trim_lacks(u, '\n');
                lemma_trim_is_trimmed(u);
            }
            assert forall|k: int| 0 <= k < r.len() - 1 implies r[k] != '\n' by {
                if k < name.len() {
                    assert(r[k] == name[k]);
                    assert(name.contains(name[k]));
                } else if value.len() > 0 {
                    if k > name.len() {
                        assert(r[k] == value[k - name.len() - 1]);
                        assert(value.contains(value[k - name.len() - 1]));
                    } else {
                        assert(r[k] == ' ');
                    }
                }
            }
            lemma_find_is(r, '\n', r.len() - 1);
            if value.len() > 0 {
                assert(r[r.len() - 2] == value.last());
            } else {
                assert(r[r.len() - 2] == name.last());
            }
        },
    }
}

/// The text written for a parsed text is the text of the first line's
/// record and the text written for the lines behind it.
proof fn lemma_written_first(text: Seq<char>)
    requires
        text.len() > 0,
    ensures
        lines(text).len() > 0,
        render_entries(parse_text(text).entries) == render_entry(
            classify_entry(lines(text)[0]),
        ) + render_entries(line_entries(lines(text).drop_first())),
{
    let ls = lines(text);
    lemma_parsed_entries(UserLtxView::empty(), ls);
    let es = line_entries(ls);
    assert(Seq::<EntryView>::empty() + es == es);
    lemma_render_first(es);
    assert(es.drop_first() == line_entries(ls.drop_first()));
}

/// A line whose record is written as the line with a carriage return
/// behind it does not exist.
proof fn lemma_no_carriage_return(l: Seq<char>)
    requires
        !l.contains('\n'),
    ensures
        render_entry(classify_entry(l)) != l + seq!['\r', '\n'],
{
    let r = render_entry(classify_entry(l));
    let w = l + seq!['\r', '\n'];
    lemma_render_entry_shape(l);
    if r == w {
        assert(w[w.len() - 2] == '\r');
        match classify_entry(l) {
            EntryView::Empty => {
                assert(r.len() == 1);
            },
            EntryView::Comment(t) => {
                assert(r.len() == l.len() + 1);
            },
            EntryView::Command { name, value } => {},
        }
    }
}

/// A text that is written back as it was read is made of canonical lines,
/// each ended by a line feed that no carriage return precedes.
pub proof fn lemma_flat_round_trip_only(text: Seq<char>)
    requires
        render_entries(parse_text(text).entries) == text,
    ensures
        join_lines(lines(text)) == text,
        forall|i: int| 0 <= i < lines(text).len() ==> canonical_line(#[trigger] lines(text)[i]),
    decreases text.len(),
{
    let ls = lines(text);
    lemma_lines_no_newline(text);
    if text.len() > 0 {
        lemma_written_first(text);
        lemma_find_bounds(text, '\n');
        let j = find(text, '\n') as int;
        let l0 = ls[0];
        let r0 = render_entry(classify_entry(l0));
        let tail = render_entries(line_entries(ls.drop_first()));
        assert(!l0.contains('\n'));
        lemma_render_entry_shape(l0);
        lemma_find_bounds(r0, '\n');
        assert(text == r0 + tail);
        assert(text[r0.len() - 1] == '\n') by {
            assert((r0 + tail)[r0.len() - 1] == r0[r0.len() - 1]);
        }
        assert forall|k: int| 0 <= k < r0.len() - 1 implies text[k] != '\n' by {
            assert((r0 + tail)[k] == r0[k]);
        }
        lemma_find_is(text, '\n', r0.len() - 1);
        let rest = text.skip(j + 1);
        let first = text.take(j);
        assert(ls.drop_first() == lines(rest));
        assert(rest == tail);
        lemma_parsed_entries(UserLtxView::empty(), lines(rest));
        assert(Seq::<EntryView>::empty() + line_entries(lines(rest)) == line_entries(lines(rest)));
        lemma_flat_round_trip_only(rest);
        assert(first + seq!['\n'] == r0) by {
            assert(first + seq!['\n'] =~= text.take(j + 1));
            assert(text.take(j + 1) =~= r0);
        }
        if first.len() > 0 && first.last() == '\r' {
            lemma_no_carriage_return(l0);
            assert(l0 + seq!['\r', '\n'] =~= first + seq!['\n']);
        }
        lemma_canonical_line(l0);
        lemma_join_first(ls);
        assert(join_lines(ls) == text) by {
            assert(l0 + seq!['\n'] + rest =~= text);
        }
        assert forall|i: int| 0 <= i < ls.len() implies canonical_line(#[trigger] ls[i]) by {
            if i > 0 {
                assert(ls[i] == lines(rest)[i - 1]);
            }
        }
    }
}

/// A text is written back as it was read, character for character, exactly
/// if it is made of canonical lines, each ended by a line feed that no
/// carriage return precedes.
pub proof fn lemma_flat_round_trip_exact(text: Seq<char>)
    ensures
        render_entries(parse_text(text).entries) == text <==> {
            &&& join_lines(lines(text)) == text
            &&& forall|i: int|
                0 <= i < lines(text).len() ==> canonical_line(#[trigger] lines(text)[i])
        },
{
    if render_entries(parse_text(text).entries) == text {
        lemma_flat_round_trip_only(text);
    }
    if join_lines(lines(text)) == text && forall|i: int|
        0 <= i < lines(text).len() ==> canonical_line(#[trigger] lines(text)[i]) {
        lemma_flat_round_trip(text);
    }
}

} // verus!
