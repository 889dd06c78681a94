//! The sectioned LTX document: an ordered list of sections, each an ordered
//! list of keys with optional values, and an ordered list of root keys that
//! stand before the first section.

use crate::ordered::{
    body_entries, body_get, body_get_index, body_insert, body_len, body_new, body_shift_remove,
    delete, distinct_keys, has_key, lemma_delete, lemma_position_bounds, lemma_position_is,
    lemma_put, position, put, section_bodies, sections_at_mut, sections_get_index,
    sections_get_index_of, sections_insert, sections_len, sections_new, value_view, Pair,
};
use crate::text::{chars_of, same_chars};
use indexmap::IndexMap;
use vstd::hash_map::StringHashMap;
use vstd::prelude::*;
use vstd::string::StringExecFns;

verus! {

/// The named bodies of a document, in order.
pub type SectionList = Seq<(Seq<char>, Seq<Pair>)>;

/// `t` after storing `v` under `k` in the section `n`, which is created at
/// the end if it does not exist yet.
pub open spec fn section_put(
    t: SectionList,
    n: Seq<char>,
    k: Seq<char>,
    v: Option<Seq<char>>,
) -> SectionList {
    if has_key(t, n) {
        let i = position(t, n) as int;
        t.update(i, (n, put(t[i].1, k, v)))
    } else {
        t.push((n, seq![(k, v)]))
    }
}

/// `t` with the section `n`, which is created empty at the end if it does
/// not exist yet.
pub open spec fn section_ensure(t: SectionList, n: Seq<char>) -> SectionList {
    if has_key(t, n) {
        t
    } else {
        t.push((n, Seq::empty()))
    }
}

/// `t` after removing `k` from the section `n`. The section stays, even empty.
pub open spec fn section_delete(t: SectionList, n: Seq<char>, k: Seq<char>) -> SectionList {
    if has_key(t, n) {
        let i = position(t, n) as int;
        t.update(i, (n, delete(t[i].1, k)))
    } else {
        t
    }
}

/// `target` after storing every pair of `src`, in order.
pub open spec fn put_all(target: Seq<Pair>, src: Seq<Pair>) -> Seq<Pair>
    decreases src.len(),
{
    if src.len() == 0 {
        target
    } else {
        put(put_all(target, src.drop_last()), src.last().0, src.last().1)
    }
}

/// `t` after merging the body `b` into the section `n`.
pub open spec fn section_merge(t: SectionList, n: Seq<char>, b: Seq<Pair>) -> SectionList {
    let e = section_ensure(t, n);
    let i = position(e, n) as int;
    e.update(i, (n, put_all(e[i].1, b)))
}

/// `t` after merging every section of `src`, in order.
pub open spec fn sections_merge(t: SectionList, src: SectionList) -> SectionList
    decreases src.len(),
{
    if src.len() == 0 {
        t
    } else {
        section_merge(sections_merge(t, src.drop_last()), src.last().0, src.last().1)
    }
}

/// What a document holds.
pub struct LtxView {
    /// The pairs that stand before the first section header.
    pub root: Seq<Pair>,
    /// The sections in the order in which they were first seen.
    pub sections: SectionList,
}

impl LtxView {
    /// The document that holds nothing.
    pub open spec fn empty() -> LtxView {
        LtxView { root: Seq::empty(), sections: Seq::empty() }
    }

    /// No root key, section name or key within a section occurs twice.
    pub open spec fn well_formed(self) -> bool {
        &&& distinct_keys(self.root)
        &&& distinct_keys(self.sections)
        &&& forall|i: int| 0 <= i < self.sections.len() ==> distinct_keys(
            (#[trigger] self.sections[i]).1,
        )
    }

    /// Whether the section `s` exists.
    pub open spec fn has_section(self, s: Seq<char>) -> bool {
        has_key(self.sections, s)
    }

    /// The body of the section `s`, empty if there is no such section.
    pub open spec fn body(self, s: Seq<char>) -> Seq<Pair> {
        if self.has_section(s) {
            self.sections[position(self.sections, s) as int].1
        } else {
            Seq::empty()
        }
    }

    /// Whether the section `s` exists and holds the key `k`, with or without a value.
    pub open spec fn has_key(self, s: Seq<char>, k: Seq<char>) -> bool {
        has_key(self.body(s), k)
    }

    /// The value stored under `k` in the section `s`; `None` both where the
    /// key is absent and where it has no value.
    pub open spec fn value(self, s: Seq<char>, k: Seq<char>) -> Option<Seq<char>> {
        if self.has_key(s, k) {
            self.body(s)[position(self.body(s), k) as int].1
        } else {
            None
        }
    }

    /// The document after storing `v` under `k` in the section `s`.
    pub open spec fn set(self, s: Seq<char>, k: Seq<char>, v: Option<Seq<char>>) -> LtxView {
        LtxView { root: self.root, sections: section_put(self.sections, s, k, v) }
    }

    /// The document after storing `v` under the root key `k`.
    pub open spec fn set_root(self, k: Seq<char>, v: Option<Seq<char>>) -> LtxView {
        LtxView { root: put(self.root, k, v), sections: self.sections }
    }

    /// The document with the section `s`, created empty if new.
    pub open spec fn with_section(self, s: Seq<char>) -> LtxView {
        LtxView { root: self.root, sections: section_ensure(self.sections, s) }
    }

    /// The document after removing `k` from the section `s`.
    pub open spec fn remove(self, s: Seq<char>, k: Seq<char>) -> LtxView {
        LtxView { root: self.root, sections: section_delete(self.sections, s, k) }
    }

    /// The document after merging `other` into it: root pairs and the pairs
    /// of each section overwrite in place or are added last, new sections are
    /// added last.
    pub open spec fn merge(self, other: LtxView) -> LtxView {
        LtxView {
            root: put_all(self.root, other.root),
            sections: sections_merge(self.sections, other.sections),
        }
    }
}

/// Why loading a document failed.
#[derive(Debug, Clone, PartialEq, Eq)]
pub enum LtxError {
    /// A file could not be read or written; the text names the path.
    Io(String),
    /// A directive could not be understood; the text holds the source.
    Parse(String),
}

/// An LTX document.
#[derive(Debug)]
pub struct LtxFile {
    sections: IndexMap<String, IndexMap<String, Option<String>>>,
    root: IndexMap<String, Option<String>>,
}

impl View for LtxFile {
    type V = LtxView;

    closed spec fn view(&self) -> LtxView {
        LtxView { root: body_entries(self.root), sections: section_bodies(self.sections) }
    }
}

/// The view of an optional string slice.
pub open spec fn slice_view(v: Option<&str>) -> Option<Seq<char>> {
    match v {
        Some(s) => Some(s@),
        None => None,
    }
}

/// An owned copy of an optional string slice.
pub fn owned_value(value: Option<&str>) -> (r: Option<String>)
    ensures
        value_view(r) == slice_view(value),
{
    match value {
        Some(v) => Some(v.to_owned()),
        None => None,
    }
}

/// An owned copy of an optional string.
pub fn cloned_value(value: &Option<String>) -> (r: Option<String>)
    ensures
        value_view(r) == value_view(*value),
{
    match value {
        Some(v) => Some(v.clone()),
        None => None,
    }
}

impl LtxFile {
    /// What holds of every document: its content is well formed.
    #[verifier::type_invariant]
    pub open spec fn inv(self) -> bool {
        self@.well_formed()
    }

    /// An empty document.
    pub fn new() -> (r: Self)
        ensures
            r@ == LtxView::empty(),
            r@.well_formed(),
    {
        LtxFile { sections: sections_new(), root: body_new() }
    }

    /// Takes the document apart, leaving an empty one in its place.
    fn take(&mut self) -> (r: (
        IndexMap<String, IndexMap<String, Option<String>>>,
        IndexMap<String, Option<String>>,
    ))
        ensures
            final(self)@ == LtxView::empty(),
            (LtxView { root: body_entries(r.1), sections: section_bodies(r.0) }) == old(self)@,
            old(self)@.well_formed(),
    {
        proof {
            use_type_invariant(&*self);
        }
        let mut taken = LtxFile::new();
        std::mem::swap(self, &mut taken);
        let LtxFile { sections, root } = taken;
        (sections, root)
    }

    /// Position of the section `name`, which is created empty if new.
    fn ensure_section(&mut self, name: &str) -> (i: usize)
        ensures
            final(self)@ == old(self)@.with_section(name@),
            i == position(final(self)@.sections, name@),
            i < final(self)@.sections.len(),
            final(self)@.well_formed(),
    {
        proof {
            use_type_invariant(&*self);
            lemma_position_bounds(self@.sections, name@);
        }
        match sections_get_index_of(&self.sections, name) {
            Some(i) => i,
            None => {
                let (mut sections, root) = self.take();
                let n = sections_len(&sections);
                proof {
                    lemma_put(old(self)@.sections, name@, Seq::<Pair>::empty());
                }
                sections_insert(&mut sections, name.to_owned(), body_new());
                proof {
                    let before = old(self)@.sections;
                    let after = section_bodies(sections);
                    assert forall|a: int| 0 <= a < after.len() implies distinct_keys(
                        (#[trigger] after[a]).1,
                    ) by {
                        if a < before.len() {
                            assert(after[a] == before[a]);
                        }
                    }
                }
                *self = LtxFile { sections, root };
                proof {
                    use_type_invariant(&*self);
                }
                n
            },
        }
    }

    /// Stores `value` under `key` in the section at position `i`.
    fn put_at(&mut self, i: usize, key: String, value: Option<String>)
        requires
            i < old(self)@.sections.len(),
        ensures
            final(self)@.root == old(self)@.root,
            final(self)@.sections == old(self)@.sections.update(
                i as int,
                (
                    old(self)@.sections[i as int].0,
                    put(old(self)@.sections[i as int].1, key@, value_view(value)),
                ),
            ),
            final(self)@.well_formed(),
    {
        let (mut sections, root) = self.take();
        let ghost before = section_bodies(sections);
        proof {
            lemma_put(before[i as int].1, key@, value_view(value));
        }
        let body = sections_at_mut(&mut sections, i);
        body_insert(body, key, value);
        proof {
            let after = section_bodies(sections);
            assert forall|a: int, b: int| 0 <= a < b < after.len() implies (#[trigger] after[a]).0
                != (#[trigger] after[b]).0 by {
                assert(after[a].0 == before[a].0);
                assert(after[b].0 == before[b].0);
            }
            assert forall|a: int| 0 <= a < after.len() implies distinct_keys(
                (#[trigger] after[a]).1,
            ) by {
                if a != i {
                    assert(after[a] == before[a]);
                }
            }
        }
        *self = LtxFile { sections, root };
        proof {
            use_type_invariant(&*self);
        }
    }

    /// Stores `value` under the root key `key`.
    fn put_root(&mut self, key: String, value: Option<String>)
        ensures
            final(self)@ == old(self)@.set_root(key@, value_view(value)),
            final(self)@.well_formed(),
    {
        let (sections, mut root) = self.take();
        proof {
            lemma_put(body_entries(root), key@, value_view(value));
        }
        body_insert(&mut root, key, value);
        *self = LtxFile { sections, root };
        proof {
            use_type_invariant(&*self);
        }
    }

    /// The value stored under `key` in `section`. `None` both where the key
    /// is absent and where it has no value.
    pub fn get(&self, section: &str, key: &str) -> (r: Option<&str>)
        ensures
            r is Some == self@.value(section@, key@) is Some,
            r matches Some(v) ==> self@.value(section@, key@) == Some(v@),
    {
        match sections_get_index_of(&self.sections, section) {
            None => None,
            Some(i) => match sections_get_index(&self.sections, i) {
                None => None,
                Some(p) => match body_get(p.1, key) {
                    None => None,
                    Some(v) => match v {
                        Some(s) => Some(s.as_str()),
                        None => None,
                    },
                },
            },
        }
    }

    /// Whether `section` exists.
    pub fn has_section(&self, section: &str) -> (r: bool)
        ensures
            r == self@.has_section(section@),
    {
        sections_get_index_of(&self.sections, section).is_some()
    }

    /// Whether `section` exists and holds `key`, with or without a value.
    pub fn has_key(&self, section: &str, key: &str) -> (r: bool)
        ensures
            r == self@.has_key(section@, key@),
    {
        match sections_get_index_of(&self.sections, section) {
            None => {
                assert(self@.body(section@) == Seq::<Pair>::empty());
                false
            },
            Some(i) => match sections_get_index(&self.sections, i) {
                None => false,
                Some(p) => body_get(p.1, key).is_some(),
            },
        }
    }

    /// The section names, in order.
    pub fn sections(&self) -> (r: Vec<&str>)
        ensures
            r@.len() == self@.sections.len(),
            forall|i: int| 0 <= i < r@.len() ==> (#[trigger] r@[i])@ == self@.sections[i].0,
    {
        let mut r: Vec<&str> = Vec::new();
        let n = sections_len(&self.sections);
        let mut i: usize = 0;
        while i < n
            invariant
                i <= n,
                n == self@.sections.len(),
                r@.len() == i,
                forall|j: int| 0 <= j < i ==> (#[trigger] r@[j])@ == self@.sections[j].0,
            decreases n - i,
        {
            match sections_get_index(&self.sections, i) {
                Some(p) => {
                    r.push(p.0.as_str());
                },
                None => {},
            }
            i += 1;
        }
        r
    }

    /// The body of `section`, if the section exists.
    pub fn section_entries(&self, section: &str) -> (r: Option<&IndexMap<String, Option<String>>>)
        ensures
            r is Some == self@.has_section(section@),
            r matches Some(b) ==> body_entries(*b) == self@.body(section@),
    {
        match sections_get_index_of(&self.sections, section) {
            None => None,
            Some(i) => match sections_get_index(&self.sections, i) {
                None => None,
                Some(p) => Some(p.1),
            },
        }
    }

    /// Every section with its body.
    pub fn all_entries(&self) -> (r: &IndexMap<String, IndexMap<String, Option<String>>>)
        ensures
            section_bodies(*r) == self@.sections,
    {
        &self.sections
    }

    /// The root pairs.
    pub fn root_entries(&self) -> (r: &IndexMap<String, Option<String>>)
        ensures
            body_entries(*r) == self@.root,
    {
        &self.root
    }

    /// Stores `value` under `key` in `section`, taking ownership of both.
    pub fn put_in(&mut self, section: &str, key: String, value: Option<String>)
        ensures
            final(self)@ == old(self)@.set(section@, key@, value_view(value)),
            final(self)@.well_formed(),
    {
        let i = self.ensure_section(section);
        proof {
            lemma_position_bounds(old(self)@.sections, section@);
            lemma_position_bounds(self@.sections, section@);
            assert(put(Seq::<Pair>::empty(), key@, value_view(value)) == seq![
                (key@, value_view(value)),
            ]);
        }
        self.put_at(i, key, value);
        assert(self@.sections == section_put(
            old(self)@.sections,
            section@,
            key@,
            value_view(value),
        ));
    }

    /// Stores `value` under `key` in `section`. The section is created if
    /// needed; a key that exists keeps its place.
    pub fn set(&mut self, section: &str, key: &str, value: Option<&str>)
        ensures
            final(self)@ == old(self)@.set(section@, key@, slice_view(value)),
            final(self)@.well_formed(),
    {
        self.put_in(section, key.to_owned(), owned_value(value));
    }

    /// Registers `section`, empty if it is new.
    pub fn add_section(&mut self, section: &str)
        ensures
            final(self)@ == old(self)@.with_section(section@),
            final(self)@.well_formed(),
    {
        let _ = self.ensure_section(section);
    }

    /// Stores `value` under the root key `key`, before any section.
    pub fn set_root(&mut self, key: String, value: Option<String>)
        ensures
            final(self)@ == old(self)@.set_root(key@, value_view(value)),
            final(self)@.well_formed(),
    {
        self.put_root(key, value);
    }

    /// Merges the body `body` into the section `name`.
    fn merge_section(&mut self, name: &str, body: &IndexMap<String, Option<String>>)
        ensures
            final(self)@.root == old(self)@.root,
            final(self)@.sections == section_merge(
                old(self)@.sections,
                name@,
                body_entries(*body),
            ),
            final(self)@.well_formed(),
    {
        let i = self.ensure_section(name);
        let ghost e = self@.sections;
        let ghost b = body_entries(*body);
        proof {
            lemma_position_bounds(e, name@);
            assert(b.take(0) == Seq::<Pair>::empty());
            assert(e.update(i as int, (name@, put_all(e[i as int].1, b.take(0)))) == e);
        }
        let n = body_len(body);
        let mut k: usize = 0;
        while k < n
            invariant
                k <= n,
                n == b.len(),
                b == body_entries(*body),
                i < e.len(),
                e[i as int].0 == name@,
                self@.well_formed(),
                self@.root == old(self)@.root,
                self@.sections == e.update(
                    i as int,
                    (name@, put_all(e[i as int].1, b.take(k as int))),
                ),
            decreases n - k,
        {
            match body_get_index(body, k) {
                Some(p) => {
                    proof {
                        assert(b.take(k as int + 1).drop_last() == b.take(k as int));
                        assert(b.take(k as int + 1).last() == b[k as int]);
                    }
                    self.put_at(i, p.0.clone(), cloned_value(p.1));
                },
                None => {},
            }
            k += 1;
        }
        assert(b.take(n as int) == b);
    }

    /// Merges `other` into this document: its root pairs and the pairs of
    /// each of its sections overwrite in place or are added last, and its
    /// new sections are added last.
    pub fn merge(&mut self, other: LtxFile)
        ensures
            final(self)@ == old(self)@.merge(other@),
            final(self)@.well_formed(),
    {
        self.merge_from(&other);
    }

    /// Merges a borrowed document into this one, as `merge` does.
    pub fn merge_from(&mut self, other: &LtxFile)
        ensures
            final(self)@ == old(self)@.merge(other@),
            final(self)@.well_formed(),
    {
        let ghost r = other@.root;
        let ghost t = other@.sections;
        proof {
            use_type_invariant(&*self);
        }
        let n = body_len(&other.root);
        let mut k: usize = 0;
        assert(r.take(0) == Seq::<Pair>::empty());
        while k < n
            invariant
                k <= n,
                n == r.len(),
                r == body_entries(other.root),
                self@.well_formed(),
                self@.sections == old(self)@.sections,
                self@.root == put_all(old(self)@.root, r.take(k as int)),
            decreases n - k,
        {
            match body_get_index(&other.root, k) {
                Some(p) => {
                    proof {
                        assert(r.take(k as int + 1).drop_last() == r.take(k as int));
                        assert(r.take(k as int + 1).last() == r[k as int]);
                    }
                    self.put_root(p.0.clone(), cloned_value(p.1));
                },
                None => {},
            }
            k += 1;
        }
        assert(r.take(n as int) == r);
        let m = sections_len(&other.sections);
        let mut j: usize = 0;
        assert(t.take(0) == Seq::<(Seq<char>, Seq<Pair>)>::empty());
        while j < m
            invariant
                j <= m,
                m == t.len(),
                t == section_bodies(other.sections),
                self@.well_formed(),
                self@.root == put_all(old(self)@.root, r),
                self@.sections == sections_merge(old(self)@.sections, t.take(j as int)),
            decreases m - j,
        {
            match sections_get_index(&other.sections, j) {
                Some(p) => {
                    proof {
                        assert(t.take(j as int + 1).drop_last() == t.take(j as int));
                        assert(t.take(j as int + 1).last() == t[j as int]);
                    }
                    self.merge_section(p.0.as_str(), p.1);
                },
                None => {},
            }
            j += 1;
        }
        assert(t.take(m as int) == t);
    }

    /// Removes `key` from `section` and says whether it was there. The
    /// section stays, even if it is now empty.
    pub fn remove(&mut self, section: &str, key: &str) -> (r: bool)
        ensures
            r == old(self)@.has_key(section@, key@),
            final(self)@ == old(self)@.remove(section@, key@),
            final(self)@.well_formed(),
    {
        proof {
            use_type_invariant(&*self);
            lemma_position_bounds(self@.sections, section@);
        }
        match sections_get_index_of(&self.sections, section) {
            None => {
                assert(self@.body(section@) == Seq::<Pair>::empty());
                false
            },
            Some(i) => {
                let (mut sections, root) = self.take();
                let ghost before = section_bodies(sections);
                proof {
                    lemma_delete(before[i as int].1, key@);
                }
                let body = sections_at_mut(&mut sections, i);
                let gone = body_shift_remove(body, key);
                proof {
                    let after = section_bodies(sections);
                    assert forall|a: int, b: int| 0 <= a < b < after.len() implies (
                    #[trigger] after[a]).0 != (#[trigger] after[b]).0 by {
                        assert(after[a].0 == before[a].0);
                        assert(after[b].0 == before[b].0);
                    }
                    assert forall|a: int| 0 <= a < after.len() implies distinct_keys(
                        (#[trigger] after[a]).1,
                    ) by {
                        if a != i {
                            assert(after[a] == before[a]);
                        }
                    }
                }
                *self = LtxFile { sections, root };
                gone.is_some()
            },
        }
    }
}

/// The lowercase form of a text as `str::to_lowercase` gives it: each
/// character replaced by its Unicode lowercase mapping.
pub uninterp spec fn lowercase(s: Seq<char>) -> Seq<char>;

/// `str::to_lowercase`: the lowercase form of `s`.
#[verifier::external_body]
fn to_lowercase(s: &str) -> (r: String)
    ensures
        r@ == lowercase(s@),
{
    s.to_lowercase()
}

/// The truth value that a lowercase word stands for.
pub open spec fn bool_word(w: Seq<char>) -> Option<bool> {
    if w == seq!['t', 'r', 'u', 'e'] || w == seq!['o', 'n'] || w == seq!['1'] || w == seq![
        'y',
        'e',
        's',
    ] {
        Some(true)
    } else if w == seq!['f', 'a', 'l', 's', 'e'] || w == seq!['o', 'f', 'f'] || w == seq!['0']
        || w == seq!['n', 'o'] {
        Some(false)
    } else {
        None
    }
}

/// The truth value that the lowercase word `word` stands for: `true`,
/// `on`, `1` and `yes` are true, `false`, `off`, `0` and `no` are false.
pub fn parse_bool_word(word: &str) -> (r: Option<bool>)
    ensures
        r == bool_word(word@),
{
    let w = chars_of(word);
    let w_true = vec!['t', 'r', 'u', 'e'];
    let w_on = vec!['o', 'n'];
    let w_one = vec!['1'];
    let w_yes = vec!['y', 'e', 's'];
    let w_false = vec!['f', 'a', 'l', 's', 'e'];
    let w_off = vec!['o', 'f', 'f'];
    let w_zero = vec!['0'];
    let w_no = vec!['n', 'o'];
    proof {
        assert(w_true@ =~= seq!['t', 'r', 'u', 'e']);
        assert(w_on@ =~= seq!['o', 'n']);
        assert(w_one@ =~= seq!['1']);
        assert(w_yes@ =~= seq!['y', 'e', 's']);
        assert(w_false@ =~= seq!['f', 'a', 'l', 's', 'e']);
        assert(w_off@ =~= seq!['o', 'f', 'f']);
        assert(w_zero@ =~= seq!['0']);
        assert(w_no@ =~= seq!['n', 'o']);
    }
    if same_chars(&w, &w_true) || same_chars(&w, &w_on) || same_chars(&w, &w_one) || same_chars(
        &w,
        &w_yes,
    ) {
        Some(true)
    } else if same_chars(&w, &w_false) || same_chars(&w, &w_off) || same_chars(&w, &w_zero)
        || same_chars(&w, &w_no) {
        Some(false)
    } else {
        None
    }
}

impl LtxFile {
    /// The value stored under `key` in `section` as a truth value, without
    /// regard to case. `None` where there is no value or it is no such word.
    pub fn get_bool(&self, section: &str, key: &str) -> (r: Option<bool>)
        ensures
            r == match self@.value(section@, key@) {
                Some(v) => bool_word(lowercase(v)),
                None => None,
            },
    {
        match self.get(section, key) {
            Some(v) => {
                let lowered = to_lowercase(v);
                parse_bool_word(lowered.as_str())
            },
            None => None,
        }
    }
}

/// The pairs that have a value, as a mapping from key to value. Keys
/// without a value are left out.
pub open spec fn flatten(body: Seq<Pair>) -> Map<Seq<char>, Seq<char>>
    decreases body.len(),
{
    if body.len() == 0 {
        Map::empty()
    } else {
        match body.last().1 {
            Some(v) => flatten(body.drop_last()).insert(body.last().0, v),
            None => flatten(body.drop_last()),
        }
    }
}

/// The views of the values of a map of strings.
pub open spec fn string_values(m: Map<Seq<char>, String>) -> Map<Seq<char>, Seq<char>> {
    m.map_values(|s: String| s@)
}

/// The pairs of `body` that have a value, as a mapping from key to value.
pub fn flatten_body(body: &IndexMap<String, Option<String>>) -> (r: StringHashMap<String>)
    ensures
        string_values(r@) == flatten(body_entries(*body)),
{
    let mut r: StringHashMap<String> = StringHashMap::new();
    let ghost b = body_entries(*body);
    let n = body_len(body);
    let mut i: usize = 0;
    assert(b.take(0) == Seq::<Pair>::empty());
    assert(string_values(r@) == Map::<Seq<char>, Seq<char>>::empty());
    while i < n
        invariant
            i <= n,
            n == b.len(),
            b == body_entries(*body),
            string_values(r@) == flatten(b.take(i as int)),
        decreases n - i,
    {
        match body_get_index(body, i) {
            Some(p) => {
                proof {
                    assert(b.take(i as int + 1).drop_last() == b.take(i as int));
                    assert(b.take(i as int + 1).last() == b[i as int]);
                }
                match p.1 {
                    Some(v) => {
                        let ghost before = r@;
                        r.insert(p.0.clone(), v.clone());
                        assert(string_values(r@) == string_values(before).insert(p.0@, v@));
                    },
                    None => {},
                }
            },
            None => {},
        }
        i += 1;
    }
    assert(b.take(n as int) == b);
    r
}

/// The text that describes an error to the user.
pub open spec fn error_text(e: LtxError) -> Seq<char> {
    match e {
        LtxError::Io(msg) => "IO error: "@ + msg@,
        LtxError::Parse(msg) => "Parse error: "@ + msg@,
    }
}

impl LtxError {
    /// The text that describes the error to the user.
    pub fn to_text(&self) -> (r: String)
        ensures
            r@ == error_text(*self),
    {
        match self {
            LtxError::Io(msg) => {
                let mut r = "IO error: ".to_owned();
                r.append(msg.as_str());
                r
            },
            LtxError::Parse(msg) => {
                let mut r = "Parse error: ".to_owned();
                r.append(msg.as_str());
                r
            },
        }
    }
}

/// Setting a key that a section already holds changes its value where it
/// stands: no section and no key is added or moved, and every other key
/// keeps its value.
pub proof fn lemma_set_in_place(d: LtxView, s: Seq<char>, k: Seq<char>, v: Option<Seq<char>>)
    requires
        d.has_key(s, k),
    ensures
        d.set(s, k, v).root == d.root,
        d.set(s, k, v).sections.len() == d.sections.len(),
        forall|n: Seq<char>|
            position(d.set(s, k, v).sections, n) == position(d.sections, n),
        forall|n: Seq<char>| n != s ==> d.set(s, k, v).body(n) == d.body(n),
        d.set(s, k, v).body(s).len() == d.body(s).len(),
        forall|o: Seq<char>|
            position(d.set(s, k, v).body(s), o) == position(d.body(s), o),
        d.set(s, k, v).has_key(s, k),
        d.set(s, k, v).value(s, k) == v,
        forall|o: Seq<char>| o != k ==> d.set(s, k, v).value(s, o) == d.value(s, o),
{
    let t = d.sections;
    let u = d.set(s, k, v).sections;
    lemma_position_bounds(t, s);
    let i = position(t, s) as int;
    assert(has_key(t, s)) by {
        if !has_key(t, s) {
            assert(d.body(s) == Seq::<Pair>::empty());
        }
    }
    let b = t[i].1;
    lemma_put(b, k, v);
    lemma_position_bounds(b, k);
    assert forall|n: Seq<char>| position(u, n) == position(t, n) by {
        lemma_position_bounds(t, n);
        let q = position(t, n) as int;
        assert forall|j: int| 0 <= j < q implies (#[trigger] u[j]).0 != n by {
            assert(u[j].0 == t[j].0);
        }
        if q < t.len() {
            assert(u[q].0 == t[q].0);
        }
        lemma_position_is(u, n, q);
    }
    assert forall|n: Seq<char>| n != s implies d.set(s, k, v).body(n) == d.body(n) by {
        lemma_position_bounds(t, n);
    }
    assert forall|o: Seq<char>| position(put(b, k, v), o) == position(b, o) by {
        lemma_position_bounds(b, o);
    }
    assert forall|o: Seq<char>| o != k implies d.set(s, k, v).value(s, o) == d.value(s, o) by {
        lemma_position_bounds(b, o);
    }
}

/// Removing a key keeps its section, even if the section is then empty.
pub proof fn lemma_remove_keeps_section(d: LtxView, s: Seq<char>, k: Seq<char>)
    ensures
        d.remove(s, k).sections.len() == d.sections.len(),
        forall|n: Seq<char>|
            position(d.remove(s, k).sections, n) == position(d.sections, n),
        forall|n: Seq<char>| d.remove(s, k).has_section(n) == d.has_section(n),
        d.well_formed() ==> !d.remove(s, k).has_key(s, k),
{
    let t = d.sections;
    let u = d.remove(s, k).sections;
    lemma_position_bounds(t, s);
    assert forall|n: Seq<char>| position(u, n) == position(t, n) by {
        lemma_position_bounds(t, n);
        let q = position(t, n) as int;
        assert forall|j: int| 0 <= j < q implies (#[trigger] u[j]).0 != n by {
            assert(u[j].0 == t[j].0);
        }
        if q < t.len() {
            assert(u[q].0 == t[q].0);
        }
        lemma_position_is(u, n, q);
    }
    if d.well_formed() && has_key(t, s) {
        let i = position(t, s) as int;
        assert(distinct_keys(t[i].1));
        lemma_delete(t[i].1, k);
        assert(position(u, s) == position(t, s));
    }
}

/// Whether `c` begins with the keys of `b`, in the same order.
pub open spec fn keeps_keys(b: Seq<Pair>, c: Seq<Pair>) -> bool {
    &&& b.len() <= c.len()
    &&& forall|i: int| 0 <= i < b.len() ==> (#[trigger] c[i]).0 == b[i].0
}

/// Whether `u` begins with the sections of `t`, in the same order, each
/// beginning with the keys it had.
pub open spec fn keeps_sections(t: SectionList, u: SectionList) -> bool {
    &&& t.len() <= u.len()
    &&& forall|i: int|
        0 <= i < t.len() ==> (#[trigger] u[i]).0 == t[i].0 && keeps_keys(t[i].1, u[i].1)
}

proof fn lemma_put_all_keeps(b: Seq<Pair>, src: Seq<Pair>)
    ensures
        keeps_keys(b, put_all(b, src)),
    decreases src.len(),
{
    if src.len() > 0 {
        lemma_put_all_keeps(b, src.drop_last());
        let c = put_all(b, src.drop_last());
        lemma_position_bounds(c, src.last().0);
        let d = put(c, src.last().0, src.last().1);
        assert forall|i: int| 0 <= i < b.len() implies (#[trigger] d[i]).0 == b[i].0 by {
            assert(c[i].0 == b[i].0);
        }
    }
}

proof fn lemma_sections_merge_keeps(t: SectionList, src: SectionList)
    ensures
        keeps_sections(t, sections_merge(t, src)),
    decreases src.len(),
{
    if src.len() == 0 {
        assert forall|i: int| 0 <= i < t.len() implies keeps_keys(t[i].1, (#[trigger] t[i]).1) by {}
    } else {
        lemma_sections_merge_keeps(t, src.drop_last());
        let u = sections_merge(t, src.drop_last());
        let n = src.last().0;
        let e = section_ensure(u, n);
        lemma_position_bounds(e, n);
        lemma_position_bounds(u, n);
        let p = position(e, n) as int;
        assert(p < e.len()) by {
            if !has_key(u, n) {
                assert forall|i: int| 0 <= i < u.len() implies (#[trigger] e[i]).0 != n by {
                    assert(e[i] == u[i]);
                }
                lemma_position_is(e, n, u.len() as int);
            }
        }
        lemma_put_all_keeps(e[p].1, src.last().1);
        let w = section_merge(u, n, src.last().1);
        assert forall|i: int| 0 <= i < t.len() implies (#[trigger] w[i]).0 == t[i].0 && keeps_keys(
            t[i].1,
            w[i].1,
        ) by {
            assert(u[i].0 == t[i].0 && keeps_keys(t[i].1, u[i].1));
            assert(e[i] == u[i]);
            if i == p {
                let b = t[i].1;
                let c = u[i].1;
                let d = w[i].1;
                assert forall|j: int| 0 <= j < b.len() implies (#[trigger] d[j]).0 == b[j].0 by {
                    assert(c[j].0 == b[j].0);
                }
            } else {
                assert(w[i] == e[i]);
            }
        }
    }
}

/// Merging keeps the order: every root key, every section and every key
/// of a section stands in the merged document where it stood before, and
/// what the other document adds comes behind.
pub proof fn lemma_merge_keeps_order(d: LtxView, o: LtxView)
    ensures
        keeps_keys(d.root, d.merge(o).root),
        keeps_sections(d.sections, d.merge(o).sections),
{
    lemma_put_all_keeps(d.root, o.root);
    lemma_sections_merge_keeps(d.sections, o.sections);
}

} // verus!
