//! The default values of the options, read from the LTX files under
//! `configs/plugins/defaults`.

use crate::config::ltx_parser::{
    flatten, flatten_body, string_values, LtxFile, LtxView, SectionList,
};
use crate::ordered::{section_bodies, sections_get_index, sections_len, Pair};
use vstd::hash_map::StringHashMap;
use vstd::prelude::*;

verus! {

/// The sections that hold at least one value, each as a mapping from key
/// to value.
pub open spec fn flatten_sections(t: SectionList) -> Map<Seq<char>, Map<Seq<char>, Seq<char>>>
    decreases t.len(),
{
    if t.len() == 0 {
        Map::empty()
    } else if flatten(t.last().1).is_empty() {
        flatten_sections(t.drop_last())
    } else {
        flatten_sections(t.drop_last()).insert(t.last().0, flatten(t.last().1))
    }
}

/// The views of the maps of a map of sections.
pub open spec fn section_values(m: Map<Seq<char>, StringHashMap<String>>) -> Map<
    Seq<char>,
    Map<Seq<char>, Seq<char>>,
> {
    m.map_values(|s: StringHashMap<String>| string_values(s@))
}

/// Reads default values from a loaded document.
pub struct DefaultsReader {
    ltx: LtxFile,
}

impl View for DefaultsReader {
    type V = LtxView;

    closed spec fn view(&self) -> LtxView {
        self.ltx@
    }
}

impl DefaultsReader {
    /// A reader of the defaults that the document `ltx` holds.
    pub fn new(ltx: LtxFile) -> (r: Self)
        ensures
            r@ == ltx@,
    {
        DefaultsReader { ltx }
    }

    /// The default stored under `key` in `section`.
    pub fn get_default(&self, section: &str, key: &str) -> (r: Option<String>)
        ensures
            r is Some == self@.value(section@, key@) is Some,
            r matches Some(v) ==> self@.value(section@, key@) == Some(v@),
    {
        match self.ltx.get(section, key) {
            Some(v) => Some(v.to_owned()),
            None => None,
        }
    }

    /// The defaults of `section` that have a value, if the section exists.
    pub fn get_section_defaults(&self, section: &str) -> (r: Option<StringHashMap<String>>)
        ensures
            r is Some == self@.has_section(section@),
            r matches Some(m) ==> string_values(m@) == flatten(self@.body(section@)),
    {
        match self.ltx.section_entries(section) {
            Some(entries) => Some(flatten_body(entries)),
            None => None,
        }
    }

    /// The defaults of every section that holds at least one value.
    pub fn get_all_defaults(&self) -> (r: StringHashMap<StringHashMap<String>>)
        ensures
            section_values(r@) == flatten_sections(self@.sections),
    {
        let mut r: StringHashMap<StringHashMap<String>> = StringHashMap::new();
        let sections = self.ltx.all_entries();
        let ghost t = section_bodies(*sections);
        let n = sections_len(sections);
        let mut i: usize = 0;
        assert(t.take(0) == Seq::<(Seq<char>, Seq<Pair>)>::empty());
        assert(section_values(r@) == Map::<Seq<char>, Map<Seq<char>, Seq<char>>>::empty());
        while i < n
            invariant
                i <= n,
                n == t.len(),
                t == section_bodies(*sections),
                section_values(r@) == flatten_sections(t.take(i as int)),
            decreases n - i,
        {
            match sections_get_index(sections, i) {
                Some(p) => {
                    proof {
                        assert(t.take(i as int + 1).drop_last() == t.take(i as int));
                        assert(t.take(i as int + 1).last() == t[i as int]);
                    }
                    let section_map = flatten_body(p.1);
                    assert(section_map@.is_empty() == flatten(t[i as int].1).is_empty()) by {
                        assert(string_values(section_map@).dom() == section_map@.dom());
                    }
                    if !section_map.is_empty() {
                        let ghost before = r@;
                        let ghost inner = string_values(section_map@);
                        r.insert(p.0.clone(), section_map);
                        assert(section_values(r@) == section_values(before).insert(p.0@, inner));
                    }
                },
                None => {},
            }
            i += 1;
        }
        assert(t.take(n as int) == t);
        r
    }

    /// The whole document.
    pub fn document(&self) -> (r: &LtxFile)
        ensures
            r@ == self@,
    {
        &self.ltx
    }

    /// The names of the sections, in order.
    pub fn sections(&self) -> (r: Vec<String>)
        ensures
            r@.len() == self@.sections.len(),
            forall|i: int| 0 <= i < r@.len() ==> (#[trigger] r@[i])@ == self@.sections[i].0,
    {
        let names = self.ltx.sections();
        let mut r: Vec<String> = Vec::new();
        let mut i: usize = 0;
        while i < names.len()
            invariant
                i <= names.len(),
                r@.len() == i,
                names@.len() == self@.sections.len(),
                forall|j: int|
                    0 <= j < names@.len() ==> (#[trigger] names@[j])@ == self@.sections[j].0,
                forall|j: int| 0 <= j < i ==> (#[trigger] r@[j])@ == self@.sections[j].0,
            decreases names.len() - i,
        {
            r.push(names[i].to_owned());
            i += 1;
        }
        r
    }
}

} // verus!
