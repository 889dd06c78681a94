//! The options file `axr_options.ltx`: an LTX document of which only the
//! section `options` is read and changed; every other section is kept.

use crate::config::ltx_parser::{flatten, flatten_body, string_values, LtxFile, LtxView};
use vstd::hash_map::StringHashMap;
use vstd::prelude::*;

verus! {

/// The name of the section that holds the options.
pub open spec fn options_section() -> Seq<char> {
    seq!['o', 'p', 't', 'i', 'o', 'n', 's']
}

/// The name of the section that holds the options.
fn section_name() -> (r: &'static str)
    ensures
        r@ == options_section(),
{
    proof {
        reveal_strlit("options");
    }
    let r = "options";
    assert(r@ =~= options_section());
    r
}

/// The options of the game, held in an LTX document.
pub struct AxrOptions {
    ltx: LtxFile,
}

impl View for AxrOptions {
    type V = LtxView;

    closed spec fn view(&self) -> LtxView {
        self.ltx@
    }
}

impl AxrOptions {
    /// The options that the document `ltx` holds. An empty document stands
    /// for a file that does not exist yet.
    pub fn new(ltx: LtxFile) -> (r: Self)
        ensures
            r@ == ltx@,
    {
        AxrOptions { ltx }
    }

    /// The value of the option `path_key`.
    pub fn get(&self, path_key: &str) -> (r: Option<String>)
        ensures
            r is Some == self@.value(options_section(), path_key@) is Some,
            r matches Some(v) ==> self@.value(options_section(), path_key@) == Some(v@),
    {
        match self.ltx.get(section_name(), path_key) {
            Some(v) => Some(v.to_owned()),
            None => None,
        }
    }

    /// Every option that has a value.
    pub fn get_all_options(&self) -> (r: StringHashMap<String>)
        ensures
            string_values(r@) == flatten(self@.body(options_section())),
    {
        match self.ltx.section_entries(section_name()) {
            Some(entries) => flatten_body(entries),
            None => {
                let r: StringHashMap<String> = StringHashMap::new();
                assert(string_values(r@) == Map::<Seq<char>, Seq<char>>::empty());
                r
            },
        }
    }

    /// Sets the option `path_key` to `value`.
    pub fn set(&mut self, path_key: &str, value: &str)
        ensures
            final(self)@ == old(self)@.set(options_section(), path_key@, Some(value@)),
            final(self)@.well_formed(),
    {
        self.ltx.set(section_name(), path_key, Some(value));
    }

    /// Removes the option `path_key` and says whether it was there.
    pub fn remove(&mut self, path_key: &str) -> (r: bool)
        ensures
            r == old(self)@.has_key(options_section(), path_key@),
            final(self)@ == old(self)@.remove(options_section(), path_key@),
            final(self)@.well_formed(),
    {
        self.ltx.remove(section_name(), path_key)
    }

    /// The whole document, with every section, as it is to be saved.
    pub fn document(&self) -> (r: &LtxFile)
        ensures
            r@ == self@,
    {
        &self.ltx
    }
}

} // verus!
