//! Applying a list of option changes to the two files that hold options.

use crate::config::axr_options::{options_section, AxrOptions};
use crate::config::ltx_parser::LtxView;
use crate::config::user_ltx::{UserLtx, UserLtxView};
use vstd::prelude::*;

verus! {

/// Where an option is stored.
pub enum OptionStorage {
    /// In the section `options` of `axr_options.ltx`, under the option's path.
    AxrOptions,
    /// In `user.ltx`, as the console command `cmd`.
    UserLtx { cmd: String },
}

/// A new value for one option.
pub struct OptionChange {
    /// The option's path.
    pub path: String,
    /// The value to store.
    pub value: String,
    /// Where the option is stored.
    pub storage: OptionStorage,
}

/// The options document after the changes, in order.
pub open spec fn changed_options(doc: LtxView, changes: Seq<OptionChange>) -> LtxView
    decreases changes.len(),
{
    if changes.len() == 0 {
        doc
    } else {
        let before = changed_options(doc, changes.drop_last());
        match changes.last().storage {
            OptionStorage::AxrOptions => before.set(
                options_section(),
                changes.last().path@,
                Some(changes.last().value@),
            ),
            OptionStorage::UserLtx { cmd } => before,
        }
    }
}

/// The command file after the changes, in order.
pub open spec fn changed_commands(doc: UserLtxView, changes: Seq<OptionChange>) -> UserLtxView
    decreases changes.len(),
{
    if changes.len() == 0 {
        doc
    } else {
        let before = changed_commands(doc, changes.drop_last());
        match changes.last().storage {
            OptionStorage::AxrOptions => before,
            OptionStorage::UserLtx { cmd } => before.set(cmd@, changes.last().value@),
        }
    }
}

/// Whether one of the changes goes to the options document.
pub open spec fn touches_options(changes: Seq<OptionChange>) -> bool {
    exists|i: int| 0 <= i < changes.len() && (#[trigger] changes[i]).storage is AxrOptions
}

/// Whether one of the changes goes to the command file.
pub open spec fn touches_commands(changes: Seq<OptionChange>) -> bool {
    exists|i: int| 0 <= i < changes.len() && (#[trigger] changes[i]).storage is UserLtx
}

/// Which of the two files have to be saved.
pub struct Dirty {
    /// Whether the options document was changed.
    pub axr: bool,
    /// Whether the command file was changed.
    pub user: bool,
}

/// Applies `changes`, in order, each to the file that stores its option,
/// and says which files have to be saved.
pub fn apply_changes(axr: &mut AxrOptions, user: &mut UserLtx, changes: &Vec<OptionChange>) -> (r:
    Dirty)
    ensures
        final(axr)@ == changed_options(old(axr)@, changes@),
        final(user)@ == changed_commands(old(user)@, changes@),
        r.axr == touches_options(changes@),
        r.user == touches_commands(changes@),
{
    let mut dirty = Dirty { axr: false, user: false };
    let mut i: usize = 0;
    assert(changes@.take(0) == Seq::<OptionChange>::empty());
    while i < changes.len()
        invariant
            i <= changes.len(),
            axr@ == changed_options(old(axr)@, changes@.take(i as int)),
            user@ == changed_commands(old(user)@, changes@.take(i as int)),
            dirty.axr == touches_options(changes@.take(i as int)),
            dirty.user == touches_commands(changes@.take(i as int)),
        decreases changes.len() - i,
    {
        let ghost head = changes@.take(i as int);
        let ghost next = changes@.take(i as int + 1);
        proof {
            assert(next.drop_last() == head);
            assert(next.last() == changes@[i as int]);
            assert forall|k: int| 0 <= k < head.len() implies head[k] == next[k] by {}
        }
        let change = &changes[i];
        match &change.storage {
            OptionStorage::AxrOptions => {
                axr.set(change.path.as_str(), change.value.as_str());
                dirty.axr = true;
                proof {
                    assert(next[i as int].storage is AxrOptions);
                    if touches_commands(next) {
                        let k = choose|k: int|
                            0 <= k < next.len() && (#[trigger] next[k]).storage is UserLtx;
                        assert(head[k].storage is UserLtx);
                    }
                    if touches_commands(head) {
                        let k = choose|k: int|
                            0 <= k < head.len() && (#[trigger] head[k]).storage is UserLtx;
                        assert(next[k].storage is UserLtx);
                    }
                }
            },
            OptionStorage::UserLtx { cmd } => {
                user.set(cmd.as_str(), change.value.as_str());
                dirty.user = true;
                proof {
                    assert(next[i as int].storage is UserLtx);
                    if touches_options(next) {
                        let k = choose|k: int|
                            0 <= k < next.len() && (#[trigger] next[k]).storage is AxrOptions;
                        assert(head[k].storage is AxrOptions);
                    }
                    if touches_options(head) {
                        let k = choose|k: int|
                            0 <= k < head.len() && (#[trigger] head[k]).storage is AxrOptions;
                        assert(next[k].storage is AxrOptions);
                    }
                }
            },
        }
        i += 1;
    }
    assert(changes@.take(changes.len() as int) == changes@);
    dirty
}

} // verus!
