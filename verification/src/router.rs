//! The query router: a leading sigil in the raw input selects the search
//! mode, and the query the providers see is the input with the sigil
//! stripped. The detection is re-run on every keystroke, so deleting the
//! sigil reverts to application search on the next change.

use vstd::prelude::*;

use crate::search_mode::SearchMode;

verus! {

/// The sigil selecting file search.
pub const FILES_SIGIL: char = '/';

/// The sigil selecting the command registry.
pub const RUN_SIGIL: char = ':';

/// Routes raw input to a mode and the query to search for: `/` routes to
/// file search and `:` to the command registry, each with the sigil
/// stripped; anything else is an application query, unchanged.
pub fn route(raw_input: &str) -> (r: (SearchMode, String))
    ensures
        raw_input@.len() > 0 && raw_input@[0] == FILES_SIGIL ==> r.0 == SearchMode::Files && r.1@
            == raw_input@.skip(1),
        raw_input@.len() > 0 && raw_input@[0] == RUN_SIGIL ==> r.0 == SearchMode::Run && r.1@
            == raw_input@.skip(1),
        raw_input@.len() == 0 || (raw_input@[0] != FILES_SIGIL && raw_input@[0] != RUN_SIGIL)
            ==> r.0 == SearchMode::Apps && r.1@ == raw_input@,
{
    let n = raw_input.unicode_len();
    if n > 0 {
        let first = raw_input.get_char(0);
        if first == FILES_SIGIL {
            let rest = raw_input.substring_char(1, n);
            proof {
                assert(rest@ =~= raw_input@.skip(1));
            }
            return (SearchMode::Files, rest.to_owned());
        }
        if first == RUN_SIGIL {
            let rest = raw_input.substring_char(1, n);
            proof {
                assert(rest@ =~= raw_input@.skip(1));
            }
            return (SearchMode::Run, rest.to_owned());
        }
    }
    (SearchMode::Apps, raw_input.to_owned())
}

} // verus!
