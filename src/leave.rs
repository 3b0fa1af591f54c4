//! Help entries of the commands that make the bot leave a room or stop.
use vstd::prelude::*;
use crate::common::{entry_views, prefix_or_empty, prepend_prefix};

verus! {

/// The help entries of the leave and shutdown commands, behind `prefix`.
pub open spec fn help_entries(prefix: Seq<char>) -> Seq<(Seq<char>, Seq<char>)> {
    seq![
        (prefix + "leave"@, "Leave the current room"@),
        (prefix + "shutdown"@, "Shutdown the bot completely"@),
    ]
}

pub fn help_str(prefix: Option<&str>) -> (r: Vec<(String, String)>)
    ensures
        entry_views(r@) == help_entries(prefix_or_empty(prefix)),
{
    let without_prefix = [
        ("leave", "Leave the current room"),
        ("shutdown", "Shutdown the bot completely"),
    ];
    let r = prepend_prefix(prefix, &without_prefix);
    assert(entry_views(r@) =~= help_entries(prefix_or_empty(prefix)));
    r
}

} // verus!
