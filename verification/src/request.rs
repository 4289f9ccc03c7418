//! Whether a `worktree add` request can be accelerated at all.
use vstd::prelude::*;

verus! {

/// Why a request cannot be accelerated, if it cannot be: `--no-cow` asks for a plain
/// checkout, `SPROUT_DISABLE=1` turns the tool off, `--no-checkout` leaves nothing to
/// clone, and `--orphan` has no tree to clone. The first that applies is the reason.
pub fn decline(no_cow: bool, disabled: bool, checkout: bool, orphan: bool) -> (r: Option<String>)
    ensures
        no_cow ==> (r matches Some(reason) && reason@ == "--no-cow"@),
        !no_cow && disabled ==> (r matches Some(reason) && reason@ == "SPROUT_DISABLE=1"@),
        !no_cow && !disabled && !checkout ==> (r matches Some(reason) && reason@ == "--no-checkout"@),
        !no_cow && !disabled && checkout && orphan ==> (r matches Some(reason) && reason@ == "--orphan"@),
        !no_cow && !disabled && checkout && !orphan ==> r is None,
{
    if no_cow {
        return Some("--no-cow".to_owned());
    }
    if disabled {
        return Some("SPROUT_DISABLE=1".to_owned());
    }
    if !checkout {
        return Some("--no-checkout".to_owned());
    }
    if orphan {
        return Some("--orphan".to_owned());
    }
    None
}

} // verus!
