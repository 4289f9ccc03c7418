//! How the process leaves after handing the whole command to git.
use vstd::prelude::*;

verus! {

/// The exit code to leave with after git ran: git's own code where it fits in a byte,
/// otherwise 1 (git was stopped by a signal, or its code is out of range).
pub fn exit_code(code: Option<i32>) -> (r: u8)
    ensures
        r == match code {
            Some(c) => if 0 <= c <= 255 {
                c as u8
            } else {
                1u8
            },
            None => 1u8,
        },
{
    match code {
        Some(c) => if 0 <= c && c <= 255 {
            c as u8
        } else {
            1
        },
        None => 1,
    }
}

} // verus!
