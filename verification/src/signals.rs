//! Where a forwarded signal is sent.

use vstd::prelude::*;

verus! {

/// The number that addresses the whole process group of `pgid` when a signal is sent.
pub fn group_target(pgid: i32) -> (r: i32)
    requires
        pgid > i32::MIN,
    ensures
        r == -pgid,
{
    -pgid
}

} // verus!
