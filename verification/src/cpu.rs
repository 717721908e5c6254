//! Per-hart bookkeeping.

use vstd::prelude::*;

verus! {

/// State one hart keeps about what it is running: the index of the
/// current process in the process table.
pub struct CPU {
    pub current_proc: usize,
}

/// Number of harts the kernel keeps records for.
pub const MAX_HARTS: usize = 4;

} // verus!
