//! How many workers a render is shared out among when the caller names no
//! number: one for each processor of the host.

use vstd::prelude::*;

verus! {

/// `num_cpus::get`: the number of logical processors that this process may
/// run on. It is read from the host anew at every call, so nothing is
/// claimed of the result.
#[verifier::external_body]
fn logical_cpus() -> (count: usize) {
    num_cpus::get()
}

/// The worker count for a host on which `cpus` processors were counted: one
/// worker for each, and one worker where none was counted.
pub fn workers_for(cpus: usize) -> (workers: usize)
    ensures
        workers == if cpus == 0 {
            1
        } else {
            cpus as int
        },
{
    if cpus == 0 {
        1
    } else {
        cpus
    }
}

/// The worker count to use where the caller names none: the processors of
/// the host, and never less than one.
pub fn default_workers() -> (workers: usize)
    ensures
        workers >= 1,
{
    workers_for(logical_cpus())
}

} // verus!
