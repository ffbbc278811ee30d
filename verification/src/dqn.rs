use vstd::prelude::*;

verus! {

/// An update is made only once the replay memory holds a whole batch.
pub fn ready_to_train(memory_len: usize, batch: usize) -> (ready: bool)
    ensures
        ready == (memory_len >= batch),
{
    memory_len >= batch
}

/// Whether `n` is a multiple of `m`; only zero is a multiple of zero.
pub open spec fn multiple_of(n: u64, m: u64) -> bool {
    if m == 0 {
        n == 0
    } else {
        n % m == 0
    }
}

/// The bookkeeping after one update: the update count goes up by one, and
/// the target network is synced with the online one whenever the new count
/// is a multiple of `target_sync`.
pub fn after_update(steps: u64, target_sync: u64) -> (r: (u64, bool))
    requires
        steps < u64::MAX,
    ensures
        r.0 == steps + 1,
        r.1 == multiple_of(r.0, target_sync),
{
    let next = steps + 1;
    let sync = if target_sync == 0 {
        next == 0
    } else {
        next % target_sync == 0
    };
    (next, sync)
}

} // verus!
