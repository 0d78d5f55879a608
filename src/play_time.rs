use vstd::prelude::*;

verus! {

/// The largest value the counter can hold.
pub open spec fn counter_max() -> int {
    u64::MAX as int
}

/// `v` clamped into the range a counter can hold.
pub open spec fn clamp_counter(v: int) -> int {
    if v < 0 {
        0
    } else if v > counter_max() {
        counter_max()
    } else {
        v
    }
}

/// Merges the accumulated play time: the remote total plus the time played
/// locally since the base, never below zero.
pub fn merge_play_time(base: u64, local: u64, remote: u64) -> (r: u64)
    ensures
        r as int == clamp_counter(remote as int + (local as int - base as int)),
{
    if local >= base {
        remote.saturating_add(local - base)
    } else {
        remote.saturating_sub(base - local)
    }
}

/// An upload that played no time since its base leaves the remote total as
/// it is.
pub proof fn lemma_idle_upload_keeps_total(base: u64, remote: u64)
    ensures
        clamp_counter(remote as int + (base as int - base as int)) == remote as int,
{
}

} // verus!
