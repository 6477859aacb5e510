//! Decisions of the polling scheduler.
//!
//! The scheduler alternates between sleeping and running one fetch cycle.
//! The loop itself performs I/O and lives outside the library; the two
//! decisions it needs — how long to sleep, and which API key to use next —
//! are computed here.

use vstd::prelude::*;

verus! {

/// How long the scheduler should sleep before the next fetch cycle: the
/// remainder of `interval` seconds after `last_fetch`, or zero if that
/// instant has already passed.
pub fn sleep_duration(last_fetch: u64, interval: u64, now: u64) -> (sleep: u64)
    requires
        last_fetch + interval <= u64::MAX,
    ensures
        sleep == if last_fetch + interval >= now {
            last_fetch + interval - now
        } else {
            0
        },
{
    let target = last_fetch + interval;
    if target >= now {
        target - now
    } else {
        0
    }
}

/// The index of the API key to use on the next cycle: the keys rotate in
/// round-robin order.
pub fn next_key_index(index: usize, len: usize) -> (next: usize)
    requires
        index < len,
    ensures
        next == (index + 1) % (len as int),
        next < len,
{
    if index + 1 == len {
        proof {
            vstd::arithmetic::div_mod::lemma_mod_self_0(len as int);
        }
        0
    } else {
        proof {
            vstd::arithmetic::div_mod::lemma_small_mod((index + 1) as nat, len as nat);
        }
        index + 1
    }
}

} // verus!
