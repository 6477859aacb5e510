//! Events the session store emits for an optional notification subscriber.
//!
//! Delivery (a non-blocking channel towards a chat client) happens outside
//! the library; the store only returns the event that a mutation produced,
//! if any. The helper below prepares the duration display that the
//! subscriber shows for an offline announcement.

use vstd::prelude::*;

verus! {

/// A presence transition observed by the session store.
pub enum BroadcastEvent {
    /// The user came online; `resumed` tells whether an earlier record was
    /// reopened (a gap shorter than the merge window) rather than a new
    /// session started.
    Online { user: String, resumed: bool },
    /// The user went offline after being online for `duration_ms`
    /// milliseconds, measured from the `beginning` of the closed record.
    Offline { user: String, duration_ms: u64 },
}

/// The payload of a [`BroadcastEvent`] without the user it concerns: the
/// shape contracts use to state which events a cycle emits.
pub enum EventKind {
    Online { resumed: bool },
    Offline { duration_ms: u64 },
}

/// The mathematical value of an event: whom it concerns, and what happened.
pub open spec fn event_view(e: BroadcastEvent) -> (Seq<char>, EventKind) {
    match e {
        BroadcastEvent::Online { user, resumed } => (user@, EventKind::Online { resumed }),
        BroadcastEvent::Offline { user, duration_ms } => (
            user@,
            EventKind::Offline { duration_ms },
        ),
    }
}

/// Splits a duration in seconds into whole hours, leftover minutes and
/// leftover seconds, for `hh:mm:ss` display.
pub fn duration_hms(total_secs: u64) -> (hms: (u64, u64, u64))
    ensures
        hms.0 == total_secs / 3600,
        hms.1 == (total_secs / 60) % 60,
        hms.2 == total_secs % 60,
        hms.0 * 3600 + hms.1 * 60 + hms.2 == total_secs,
        hms.1 < 60,
        hms.2 < 60,
{
    let hours = total_secs / 3600;
    let minutes = (total_secs / 60) % 60;
    let seconds = total_secs % 60;
    proof {
        lemma_hms_recompose(total_secs);
    }
    (hours, minutes, seconds)
}

proof fn lemma_hms_recompose(t: u64)
    ensures
        (t / 3600) * 3600 + ((t / 60) % 60) * 60 + t % 60 == t,
{
    let m = t / 60;
    vstd::arithmetic::div_mod::lemma_fundamental_div_mod(t as int, 60);
    vstd::arithmetic::div_mod::lemma_fundamental_div_mod(m as int, 60);
    assert(t / 3600 == m / 60) by {
        vstd::arithmetic::div_mod::lemma_div_denominator(t as int, 60, 60);
    }
}

} // verus!
