//! The session store: per-user timelines of session records, and the rules
//! that apply one polling cycle's login/logout sample to them.
//!
//! The external presence source only reports point-in-time "last login" and
//! "last logout" instants, so the store reconstructs session intervals from
//! them: a login sample either starts a record, supersedes a still-open one,
//! reopens a recently closed one (a gap below the merge window is treated as
//! polling noise), or is ignored as a duplicate; a logout sample closes the
//! open record unless it is stale. All timestamps are Unix milliseconds.

use vstd::prelude::*;

use crate::discord::BroadcastEvent;
use crate::discord::EventKind;
use crate::discord::event_view;

verus! {

/// One contiguous (or merged) interval of presence for one user.
///
/// `beginning` is the start of the record as currently known;
/// `session_begin` is the start of the current unbroken sub-session and is
/// used to reject stale or duplicate samples; `end` is absent while the
/// user is online.
#[derive(Clone, Copy, Debug)]
pub struct Record {
    pub beginning: u64,
    pub session_begin: u64,
    pub end: Option<u64>,
}

/// One cycle's sample for one user, as the presence source reports it.
#[derive(Clone, Copy, Debug)]
pub struct Fetched {
    pub last_login: u64,
    pub last_logout: u64,
}

/// The record a fresh login sample opens.
pub open spec fn fresh_record(time: u64) -> Record {
    Record { beginning: time, session_begin: time, end: None }
}

/// Internal consistency of a single record: the tracked sub-session starts
/// no earlier than the record, and a closed record ends no earlier than its
/// sub-session started.
pub open spec fn record_wf(r: Record) -> bool {
    &&& r.beginning <= r.session_begin
    &&& r.end matches Some(e) ==> r.session_begin <= e
}

/// Well-formedness of one user's timeline: every record is consistent, and
/// every record except possibly the last one is closed — so at most one
/// record is open, and it is the last.
pub open spec fn timeline_wf(tl: Seq<Record>) -> bool {
    &&& forall|i: int| 0 <= i < tl.len() ==> record_wf(#[trigger] tl[i])
    &&& forall|i: int| 0 <= i < tl.len() - 1 ==> (#[trigger] tl[i].end) is Some
}

/// Whether a timeline currently shows the user online: it is non-empty and
/// its last record is open.
pub open spec fn timeline_online(tl: Seq<Record>) -> bool {
    tl.len() > 0 && tl.last().end is None
}

/// What a login sample at `time` does to a timeline, with a merge window of
/// `merge_ms` milliseconds. In order: an empty timeline gains a fresh open
/// record; a sample equal to the tracked sub-session start is a duplicate
/// and does nothing; a still-open last record is superseded by a fresh one;
/// a last record closed less than `merge_ms` before `time` is reopened with
/// its `beginning` kept; anything else appends a fresh open record.
pub open spec fn login_spec(tl: Seq<Record>, time: u64, merge_ms: u64) -> Seq<Record> {
    if tl.len() == 0 {
        seq![fresh_record(time)]
    } else {
        let last = tl.last();
        if last.session_begin == time {
            tl
        } else if last.end is None {
            tl.update(tl.len() - 1, fresh_record(time))
        } else if last.end->0 <= time && time - last.end->0 < merge_ms {
            tl.update(
                tl.len() - 1,
                Record { beginning: last.beginning, session_begin: time, end: None },
            )
        } else {
            tl.push(fresh_record(time))
        }
    }
}

/// The event a login sample emits: `None` for the duplicate no-op,
/// `Some(true)` when a closed record is reopened (a resumed session),
/// `Some(false)` when a fresh record is opened.
pub open spec fn login_event_spec(tl: Seq<Record>, time: u64, merge_ms: u64) -> Option<bool> {
    if tl.len() == 0 {
        Some(false)
    } else {
        let last = tl.last();
        if last.session_begin == time {
            None
        } else if last.end is None {
            Some(false)
        } else if last.end->0 <= time && time - last.end->0 < merge_ms {
            Some(true)
        } else {
            Some(false)
        }
    }
}

/// Whether a logout sample at `time` (whose cycle reported a login at
/// `login`) is ignored: the sample is inconsistent (`time < login`), there
/// is nothing to close, or the logout predates the tracked sub-session.
pub open spec fn logout_ignored(tl: Seq<Record>, time: u64, login: u64) -> bool {
    ||| time < login
    ||| tl.len() == 0
    ||| tl.last().end is Some
    ||| time < tl.last().session_begin
}

/// What a logout sample does to a timeline: unless ignored, it closes the
/// open last record at `time`.
pub open spec fn logout_spec(tl: Seq<Record>, time: u64, login: u64) -> Seq<Record> {
    if logout_ignored(tl, time, login) {
        tl
    } else {
        let last = tl.last();
        tl.update(
            tl.len() - 1,
            Record { beginning: last.beginning, session_begin: last.session_begin, end: Some(time) },
        )
    }
}

/// Applies a login sample to one timeline; returns `Some(resumed)` when an
/// "online" event should be emitted.
pub fn apply_login(records: &mut Vec<Record>, time: u64, merge_ms: u64) -> (emitted: Option<bool>)
    ensures
        final(records)@ == login_spec(old(records)@, time, merge_ms),
        emitted == login_event_spec(old(records)@, time, merge_ms),
        timeline_wf(old(records)@) ==> timeline_wf(final(records)@),
{
    let n = records.len();
    if n == 0 {
        records.push(Record { beginning: time, session_begin: time, end: None });
        proof {
            assert(final(records)@ =~= login_spec(old(records)@, time, merge_ms));
        }
        return Some(false);
    }
    let last = records[n - 1];
    if last.session_begin == time {
        return None;
    }
    match last.end {
        None => {
            records[n - 1] = Record { beginning: time, session_begin: time, end: None };
            Some(false)
        }
        Some(e) => {
            if e <= time && time - e < merge_ms {
                records[n - 1] = Record {
                    beginning: last.beginning,
                    session_begin: time,
                    end: None,
                };
                Some(true)
            } else {
                records.push(Record { beginning: time, session_begin: time, end: None });
                Some(false)
            }
        }
    }
}

/// One tracked user: an identifier and the ordered timeline of their
/// session records.
#[derive(Debug)]
pub struct UserEntry {
    pub name: String,
    pub records: Vec<Record>,
}

/// The session store: when the last and the first fetch cycle ran (Unix
/// seconds), and every tracked user's timeline.
#[derive(Debug)]
pub struct Storage {
    pub last_fetch: u64,
    pub first_fetch: u64,
    pub users: Vec<UserEntry>,
}

/// The mathematical value of a [`UserEntry`].
#[verifier::ext_equal]
pub struct UserView {
    pub name: Seq<char>,
    pub records: Seq<Record>,
}

/// The mathematical value of a [`Storage`].
#[verifier::ext_equal]
pub struct StorageView {
    pub last_fetch: u64,
    pub first_fetch: u64,
    pub users: Seq<UserView>,
}

impl View for UserEntry {
    type V = UserView;

    open spec fn view(&self) -> UserView {
        UserView { name: self.name@, records: self.records@ }
    }
}

impl View for Storage {
    type V = StorageView;

    open spec fn view(&self) -> StorageView {
        StorageView {
            last_fetch: self.last_fetch,
            first_fetch: self.first_fetch,
            users: Seq::new(self.users@.len(), |i: int| self.users@[i]@),
        }
    }
}

/// Whether some entry carries `name`.
pub open spec fn has_user(users: Seq<UserView>, name: Seq<char>) -> bool {
    exists|i: int| 0 <= i < users.len() && users[i].name == name
}

/// The index of the entry carrying `name`, or `-1` when there is none.
/// Well-defined on a well-formed store, whose names are distinct.
pub open spec fn user_index(users: Seq<UserView>, name: Seq<char>) -> int {
    if has_user(users, name) {
        choose|i: int| 0 <= i < users.len() && users[i].name == name
    } else {
        -1
    }
}

/// The timeline stored for `name`: empty when the user is unknown.
pub open spec fn timeline_of(users: Seq<UserView>, name: Seq<char>) -> Seq<Record> {
    if has_user(users, name) {
        users[user_index(users, name)].records
    } else {
        Seq::empty()
    }
}

/// Well-formedness of a set of user entries: every timeline is well-formed
/// and user names are distinct.
pub open spec fn users_wf(users: Seq<UserView>) -> bool {
    &&& forall|i: int| 0 <= i < users.len() ==> timeline_wf(#[trigger] users[i].records)
    &&& forall|i: int, j: int| 0 <= i < j < users.len() ==> users[i].name != users[j].name
}

impl StorageView {
    /// Well-formedness of the whole store: every timeline is well-formed
    /// and user names are distinct.
    pub open spec fn wf(self) -> bool {
        users_wf(self.users)
    }
}

/// The user entries after a login sample for `name`: the rules of
/// [`login_spec`] applied to `name`'s timeline, a previously unseen `name`
/// gaining a fresh entry at the end.
pub open spec fn login_users_spec(
    users: Seq<UserView>,
    name: Seq<char>,
    time: u64,
    merge_ms: u64,
) -> Seq<UserView> {
    if has_user(users, name) {
        users.update(
            user_index(users, name),
            (UserView { name, records: login_spec(timeline_of(users, name), time, merge_ms) }),
        )
    } else {
        users.push(
            (UserView { name, records: login_spec(timeline_of(users, name), time, merge_ms) }),
        )
    }
}

/// The user entries after a logout sample for `name`: the rules of
/// [`logout_spec`] applied to `name`'s timeline; a previously unseen `name`
/// leaves the store untouched.
pub open spec fn logout_users_spec(
    users: Seq<UserView>,
    name: Seq<char>,
    time: u64,
    login: u64,
) -> Seq<UserView> {
    if has_user(users, name) {
        users.update(
            user_index(users, name),
            (UserView { name, records: logout_spec(timeline_of(users, name), time, login) }),
        )
    } else {
        users
    }
}

proof fn lemma_user_index_is(users: Seq<UserView>, name: Seq<char>, i: int)
    requires
        0 <= i < users.len(),
        users[i].name == name,
        forall|p: int, q: int| 0 <= p < q < users.len() ==> users[p].name != users[q].name,
    ensures
        has_user(users, name),
        user_index(users, name) == i,
        timeline_of(users, name) == users[i].records,
{
    assert(has_user(users, name));
    let j = user_index(users, name);
    if i < j {
        assert(users[i].name != users[j].name);
    } else if j < i {
        assert(users[j].name != users[i].name);
    }
}

impl Storage {
    /// Well-formedness of the store; every public operation preserves it.
    pub open spec fn wf(self) -> bool {
        self@.wf()
    }

    /// Looks `username` up among the entries, returning the index of its
    /// entry if there is one.
    fn find_user_idx(&self, username: &str) -> (found: Option<usize>)
        ensures
            (match found {
                Some(i) => {
                    &&& i < self@.users.len()
                    &&& self@.users[i as int].name == username@
                    &&& forall|j: int| 0 <= j < i ==> self@.users[j].name != username@
                },
                None => forall|j: int|
                    0 <= j < self@.users.len() ==> self@.users[j].name != username@,
            }),
    {
        let n = self.users.len();
        let mut idx: usize = 0;
        while idx < n
            invariant
                idx <= n,
                n == self.users.len(),
                forall|j: int| 0 <= j < idx ==> self@.users[j].name != username@,
            decreases n - idx,
        {
            if str_eq(self.users[idx].name.as_str(), username) {
                return Some(idx);
            }
            idx += 1;
        }
        None
    }

    /// Whether the store currently shows `user` online: their timeline is
    /// non-empty and its last record is open.
    pub fn is_online(&self, user: &str) -> (online: bool)
        requires
            self.wf(),
        ensures
            online == timeline_online(timeline_of(self@.users, user@)),
    {
        match self.find_user_idx(user) {
            Some(i) => {
                proof {
                    lemma_user_index_is(self@.users, user@, i as int);
                }
                let n = self.users[i].records.len();
                n > 0 && self.users[i].records[n - 1].end.is_none()
            }
            None => false,
        }
    }

    /// Applies one cycle's login sample for `username` (rules in
    /// [`login_spec`]); returns the "online" event to emit, if any.
    pub fn push_beginning(&mut self, username: String, time: u64, merge_ms: u64) -> (event: Option<
        BroadcastEvent,
    >)
        requires
            old(self).wf(),
        ensures
            final(self).wf(),
            final(self)@.last_fetch == old(self)@.last_fetch,
            final(self)@.first_fetch == old(self)@.first_fetch,
            final(self)@.users == login_users_spec(old(self)@.users, username@, time, merge_ms),
            (match event {
                None => login_event_spec(
                    timeline_of(old(self)@.users, username@),
                    time,
                    merge_ms,
                ) is None,
                Some(BroadcastEvent::Online { user, resumed }) => {
                    &&& login_event_spec(timeline_of(old(self)@.users, username@), time, merge_ms)
                        == Some(resumed)
                    &&& user@ == username@
                },
                Some(BroadcastEvent::Offline { .. }) => false,
            }),
    {
        let ghost prev = self@.users;
        match self.find_user_idx(username.as_str()) {
            Some(i) => {
                proof {
                    lemma_user_index_is(prev, username@, i as int);
                }
                let emitted = apply_login(&mut self.users[i].records, time, merge_ms);
                proof {
                    assert(self@.users =~= prev.update(
                        i as int,
                        UserView {
                            name: username@,
                            records: login_spec(timeline_of(prev, username@), time, merge_ms),
                        },
                    ));
                }
                match emitted {
                    None => None,
                    Some(resumed) => Some(BroadcastEvent::Online { user: username, resumed }),
                }
            }
            None => {
                let name_for_event = username.clone();
                let mut records: Vec<Record> = Vec::new();
                records.push(Record { beginning: time, session_begin: time, end: None });
                self.users.push(UserEntry { name: username, records });
                proof {
                    assert(!has_user(prev, name_for_event@));
                    assert(self@.users =~= prev.push(
                        UserView {
                            name: name_for_event@,
                            records: login_spec(
                                timeline_of(prev, name_for_event@),
                                time,
                                merge_ms,
                            ),
                        },
                    ));
                }
                Some(BroadcastEvent::Online { user: name_for_event, resumed: false })
            }
        }
    }

    /// Applies one cycle's logout sample for `username` (rules in
    /// [`logout_spec`]); returns the "offline" event to emit, if any. The
    /// sample carries the login instant `login` of the same cycle so that
    /// an inconsistent pair (`time < login`) can be rejected.
    pub fn push_logout(&mut self, username: String, time: u64, login: u64) -> (event: Option<
        BroadcastEvent,
    >)
        requires
            old(self).wf(),
        ensures
            final(self).wf(),
            final(self)@.last_fetch == old(self)@.last_fetch,
            final(self)@.first_fetch == old(self)@.first_fetch,
            final(self)@.users == logout_users_spec(old(self)@.users, username@, time, login),
            (match event {
                None => {
                    ||| !has_user(old(self)@.users, username@)
                    ||| logout_ignored(timeline_of(old(self)@.users, username@), time, login)
                },
                Some(BroadcastEvent::Offline { user, duration_ms }) => {
                    &&& has_user(old(self)@.users, username@)
                    &&& !logout_ignored(timeline_of(old(self)@.users, username@), time, login)
                    &&& user@ == username@
                    &&& duration_ms == time - timeline_of(
                        old(self)@.users,
                        username@,
                    ).last().beginning
                },
                Some(BroadcastEvent::Online { .. }) => false,
            }),
    {
        let ghost prev = self@.users;
        match self.find_user_idx(username.as_str()) {
            Some(i) => {
                proof {
                    lemma_user_index_is(prev, username@, i as int);
                }
                let emitted = apply_logout(&mut self.users[i].records, time, login);
                proof {
                    assert(self@.users =~= prev.update(
                        i as int,
                        UserView {
                            name: username@,
                            records: logout_spec(timeline_of(prev, username@), time, login),
                        },
                    ));
                }
                match emitted {
                    None => None,
                    Some(duration_ms) => Some(
                        BroadcastEvent::Offline { user: username, duration_ms },
                    ),
                }
            }
            None => {
                proof {
                    assert(!has_user(prev, username@));
                }
                None
            }
        }
    }
}

/// Applies a logout sample to one timeline; returns the realized duration
/// (`time - beginning` of the closed record) when an "offline" event should
/// be emitted.
pub fn apply_logout(records: &mut Vec<Record>, time: u64, login: u64) -> (emitted: Option<u64>)
    requires
        timeline_wf(old(records)@),
    ensures
        final(records)@ == logout_spec(old(records)@, time, login),
        timeline_wf(final(records)@),
        if logout_ignored(old(records)@, time, login) {
            emitted is None
        } else {
            emitted == Some((time - old(records)@.last().beginning) as u64)
        },
{
    if records.len() == 0 {
        return None;
    }
    if time < login {
        return None;
    }
    let n = records.len();
    let last = records[n - 1];
    if last.end.is_some() {
        return None;
    }
    if time < last.session_begin {
        return None;
    }
    records[n - 1] = Record {
        beginning: last.beginning,
        session_begin: last.session_begin,
        end: Some(time),
    };
    Some(time - last.beginning)
}

/// Relies on `str`'s `PartialEq`: two string slices are equal exactly when
/// their character sequences are.
#[verifier::external_body]
fn str_eq(a: &str, b: &str) -> (r: bool)
    ensures
        r == (a@ == b@),
{
    a == b
}

/// A record counts as expired when it is closed and its end is older than
/// the cutoff instant.
pub open spec fn expired(r: Record, cutoff_ms: u64) -> bool {
    r.end matches Some(e) && e < cutoff_ms
}

/// How many leading records expiry removes from one timeline: every expired
/// record at the front goes, but the last record always stays, so that a
/// user who has been offline past the horizon still shows their most recent
/// session.
pub open spec fn drop_count(tl: Seq<Record>, cutoff_ms: u64) -> int
    decreases tl.len(),
{
    if tl.len() <= 1 {
        0
    } else if expired(tl[0], cutoff_ms) {
        1 + drop_count(tl.drop_first(), cutoff_ms)
    } else {
        0
    }
}

/// What expiry leaves of one timeline.
pub open spec fn expire_spec(tl: Seq<Record>, cutoff_ms: u64) -> Seq<Record> {
    tl.subrange(drop_count(tl, cutoff_ms), tl.len() as int)
}

/// `drop_count` is the first index that is not expired, clamped to keep the
/// last record.
proof fn lemma_drop_count_char(tl: Seq<Record>, cutoff_ms: u64)
    ensures
        0 <= drop_count(tl, cutoff_ms),
        tl.len() == 0 ==> drop_count(tl, cutoff_ms) == 0,
        tl.len() > 0 ==> drop_count(tl, cutoff_ms) <= tl.len() - 1,
        forall|j: int| 0 <= j < drop_count(tl, cutoff_ms) ==> expired(#[trigger] tl[j], cutoff_ms),
        drop_count(tl, cutoff_ms) < tl.len() - 1 ==> !expired(tl[drop_count(tl, cutoff_ms)], cutoff_ms),
    decreases tl.len(),
{
    if tl.len() > 1 && expired(tl[0], cutoff_ms) {
        lemma_drop_count_char(tl.drop_first(), cutoff_ms);
        let dc = drop_count(tl, cutoff_ms);
        assert forall|j: int| 0 <= j < dc implies expired(#[trigger] tl[j], cutoff_ms) by {
            if j > 0 {
                assert(tl[j] == tl.drop_first()[j - 1]);
            }
        }
    }
}

/// LAW: expiry is idempotent — running it a second time with the same
/// cutoff removes nothing more.
pub proof fn lemma_expire_idempotent(tl: Seq<Record>, cutoff_ms: u64)
    ensures
        expire_spec(expire_spec(tl, cutoff_ms), cutoff_ms) == expire_spec(tl, cutoff_ms),
{
    lemma_drop_count_char(tl, cutoff_ms);
    let once = expire_spec(tl, cutoff_ms);
    lemma_drop_count_char(once, cutoff_ms);
    let dc = drop_count(tl, cutoff_ms);
    if once.len() > 1 {
        assert(once[0] == tl[dc]);
        assert(dc < tl.len() - 1);
        assert(!expired(once[0], cutoff_ms));
        assert(drop_count(once, cutoff_ms) == 0);
    }
    assert(expire_spec(once, cutoff_ms) =~= once);
}

/// Decides [`expired`] for one record.
fn record_expired(r: &Record, cutoff_ms: u64) -> (e: bool)
    ensures
        e == expired(*r, cutoff_ms),
{
    match r.end {
        Some(end) => end < cutoff_ms,
        None => false,
    }
}

/// Removes the expired leading records of one timeline, keeping at least
/// the most recent record.
fn expire_timeline(records: &mut Vec<Record>, cutoff_ms: u64)
    ensures
        final(records)@ == expire_spec(old(records)@, cutoff_ms),
        timeline_wf(old(records)@) ==> timeline_wf(final(records)@),
        old(records)@.len() > 0 ==> final(records)@.len() > 0,
{
    proof {
        lemma_drop_count_char(old(records)@, cutoff_ms);
    }
    let n = records.len();
    if n == 0 {
        proof {
            assert(records@ =~= expire_spec(old(records)@, cutoff_ms));
        }
        return;
    }
    let mut k: usize = 0;
    while k < n - 1 && record_expired(&records[k], cutoff_ms)
        invariant
            records == old(records),
            n == records.len(),
            n > 0,
            k <= n - 1,
            forall|j: int| 0 <= j < k ==> expired(#[trigger] records@[j], cutoff_ms),
        decreases n - k,
    {
        k += 1;
    }
    proof {
        let dc = drop_count(records@, cutoff_ms);
        if k < dc {
            assert(expired(records@[k as int], cutoff_ms));
        }
        if dc < k {
            assert(expired(records@[dc], cutoff_ms));
        }
        assert(k == dc);
    }
    let mut removed: usize = 0;
    while removed < k
        invariant
            removed <= k,
            k <= old(records)@.len() - 1,
            records@ == old(records)@.subrange(removed as int, old(records)@.len() as int),
        decreases k - removed,
    {
        records.remove(0);
        removed += 1;
        proof {
            assert(records@ =~= old(records)@.subrange(
                removed as int,
                old(records)@.len() as int,
            ));
        }
    }
}

impl Storage {
    /// Drops every user's expired leading records (rules in
    /// [`expire_spec`]); each non-empty timeline keeps at least its most
    /// recent record. Idempotent and safe to run every cycle.
    pub fn expire(&mut self, cutoff_ms: u64)
        requires
            old(self).wf(),
        ensures
            final(self).wf(),
            final(self)@.last_fetch == old(self)@.last_fetch,
            final(self)@.first_fetch == old(self)@.first_fetch,
            final(self)@.users.len() == old(self)@.users.len(),
            forall|i: int|
                0 <= i < old(self)@.users.len() ==> {
                    &&& (#[trigger] final(self)@.users[i]).name == old(self)@.users[i].name
                    &&& final(self)@.users[i].records == expire_spec(
                        old(self)@.users[i].records,
                        cutoff_ms,
                    )
                },
            forall|i: int|
                0 <= i < old(self)@.users.len() && old(self)@.users[i].records.len() > 0
                    ==> (#[trigger] final(self)@.users[i]).records.len() > 0,
    {
        let n = self.users.len();
        let mut u: usize = 0;
        while u < n
            invariant
                u <= n,
                n == self.users.len(),
                old(self).wf(),
                self@.last_fetch == old(self)@.last_fetch,
                self@.first_fetch == old(self)@.first_fetch,
                self@.users.len() == old(self)@.users.len(),
                forall|i: int|
                    0 <= i < u ==> {
                        &&& (#[trigger] self@.users[i]).name == old(self)@.users[i].name
                        &&& self@.users[i].records == expire_spec(
                            old(self)@.users[i].records,
                            cutoff_ms,
                        )
                        &&& timeline_wf(self@.users[i].records)
                        &&& (old(self)@.users[i].records.len() > 0
                            ==> self@.users[i].records.len() > 0)
                    },
                forall|i: int| u <= i < n ==> self@.users[i] == old(self)@.users[i],
            decreases n - u,
        {
            let ghost before = self@.users;
            expire_timeline(&mut self.users[u].records, cutoff_ms);
            proof {
                assert(self@.users =~~= before.update(
                    u as int,
                    UserView {
                        name: before[u as int].name,
                        records: expire_spec(before[u as int].records, cutoff_ms),
                    },
                ));
            }
            u += 1;
        }
    }

    /// Advances `first_fetch` to `last_fetch` minus the expiry horizon (in
    /// seconds) if that is later; it never moves backwards.
    pub fn advance_first_fetch(&mut self, horizon_secs: u64)
        ensures
            final(self)@.last_fetch == old(self)@.last_fetch,
            final(self)@.users == old(self)@.users,
            final(self)@.first_fetch == (if old(self)@.last_fetch >= horizon_secs
                && old(self)@.last_fetch - horizon_secs > old(self)@.first_fetch {
                old(self)@.last_fetch - horizon_secs
            } else {
                old(self)@.first_fetch as int
            }),
            final(self)@.first_fetch >= old(self)@.first_fetch,
            old(self).wf() ==> final(self).wf(),
    {
        if self.last_fetch >= horizon_secs {
            let anchored = self.last_fetch - horizon_secs;
            if anchored > self.first_fetch {
                self.first_fetch = anchored;
            }
        }
    }

    /// A deep copy of the store, for the read-side snapshot slot: readers
    /// consult such a copy and never the live, mutated store.
    pub fn snapshot(&self) -> (copy: Storage)
        ensures
            copy@ == self@,
    {
        let n = self.users.len();
        let mut users: Vec<UserEntry> = Vec::new();
        let mut u: usize = 0;
        while u < n
            invariant
                u <= n,
                n == self.users.len(),
                users@.len() == u,
                forall|i: int| 0 <= i < u ==> users@[i]@ == self@.users[i],
            decreases n - u,
        {
            let name = self.users[u].name.clone();
            let m = self.users[u].records.len();
            let mut records: Vec<Record> = Vec::new();
            let mut r: usize = 0;
            while r < m
                invariant
                    r <= m,
                    u < n,
                    n == self.users.len(),
                    m == self.users[u as int].records.len(),
                    records@ == self.users[u as int].records@.subrange(0, r as int),
                decreases m - r,
            {
                records.push(self.users[u].records[r]);
                proof {
                    assert(records@ =~= self.users@[u as int].records@.subrange(
                        0,
                        (r + 1) as int,
                    ));
                }
                r += 1;
            }
            proof {
                assert(records@ =~= self.users@[u as int].records@);
            }
            users.push(UserEntry { name, records });
            u += 1;
        }
        let copy = Storage { last_fetch: self.last_fetch, first_fetch: self.first_fetch, users };
        proof {
            assert(copy@ =~~= self@);
        }
        copy
    }

    /// Decides [`Storage::wf`]: whether every timeline is well-formed and
    /// all user names are distinct. Lets state loaded from persistence be
    /// validated before it is used.
    pub fn check_wf(&self) -> (ok: bool)
        ensures
            ok == self.wf(),
    {
        let n = self.users.len();
        let mut u: usize = 0;
        while u < n
            invariant
                u <= n,
                n == self.users.len(),
                forall|i: int| 0 <= i < u ==> timeline_wf(#[trigger] self@.users[i].records),
                forall|i: int, j: int|
                    0 <= i < j < u ==> self@.users[i].name != self@.users[j].name,
            decreases n - u,
        {
            let m = self.users[u].records.len();
            let mut r: usize = 0;
            while r < m
                invariant
                    r <= m,
                    u < n,
                    n == self.users.len(),
                    m == self.users[u as int].records.len(),
                    forall|i: int|
                        0 <= i < r ==> record_wf(#[trigger] self@.users[u as int].records[i]),
                    forall|i: int|
                        0 <= i < r && i < m - 1 ==> (#[trigger] self@.users[u as int].records[i].end) is Some,
                decreases m - r,
            {
                let rec = self.users[u].records[r];
                if rec.beginning > rec.session_begin {
                    proof {
                        assert(!timeline_wf(self@.users[u as int].records));
                    }
                    return false;
                }
                match rec.end {
                    Some(e) => {
                        if e < rec.session_begin {
                            proof {
                                assert(!timeline_wf(self@.users[u as int].records));
                            }
                            return false;
                        }
                    }
                    None => {
                        if r < m - 1 {
                            proof {
                                assert(!timeline_wf(self@.users[u as int].records));
                            }
                            return false;
                        }
                    }
                }
                r += 1;
            }
            let mut v: usize = 0;
            while v < u
                invariant
                    v <= u,
                    u < n,
                    n == self.users.len(),
                    forall|i: int| 0 <= i < v ==> self@.users[i].name != self@.users[u as int].name,
                decreases u - v,
            {
                if self.users[v].name == self.users[u].name {
                    proof {
                        assert(self@.users[v as int].name == self@.users[u as int].name);
                    }
                    return false;
                }
                v += 1;
            }
            u += 1;
        }
        true
    }
}

/// One cycle's sample for one user, applied to the user entries: the login
/// first, then the logout of the same cycle.
pub open spec fn sample_users_spec(
    users: Seq<UserView>,
    name: Seq<char>,
    f: Fetched,
    merge_ms: u64,
) -> Seq<UserView> {
    logout_users_spec(
        login_users_spec(users, name, f.last_login, merge_ms),
        name,
        f.last_logout,
        f.last_login,
    )
}

/// The events one cycle's sample for `name` emits, in order: the "online"
/// event of the login, if any, then the "offline" event of the logout, if
/// it closed the record the login left.
pub open spec fn sample_events_spec(
    users: Seq<UserView>,
    name: Seq<char>,
    f: Fetched,
    merge_ms: u64,
) -> Seq<(Seq<char>, EventKind)> {
    let before = timeline_of(users, name);
    let after_login = login_spec(before, f.last_login, merge_ms);
    let online = (match login_event_spec(before, f.last_login, merge_ms) {
        None => Seq::<(Seq<char>, EventKind)>::empty(),
        Some(resumed) => seq![(name, EventKind::Online { resumed })],
    });
    if logout_ignored(after_login, f.last_logout, f.last_login) {
        online
    } else {
        online.push(
            (
                name,
                EventKind::Offline {
                    duration_ms: (f.last_logout - after_login.last().beginning) as u64,
                },
            ),
        )
    }
}

/// The user entries after a whole cycle's samples are applied in arrival
/// order.
pub open spec fn cycle_users_spec(
    users: Seq<UserView>,
    samples: Seq<(Seq<char>, Fetched)>,
    merge_ms: u64,
) -> Seq<UserView>
    decreases samples.len(),
{
    if samples.len() == 0 {
        users
    } else {
        cycle_users_spec(
            sample_users_spec(users, samples[0].0, samples[0].1, merge_ms),
            samples.drop_first(),
            merge_ms,
        )
    }
}

/// The events a whole cycle emits, in arrival order.
pub open spec fn cycle_events_spec(
    users: Seq<UserView>,
    samples: Seq<(Seq<char>, Fetched)>,
    merge_ms: u64,
) -> Seq<(Seq<char>, EventKind)>
    decreases samples.len(),
{
    if samples.len() == 0 {
        Seq::empty()
    } else {
        sample_events_spec(users, samples[0].0, samples[0].1, merge_ms)
            + cycle_events_spec(
            sample_users_spec(users, samples[0].0, samples[0].1, merge_ms),
            samples.drop_first(),
            merge_ms,
        )
    }
}

/// Every user entry after expiry ran over the whole store.
pub open spec fn expire_users_spec(users: Seq<UserView>, cutoff_ms: u64) -> Seq<UserView> {
    Seq::new(
        users.len(),
        |i: int|
            UserView { name: users[i].name, records: expire_spec(users[i].records, cutoff_ms) },
    )
}

/// The expiry cutoff instant: `horizon_secs` before `now_secs`, clamped at
/// the epoch, in milliseconds.
pub open spec fn cutoff_spec(now_secs: u64, horizon_secs: u64) -> u64 {
    if now_secs > horizon_secs {
        ((now_secs - horizon_secs) * 1000) as u64
    } else {
        0
    }
}

/// Processing one more sample extends the fold from the left.
proof fn lemma_cycle_snoc(
    users: Seq<UserView>,
    samples: Seq<(Seq<char>, Fetched)>,
    x: (Seq<char>, Fetched),
    merge_ms: u64,
)
    ensures
        cycle_users_spec(users, samples.push(x), merge_ms) == sample_users_spec(
            cycle_users_spec(users, samples, merge_ms),
            x.0,
            x.1,
            merge_ms,
        ),
        cycle_events_spec(users, samples.push(x), merge_ms) == cycle_events_spec(
            users,
            samples,
            merge_ms,
        ) + sample_events_spec(cycle_users_spec(users, samples, merge_ms), x.0, x.1, merge_ms),
    decreases samples.len(),
{
    if samples.len() == 0 {
        let usersx = sample_users_spec(users, x.0, x.1, merge_ms);
        assert(samples.push(x)[0] == x);
        assert(samples.push(x).drop_first() =~= samples);
        assert(cycle_users_spec(users, samples.push(x), merge_ms) == cycle_users_spec(
            usersx,
            samples,
            merge_ms,
        ));
        assert(cycle_users_spec(usersx, samples, merge_ms) == usersx);
        assert(cycle_users_spec(users, samples, merge_ms) == users);
        assert(cycle_events_spec(users, samples.push(x), merge_ms) == sample_events_spec(
            users,
            x.0,
            x.1,
            merge_ms,
        ) + cycle_events_spec(usersx, samples, merge_ms));
        assert(cycle_events_spec(usersx, samples, merge_ms) == Seq::<(Seq<char>, EventKind)>::empty());
        assert(cycle_events_spec(users, samples, merge_ms) == Seq::<(
            Seq<char>,
            EventKind,
        )>::empty());
        assert(cycle_events_spec(users, samples.push(x), merge_ms) =~= cycle_events_spec(
            users,
            samples,
            merge_ms,
        ) + sample_events_spec(users, x.0, x.1, merge_ms));
    } else {
        let users1 = sample_users_spec(users, samples[0].0, samples[0].1, merge_ms);
        assert(samples.push(x)[0] == samples[0]);
        assert(samples.push(x).drop_first() =~= samples.drop_first().push(x));
        assert(cycle_users_spec(users, samples.push(x), merge_ms) == cycle_users_spec(
            users1,
            samples.drop_first().push(x),
            merge_ms,
        ));
        assert(cycle_events_spec(users, samples.push(x), merge_ms) == sample_events_spec(
            users,
            samples[0].0,
            samples[0].1,
            merge_ms,
        ) + cycle_events_spec(users1, samples.drop_first().push(x), merge_ms));
        lemma_cycle_snoc(users1, samples.drop_first(), x, merge_ms);
        assert(cycle_events_spec(users, samples.push(x), merge_ms) =~= cycle_events_spec(
            users,
            samples,
            merge_ms,
        ) + sample_events_spec(cycle_users_spec(users, samples, merge_ms), x.0, x.1, merge_ms));
    }
}

/// After a login sample for `name` is applied, `name`'s stored timeline is
/// exactly what [`login_spec`] says (names being distinct).
proof fn lemma_timeline_after_login(
    users: Seq<UserView>,
    name: Seq<char>,
    time: u64,
    merge_ms: u64,
)
    requires
        forall|p: int, q: int| 0 <= p < q < users.len() ==> users[p].name != users[q].name,
    ensures
        timeline_of(login_users_spec(users, name, time, merge_ms), name) == login_spec(
            timeline_of(users, name),
            time,
            merge_ms,
        ),
{
    let updated = login_users_spec(users, name, time, merge_ms);
    if has_user(users, name) {
        let i = user_index(users, name);
        assert(0 <= i < users.len() && users[i].name == name);
        lemma_user_index_is(updated, name, i);
    } else {
        lemma_user_index_is(updated, name, users.len() as int);
    }
}

impl Storage {
    /// Applies one whole polling cycle: records `now_secs` as the fetch
    /// instant, applies every sample (login before logout, in arrival
    /// order), expires old records against the horizon, and advances the
    /// `first_fetch` anchor. Returns the emitted events in order.
    /// Persisting the changed store is the caller's step.
    pub fn apply_samples(
        &mut self,
        samples: &Vec<(String, Fetched)>,
        now_secs: u64,
        merge_ms: u64,
        horizon_secs: u64,
    ) -> (events: Vec<BroadcastEvent>)
        requires
            old(self).wf(),
            now_secs * 1000 <= u64::MAX,
        ensures
            final(self).wf(),
            final(self)@.last_fetch == now_secs,
            final(self)@.first_fetch == (if now_secs >= horizon_secs && now_secs - horizon_secs
                > old(self)@.first_fetch {
                now_secs - horizon_secs
            } else {
                old(self)@.first_fetch as int
            }),
            final(self)@.users == expire_users_spec(
                cycle_users_spec(
                    old(self)@.users,
                    samples@.map_values(|p: (String, Fetched)| (p.0@, p.1)),
                    merge_ms,
                ),
                cutoff_spec(now_secs, horizon_secs),
            ),
            events@.map_values(|e: BroadcastEvent| event_view(e)) == cycle_events_spec(
                old(self)@.users,
                samples@.map_values(|p: (String, Fetched)| (p.0@, p.1)),
                merge_ms,
            ),
    {
        let ghost initial_users = self@.users;
        let ghost sample_views = samples@.map_values(|p: (String, Fetched)| (p.0@, p.1));
        self.last_fetch = now_secs;
        let mut events: Vec<BroadcastEvent> = Vec::new();
        let n = samples.len();
        let mut i: usize = 0;
        while i < n
            invariant
                i <= n,
                n == samples.len(),
                sample_views == samples@.map_values(|p: (String, Fetched)| (p.0@, p.1)),
                self.wf(),
                self@.last_fetch == now_secs,
                self@.first_fetch == old(self)@.first_fetch,
                self@.users == cycle_users_spec(initial_users, sample_views.take(i as int), merge_ms),
                events@.map_values(|e: BroadcastEvent| event_view(e)) == cycle_events_spec(
                    initial_users,
                    sample_views.take(i as int),
                    merge_ms,
                ),
            decreases n - i,
        {
            let ghost users_before = self@.users;
            let ghost events_before = events@;
            let name = samples[i].0.clone();
            let fetched = samples[i].1;
            proof {
                assert(sample_views[i as int] == (samples@[i as int].0@, samples@[i as int].1));
                lemma_timeline_after_login(users_before, name@, fetched.last_login, merge_ms);
            }
            let online = self.push_beginning(name.clone(), fetched.last_login, merge_ms);
            let offline = self.push_logout(name, fetched.last_logout, fetched.last_login);
            match online {
                Some(e) => events.push(e),
                None => (),
            }
            match offline {
                Some(e) => events.push(e),
                None => (),
            }
            proof {
                lemma_cycle_snoc(initial_users, sample_views.take(i as int), sample_views[i as int], merge_ms);
                assert(sample_views.take(i as int).push(sample_views[i as int]) =~= sample_views.take(
                    i + 1,
                ));
                assert(events@.map_values(|e: BroadcastEvent| event_view(e)) =~= cycle_events_spec(
                    initial_users,
                    sample_views.take(i + 1),
                    merge_ms,
                ));
            }
            i += 1;
        }
        proof {
            assert(sample_views.take(n as int) =~= sample_views);
        }
        let cutoff_ms = if now_secs > horizon_secs {
            (now_secs - horizon_secs) * 1000
        } else {
            0
        };
        self.expire(cutoff_ms);
        proof {
            assert(self@.users =~~= expire_users_spec(
                cycle_users_spec(initial_users, sample_views, merge_ms),
                cutoff_spec(now_secs, horizon_secs),
            ));
        }
        self.advance_first_fetch(horizon_secs);
        events
    }
}

/// A login sample keeps a timeline well-formed.
proof fn lemma_login_spec_wf(tl: Seq<Record>, time: u64, merge_ms: u64)
    requires
        timeline_wf(tl),
    ensures
        timeline_wf(login_spec(tl, time, merge_ms)),
{
}

/// A logout sample keeps a timeline well-formed.
proof fn lemma_logout_spec_wf(tl: Seq<Record>, time: u64, login: u64)
    requires
        timeline_wf(tl),
    ensures
        timeline_wf(logout_spec(tl, time, login)),
{
}

/// One cycle's sample for one user keeps the whole store well-formed.
proof fn lemma_sample_users_wf(users: Seq<UserView>, name: Seq<char>, f: Fetched, merge_ms: u64)
    requires
        users_wf(users),
    ensures
        users_wf(sample_users_spec(users, name, f, merge_ms)),
{
    let users1 = login_users_spec(users, name, f.last_login, merge_ms);
    lemma_login_spec_wf(timeline_of(users, name), f.last_login, merge_ms);
    if has_user(users, name) {
        let i = user_index(users, name);
        assert(0 <= i < users.len() && users[i].name == name);
    }
    assert(users_wf(users1));
    lemma_logout_spec_wf(timeline_of(users1, name), f.last_logout, f.last_login);
    if has_user(users1, name) {
        let i = user_index(users1, name);
        assert(0 <= i < users1.len() && users1[i].name == name);
    }
    assert(users_wf(sample_users_spec(users, name, f, merge_ms)));
}

/// LAW: starting from a well-formed store, applying any sequence of
/// samples in cycle order leaves every user's timeline with at most one
/// open record, standing at its end (together with the rest of
/// well-formedness: ordered sub-session fields and distinct names).
pub proof fn lemma_cycle_preserves_wf(
    users: Seq<UserView>,
    samples: Seq<(Seq<char>, Fetched)>,
    merge_ms: u64,
)
    requires
        users_wf(users),
    ensures
        users_wf(cycle_users_spec(users, samples, merge_ms)),
    decreases samples.len(),
{
    if samples.len() > 0 {
        lemma_sample_users_wf(users, samples[0].0, samples[0].1, merge_ms);
        lemma_cycle_preserves_wf(
            sample_users_spec(users, samples[0].0, samples[0].1, merge_ms),
            samples.drop_first(),
            merge_ms,
        );
    }
}

/// LAW: applying the same `(login, logout)` pair twice in a row produces
/// the same timeline as applying it once.
pub proof fn lemma_sample_idempotent(tl: Seq<Record>, login: u64, logout: u64, merge_ms: u64)
    requires
        timeline_wf(tl),
    ensures
        ({
            let once = logout_spec(login_spec(tl, login, merge_ms), logout, login);
            logout_spec(login_spec(once, login, merge_ms), logout, login) == once
        }),
{
    let after_login = login_spec(tl, login, merge_ms);
    let once = logout_spec(after_login, logout, login);
    assert(after_login.len() > 0);
    assert(after_login.last().session_begin == login);
    assert(once.last().session_begin == login);
    assert(login_spec(once, login, merge_ms) == once);
    if !logout_ignored(after_login, logout, login) {
        assert(once.last().end == Some(logout));
        assert(logout_ignored(once, logout, login));
    } else {
        assert(once == after_login);
        assert(logout_ignored(once, logout, login));
    }
}

/// LAW: when a second login follows a closed record with a gap inside the
/// merge window, the two sub-sessions collapse into one record that keeps
/// the first record's `beginning` and closes at the second logout. The
/// second login must differ from the record's tracked sub-session start
/// (otherwise it is a duplicate sample and nothing changes).
pub proof fn lemma_merge_within_window(
    tl: Seq<Record>,
    login2: u64,
    logout2: u64,
    merge_ms: u64,
)
    requires
        timeline_wf(tl),
        tl.len() > 0,
        tl.last().end is Some,
        tl.last().end->0 <= login2,
        login2 - tl.last().end->0 < merge_ms,
        login2 != tl.last().session_begin,
        logout2 >= login2,
    ensures
        ({
            let merged = logout_spec(login_spec(tl, login2, merge_ms), logout2, login2);
            &&& merged.len() == tl.len()
            &&& merged.last().beginning == tl.last().beginning
            &&& merged.last().end == Some(logout2)
        }),
{
    let after_login = login_spec(tl, login2, merge_ms);
    assert(after_login.last().beginning == tl.last().beginning);
    assert(after_login.last().end is None);
    assert(!logout_ignored(after_login, logout2, login2));
}

/// LAW: when a second login follows a closed record with a gap at or above
/// the merge window, two distinct closed records result: the old one keeps
/// its end, the new one runs from the second login to the second logout.
pub proof fn lemma_no_merge_outside_window(
    tl: Seq<Record>,
    login2: u64,
    logout2: u64,
    merge_ms: u64,
)
    requires
        timeline_wf(tl),
        tl.len() > 0,
        tl.last().end is Some,
        tl.last().end->0 <= login2,
        login2 - tl.last().end->0 >= merge_ms,
        merge_ms > 0,
        logout2 >= login2,
    ensures
        ({
            let after = logout_spec(login_spec(tl, login2, merge_ms), logout2, login2);
            &&& after.len() == tl.len() + 1
            &&& after[after.len() - 2] == tl.last()
            &&& after.last().beginning == login2
            &&& after.last().session_begin == login2
            &&& after.last().end == Some(logout2)
        }),
{
    assert(tl.last().session_begin <= tl.last().end->0);
    assert(login2 != tl.last().session_begin);
    let after_login = login_spec(tl, login2, merge_ms);
    assert(after_login == tl.push(fresh_record(login2)));
    assert(!logout_ignored(after_login, logout2, login2));
}

impl Default for Storage {
    /// An empty store: no users, both fetch anchors at the epoch.
    fn default() -> (s: Storage)
        ensures
            s@.last_fetch == 0,
            s@.first_fetch == 0,
            s@.users.len() == 0,
            s.wf(),
    {
        Storage { last_fetch: 0, first_fetch: 0, users: Vec::new() }
    }
}

} // verus!
