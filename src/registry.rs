use vstd::prelude::*;

use vstd::set_lib::{lemma_int_range, lemma_len_subset, set_int_range};

use crate::error::Error;

verus! {

/// What the registry knows of one session: how many leases on it are outstanding and, while
/// none is, the time at which it expires.
pub struct EntryView {
    pub leases: nat,
    pub deadline: Option<u64>,
}

/// The deadline of a timer armed at `now` for `ttl`: `now + ttl`, or the end of time where
/// that does not fit.
pub open spec fn armed_deadline(now: u64, ttl: u64) -> u64 {
    if now + ttl > u64::MAX {
        u64::MAX
    } else {
        (now + ttl) as u64
    }
}

/// Whether a session's timer has run out at `now`.
pub open spec fn is_expired(e: EntryView, now: u64) -> bool {
    e.deadline matches Some(d) && d <= now
}

/// The exclusivity invariant: a session is timed exactly when no lease on it is outstanding.
pub open spec fn timed_iff_idle(m: Map<u128, EntryView>) -> bool {
    forall|t: u128| #[trigger] m.contains_key(t) ==> (m[t].deadline is Some) == (m[t].leases == 0)
}

/// Whether a lease on `token` can be handed out: the session is known and its lease count
/// has room.
pub open spec fn can_acquire(m: Map<u128, EntryView>, token: u128) -> bool {
    m.contains_key(token) && m[token].leases < usize::MAX
}

/// The sessions left after a sweep at `now`.
pub open spec fn expire_view(m: Map<u128, EntryView>, now: u64) -> Map<u128, EntryView> {
    Map::new(|t: u128| m.contains_key(t) && !is_expired(m[t], now), |t: u128| m[t])
}

/// The sessions after a release of `token` at `now`: one lease fewer, and the timer armed
/// again when the lease released was the only one outstanding.
pub open spec fn release_view(m: Map<u128, EntryView>, token: u128, now: u64, ttl: u64) -> Map<
    u128,
    EntryView,
> {
    if !m.contains_key(token) || m[token].leases == 0 {
        m
    } else if m[token].leases == 1 {
        m.insert(token, EntryView { leases: 0, deadline: Some(armed_deadline(now, ttl)) })
    } else {
        m.insert(token, EntryView { leases: (m[token].leases - 1) as nat, deadline: None })
    }
}

/// A session whose timer was armed at `released` (when it was created, or when its last
/// lease was given back) and which nobody touched since is gone after a sweep at any `now`
/// at or past `released + ttl`, and no lease on it can be had afterwards.
pub proof fn lemma_idle_session_swept(
    m: Map<u128, EntryView>,
    token: u128,
    released: u64,
    ttl: u64,
    now: u64,
)
    requires
        m.contains_key(token),
        m[token].deadline == Some(armed_deadline(released, ttl)),
        released + ttl <= now,
    ensures
        !expire_view(m, now).contains_key(token),
        !can_acquire(expire_view(m, now), token),
{
}

/// Giving back a lease arms the session's timer exactly when it was the only lease
/// outstanding; while another is outstanding the session stays untimed.
pub proof fn lemma_release_arms_last_lease(m: Map<u128, EntryView>, token: u128, now: u64, ttl: u64)
    requires
        m.contains_key(token),
        m[token].leases >= 1,
    ensures
        release_view(m, token, now, ttl)[token].deadline is Some <==> m[token].leases == 1,
        release_view(m, token, now, ttl)[token].leases == m[token].leases - 1,
{
}

/// A release and a sweep keep the exclusivity invariant: a session is timed exactly when no
/// lease on it is outstanding.
pub proof fn lemma_release_keeps_exclusivity(m: Map<u128, EntryView>, token: u128, now: u64, ttl: u64)
    requires
        timed_iff_idle(m),
    ensures
        timed_iff_idle(release_view(m, token, now, ttl)),
        timed_iff_idle(expire_view(m, now)),
{
}

struct Entry<F> {
    token: u128,
    file: F,
    leases: usize,
    deadline: Option<u64>,
}

impl<F> Entry<F> {
    spec fn view(&self) -> EntryView {
        EntryView { leases: self.leases as nat, deadline: self.deadline }
    }
}

/// The tokens of the entries whose timer has run out at `now`, in order.
spec fn expired_tokens<F>(es: Seq<Entry<F>>, now: u64) -> Seq<u128>
    decreases es.len(),
{
    if es.len() == 0 {
        Seq::empty()
    } else {
        let rest = expired_tokens(es.drop_last(), now);
        if is_expired(es.last().view(), now) {
            rest.push(es.last().token)
        } else {
            rest
        }
    }
}

proof fn lemma_expired_tokens<F>(es: Seq<Entry<F>>, now: u64)
    requires
        forall|i: int, j: int| 0 <= i < j < es.len() ==> #[trigger] es[i].token != #[trigger] es[j].token,
    ensures
        expired_tokens(es, now).no_duplicates(),
        forall|t: u128|
            #[trigger] expired_tokens(es, now).contains(t) <==> exists|j: int|
                0 <= j < es.len() && #[trigger] es[j].token == t && is_expired(es[j].view(), now),
    decreases es.len(),
{
    if es.len() > 0 {
        let init = es.drop_last();
        lemma_expired_tokens(init, now);
        let rest = expired_tokens(init, now);
        let last = es.last();
        assert forall|t: u128|
            #[trigger] expired_tokens(es, now).contains(t) <==> exists|j: int|
                0 <= j < es.len() && #[trigger] es[j].token == t && is_expired(es[j].view(), now) by {
            if expired_tokens(es, now).contains(t) {
                if rest.contains(t) {
                    let j = choose|j: int|
                        0 <= j < init.len() && #[trigger] init[j].token == t && is_expired(
                            init[j].view(),
                            now,
                        );
                    assert(es[j] == init[j]);
                } else {
                    let k = choose|k: int| 0 <= k < expired_tokens(es, now).len() && expired_tokens(es, now)[k] == t;
                    if k < rest.len() {
                        assert(rest[k] == t);
                    }
                    assert(es[es.len() - 1].token == t);
                }
            }
            if exists|j: int| 0 <= j < es.len() && #[trigger] es[j].token == t && is_expired(es[j].view(), now) {
                let j = choose|j: int| 0 <= j < es.len() && #[trigger] es[j].token == t && is_expired(es[j].view(), now);
                if j < es.len() - 1 {
                    assert(init[j] == es[j]);
                    assert(rest.contains(t));
                    let k = choose|k: int| 0 <= k < rest.len() && rest[k] == t;
                    if is_expired(last.view(), now) {
                        assert(expired_tokens(es, now)[k] == t);
                    }
                } else {
                    assert(expired_tokens(es, now)[rest.len() as int] == t);
                }
            }
        }
        if is_expired(last.view(), now) {
            if rest.contains(last.token) {
                let j = choose|j: int|
                    0 <= j < init.len() && #[trigger] init[j].token == last.token && is_expired(
                        init[j].view(),
                        now,
                    );
                assert(es[j].token != es[es.len() - 1].token);
            }
            assert forall|i: int, j: int|
                0 <= i < j < expired_tokens(es, now).len() implies expired_tokens(es, now)[i]
                != expired_tokens(es, now)[j] by {
                if j == rest.len() {
                    assert(rest.contains(rest[i]));
                }
            }
        }
    }
}

/// The registry of upload sessions in progress: each token names a shared handle on a
/// session, a count of outstanding leases on it, and, while no lease is outstanding, an
/// expiration deadline. `F` is the shared handle.
pub struct FileQueue<F> {
    entries: Vec<Entry<F>>,
    ttl: u64,
    sessions: Ghost<Map<u128, EntryView>>,
    files: Ghost<Map<u128, F>>,
}

impl<F> View for FileQueue<F> {
    type V = Map<u128, EntryView>;

    closed spec fn view(&self) -> Map<u128, EntryView> {
        self.sessions@
    }
}

impl<F: Clone> FileQueue<F> {
    /// The shared handle of each session.
    pub closed spec fn files(&self) -> Map<u128, F> {
        self.files@
    }

    /// How long an idle session lives.
    pub closed spec fn spec_ttl(&self) -> u64 {
        self.ttl
    }

    closed spec fn entry_in(&self, e: Entry<F>) -> bool {
        &&& self.sessions@.contains_key(e.token)
        &&& self.sessions@[e.token] == e.view()
        &&& self.files@[e.token] == e.file
    }

    pub closed spec fn wf(&self) -> bool {
        &&& timed_iff_idle(self.sessions@)
        &&& self.sessions@.dom() == self.files@.dom()
        &&& forall|i: int| 0 <= i < self.entries@.len() ==> self.entry_in(#[trigger] self.entries@[i])
        &&& forall|i: int, j: int|
            0 <= i < j < self.entries@.len() ==> #[trigger] self.entries@[i].token
                != #[trigger] self.entries@[j].token
        &&& forall|t: u128| #[trigger]
            self.sessions@.contains_key(t) ==> exists|i: int|
                0 <= i < self.entries@.len() && #[trigger] self.entries@[i].token == t
    }

    /// An empty registry whose idle sessions live for `ttl`.
    pub fn new(ttl: u64) -> (r: Self)
        ensures
            r.wf(),
            r@ == Map::<u128, EntryView>::empty(),
            r.spec_ttl() == ttl,
    {
        FileQueue { entries: Vec::new(), ttl, sessions: Ghost(Map::empty()), files: Ghost(Map::empty()) }
    }

    /// How long an idle session lives.
    pub fn ttl(&self) -> (r: u64)
        ensures
            r == self.spec_ttl(),
    {
        self.ttl
    }

    fn find(&self, token: u128) -> (r: Option<usize>)
        requires
            self.wf(),
        ensures
            match r {
                Some(i) => i < self.entries@.len() && self.entries@[i as int].token == token,
                None => !self@.contains_key(token),
            },
    {
        let mut i: usize = 0;
        while i < self.entries.len()
            invariant
                self.wf(),
                i <= self.entries@.len(),
                forall|j: int| 0 <= j < i ==> self.entries@[j].token != token,
            decreases self.entries@.len() - i,
        {
            if self.entries[i].token == token {
                return Some(i);
            }
            i = i + 1;
        }
        None
    }

    /// The invariants every registry keeps: a session is timed exactly when no lease on it is
    /// outstanding, each session has a handle, and there are finitely many sessions.
    pub proof fn wf_facts(&self)
        requires
            self.wf(),
        ensures
            timed_iff_idle(self@),
            self@.dom() == self.files().dom(),
            self@.dom().finite(),
    {
        let toks = self.entries@.map_values(|e: Entry<F>| e.token);
        assert forall|t: u128| #[trigger] self@.contains_key(t) implies toks.to_set().contains(t) by {
            let i = choose|i: int| 0 <= i < self.entries@.len() && #[trigger] self.entries@[i].token == t;
            assert(toks[i] == t);
        }
        assert(self@.dom().subset_of(toks.to_set()));
        lemma_len_subset(self@.dom(), toks.to_set());
    }

    /// Where `m` tokens counted up from `from` are all registered, there are at least `m`
    /// entries.
    proof fn lemma_run_bound(&self, from: u128, m: nat)
        requires
            self.wf(),
            from + m <= u128::MAX,
            forall|j: int| 0 <= j < m ==> self@.contains_key(#[trigger] (from + j) as u128),
        ensures
            m <= self.entries@.len(),
    {
        let toks = self.entries@.map_values(|e: Entry<F>| e.token as int);
        assert forall|i: int, j: int| 0 <= i < toks.len() && 0 <= j < toks.len() && i != j implies toks[i]
            != toks[j] by {
            if i < j {
                assert(self.entries@[i].token != self.entries@[j].token);
            } else {
                assert(self.entries@[j].token != self.entries@[i].token);
            }
        }
        assert(toks.no_duplicates());
        toks.unique_seq_to_set();
        let run = set_int_range(from as int, from + m);
        lemma_int_range(from as int, from + m);
        assert forall|x: int| run.contains(x) implies toks.to_set().contains(x) by {
            let j = x - from;
            assert(self@.contains_key((from + j) as u128));
            let t = x as u128;
            let i = choose|i: int| 0 <= i < self.entries@.len() && #[trigger] self.entries@[i].token == t;
            assert(toks[i] == x);
        }
        lemma_len_subset(run, toks.to_set());
    }

    /// A token that is not registered: the first free one counting up from `from`.
    pub fn unused_token(&self, from: u128) -> (r: u128)
        requires
            self.wf(),
            from <= u128::MAX / 2,
        ensures
            !self@.contains_key(r),
    {
        let mut k: usize = 0;
        while self.contains(from + k as u128)
            invariant
                self.wf(),
                from <= u128::MAX / 2,
                k <= self.entries@.len(),
                forall|j: int| 0 <= j < k ==> self@.contains_key(#[trigger] (from + j) as u128),
            decreases self.entries@.len() - k,
        {
            proof {
                assert forall|j: int| 0 <= j < k + 1 implies self@.contains_key(#[trigger] (from + j) as u128) by {
                    if j == k {
                        assert((from + j) as u128 == from + k as u128);
                    }
                }
                self.lemma_run_bound(from, (k + 1) as nat);
            }
            let n = self.entries.len();
            assert(k < n);
            k = k + 1;
        }
        from + k as u128
    }

    /// Whether a session is registered under `token`.
    pub fn contains(&self, token: u128) -> (r: bool)
        requires
            self.wf(),
        ensures
            r == self@.contains_key(token),
    {
        self.find(token).is_some()
    }

    /// Whether a session is registered under `token` with a lease on it outstanding.
    pub fn is_held(&self, token: u128) -> (r: bool)
        requires
            self.wf(),
        ensures
            r == (self@.contains_key(token) && self@[token].leases > 0),
    {
        match self.find(token) {
            Some(i) => self.entries[i].leases > 0,
            None => false,
        }
    }

    /// Registers `file` under `token` at `now`, with no lease outstanding and its timer armed.
    /// A token already registered is refused: `file` comes back and nothing changes.
    pub fn add_file(&mut self, token: u128, file: F, now: u64) -> (r: Result<(), F>)
        requires
            old(self).wf(),
        ensures
            final(self).wf(),
            final(self).spec_ttl() == old(self).spec_ttl(),
            !old(self)@.contains_key(token) ==> {
                &&& r is Ok
                &&& final(self)@ == old(self)@.insert(
                    token,
                    EntryView { leases: 0, deadline: Some(armed_deadline(now, old(self).spec_ttl())) },
                )
                &&& final(self).files() == old(self).files().insert(token, file)
            },
            old(self)@.contains_key(token) ==> {
                &&& r == Err::<(), F>(file)
                &&& final(self)@ == old(self)@
                &&& final(self).files() == old(self).files()
            },
    {
        if self.find(token).is_some() {
            return Err(file);
        }
        let deadline = now.saturating_add(self.ttl);
        let entry = Entry { token, file, leases: 0, deadline: Some(deadline) };
        let ghost new_view = entry.view();
        let ghost new_file = entry.file;
        self.entries.push(entry);
        self.sessions = Ghost(self.sessions@.insert(token, new_view));
        self.files = Ghost(self.files@.insert(token, new_file));
        proof {
            let n = self.entries@.len();
            let before = old(self).entries@;
            assert forall|i: int| 0 <= i < n implies self.entry_in(#[trigger] self.entries@[i]) by {
                if i < n - 1 {
                    assert(self.entries@[i] == before[i]);
                    assert(old(self).entry_in(before[i]));
                }
            }
            assert forall|i: int, j: int| 0 <= i < j < n implies #[trigger] self.entries@[i].token
                != #[trigger] self.entries@[j].token by {
                assert(self.entries@[i] == before[i]);
                if j < n - 1 {
                    assert(self.entries@[j] == before[j]);
                } else {
                    assert(old(self).entry_in(before[i]));
                }
            }
            assert forall|t: u128| #[trigger] self.sessions@.contains_key(t) implies exists|i: int|
                0 <= i < n && #[trigger] self.entries@[i].token == t by {
                if t == token {
                    assert(self.entries@[n - 1].token == t);
                } else {
                    let b = choose|b: int| 0 <= b < before.len() && #[trigger] before[b].token == t;
                    assert(self.entries@[b] == before[b]);
                }
            }
            assert(self.sessions@.dom() =~= self.files@.dom());
        }
        Ok(())
    }

    /// Hands out a lease on the session under `token`: its lease count goes up by one and its
    /// timer is disarmed, so that it cannot expire while held. Fails with `InvalidFileToken`
    /// where no session is registered under `token` (or its lease count is at its limit).
    pub fn acquire_file(&mut self, token: u128) -> (r: Result<F, Error>)
        requires
            old(self).wf(),
        ensures
            final(self).wf(),
            final(self).spec_ttl() == old(self).spec_ttl(),
            final(self).files() == old(self).files(),
            r matches Ok(h) ==> cloned(old(self).files()[token], h),
            can_acquire(old(self)@, token) ==> r is Ok && final(self)@ == old(self)@.insert(
                token,
                EntryView { leases: old(self)@[token].leases + 1, deadline: None },
            ),
            !can_acquire(old(self)@, token) ==> r == Err::<F, Error>(Error::InvalidFileToken)
                && final(self)@ == old(self)@,
    {
        let i = match self.find(token) {
            Some(i) => i,
            None => {
                return Err(Error::InvalidFileToken);
            },
        };
        if self.entries[i].leases == usize::MAX {
            return Err(Error::InvalidFileToken);
        }
        let file = self.entries[i].file.clone();
        let mut entry = self.entries.remove(i);
        entry.leases = entry.leases + 1;
        entry.deadline = None;
        let ghost new_view = entry.view();
        self.entries.insert(i, entry);
        self.sessions = Ghost(self.sessions@.insert(token, new_view));
        proof {
            let before = old(self).entries@;
            assert(forall|j: int| 0 <= j < before.len() && j != i ==> self.entries@[j] == before[j]);
            assert forall|j: int| 0 <= j < self.entries@.len() implies self.entry_in(
                #[trigger] self.entries@[j],
            ) by {
                if j != i {
                    assert(before[j].token != token);
                }
            }
            assert forall|j: int, k: int| 0 <= j < k < self.entries@.len() implies #[trigger] self.entries@[j].token
                != #[trigger] self.entries@[k].token by {
                assert(before[j].token != before[k].token);
            }
            assert forall|t: u128| #[trigger] self.sessions@.contains_key(t) implies exists|j: int|
                0 <= j < self.entries@.len() && #[trigger] self.entries@[j].token == t by {
                let b = choose|b: int| 0 <= b < before.len() && #[trigger] before[b].token == t;
                assert(self.entries@[b].token == t);
            }
            assert(self.sessions@.dom() =~= self.files@.dom());
        }
        Ok(file)
    }

    /// Gives back a lease on the session under `token` at `now`. Where it was the only lease
    /// outstanding the timer is armed again for a full period and the result is `Ok(true)`;
    /// where other leases are still outstanding nothing is armed and the result is
    /// `Ok(false)`, as it is where no lease was outstanding at all (nothing changes then).
    /// Fails with `InvalidFileToken` where no session is registered under `token`.
    pub fn release_file(&mut self, token: u128, now: u64) -> (r: Result<bool, Error>)
        requires
            old(self).wf(),
        ensures
            final(self).wf(),
            final(self).spec_ttl() == old(self).spec_ttl(),
            final(self).files() == old(self).files(),
            final(self)@ == release_view(old(self)@, token, now, old(self).spec_ttl()),
            !old(self)@.contains_key(token) ==> r == Err::<bool, Error>(Error::InvalidFileToken),
            old(self)@.contains_key(token) ==> r == Ok::<bool, Error>(old(self)@[token].leases == 1),
    {
        let i = match self.find(token) {
            Some(i) => i,
            None => {
                return Err(Error::InvalidFileToken);
            },
        };
        let leases = self.entries[i].leases;
        if leases == 0 {
            return Ok(false);
        }
        let mut entry = self.entries.remove(i);
        entry.leases = leases - 1;
        if leases == 1 {
            entry.deadline = Some(now.saturating_add(self.ttl));
        }
        let ghost new_view = entry.view();
        self.entries.insert(i, entry);
        self.sessions = Ghost(self.sessions@.insert(token, new_view));
        proof {
            let before = old(self).entries@;
            assert(forall|j: int| 0 <= j < before.len() && j != i ==> self.entries@[j] == before[j]);
            assert forall|j: int| 0 <= j < self.entries@.len() implies self.entry_in(
                #[trigger] self.entries@[j],
            ) by {
                if j != i {
                    assert(before[j].token != token);
                }
            }
            assert forall|j: int, k: int| 0 <= j < k < self.entries@.len() implies #[trigger] self.entries@[j].token
                != #[trigger] self.entries@[k].token by {
                assert(before[j].token != before[k].token);
            }
            assert forall|t: u128| #[trigger] self.sessions@.contains_key(t) implies exists|j: int|
                0 <= j < self.entries@.len() && #[trigger] self.entries@[j].token == t by {
                let b = choose|b: int| 0 <= b < before.len() && #[trigger] before[b].token == t;
                assert(self.entries@[b].token == t);
            }
            assert(self.sessions@.dom() =~= self.files@.dom());
        }
        Ok(leases == 1)
    }

    /// Removes the session under `token`, which the caller holds a lease on. Fails with
    /// `InvalidFileToken` where no session is registered under `token`.
    pub fn discard(&mut self, token: u128) -> (r: Result<(), Error>)
        requires
            old(self).wf(),
            old(self)@.contains_key(token) ==> old(self)@[token].leases > 0,
        ensures
            final(self).wf(),
            final(self).spec_ttl() == old(self).spec_ttl(),
            final(self)@ == old(self)@.remove(token),
            final(self).files() == old(self).files().remove(token),
            r is Ok == old(self)@.contains_key(token),
            r is Err ==> r == Err::<(), Error>(Error::InvalidFileToken),
    {
        match self.remove_entry(token) {
            Some(_) => Ok(()),
            None => Err(Error::InvalidFileToken),
        }
    }


    /// Takes the session under `token` out of the registry, whatever its leases.
    fn remove_entry(&mut self, token: u128) -> (r: Option<F>)
        requires
            old(self).wf(),
        ensures
            final(self).wf(),
            final(self).spec_ttl() == old(self).spec_ttl(),
            final(self)@ == old(self)@.remove(token),
            final(self).files() == old(self).files().remove(token),
            old(self)@.contains_key(token) ==> r == Some(old(self).files()[token]),
            !old(self)@.contains_key(token) ==> r is None,
    {
        let i = match self.find(token) {
            Some(i) => i,
            None => {
                assert(self.sessions@.remove(token) =~= self.sessions@);
                assert(self.files@.remove(token) =~= self.files@);
                return None;
            },
        };
        let removed = self.entries.remove(i);
        self.sessions = Ghost(self.sessions@.remove(token));
        self.files = Ghost(self.files@.remove(token));
        proof {
            let before = old(self).entries@;
            assert(old(self).entry_in(before[i as int]));
            assert forall|j: int| 0 <= j < self.entries@.len() implies self.entry_in(
                #[trigger] self.entries@[j],
            ) by {
                if j < i {
                    assert(self.entries@[j] == before[j]);
                    assert(before[j].token != before[i as int].token);
                } else {
                    assert(self.entries@[j] == before[j + 1]);
                    assert(before[j + 1].token != before[i as int].token);
                }
            }
            assert forall|j: int, k: int| 0 <= j < k < self.entries@.len() implies #[trigger] self.entries@[j].token
                != #[trigger] self.entries@[k].token by {
                let bj = if j < i { j } else { j + 1 };
                let bk = if k < i { k } else { k + 1 };
                assert(self.entries@[j] == before[bj]);
                assert(self.entries@[k] == before[bk]);
            }
            assert forall|t: u128| #[trigger] self.sessions@.contains_key(t) implies exists|j: int|
                0 <= j < self.entries@.len() && #[trigger] self.entries@[j].token == t by {
                let b = choose|b: int| 0 <= b < before.len() && #[trigger] before[b].token == t;
                assert(b != i);
                if b < i {
                    assert(self.entries@[b] == before[b]);
                } else {
                    assert(self.entries@[b - 1] == before[b]);
                }
            }
            assert(self.sessions@.dom() =~= self.files@.dom());
        }
        Some(removed.file)
    }

    /// Sweeps the registry at `now`: removes every session whose timer has run out and hands
    /// them back with their tokens, each once, for cancelling. Sessions held by a lease have
    /// no timer and stay.
    pub fn expire(&mut self, now: u64) -> (r: Vec<(u128, F)>)
        requires
            old(self).wf(),
        ensures
            final(self).wf(),
            final(self).spec_ttl() == old(self).spec_ttl(),
            final(self)@ == expire_view(old(self)@, now),
            final(self).files() == old(self).files().restrict(final(self)@.dom()),
            forall|k: int|
                0 <= k < r@.len() ==> {
                    &&& old(self)@.contains_key(#[trigger] r@[k].0)
                    &&& is_expired(old(self)@[r@[k].0], now)
                    &&& old(self)@[r@[k].0].leases == 0
                    &&& r@[k].1 == old(self).files()[r@[k].0]
                },
            forall|t: u128|
                old(self)@.contains_key(t) && is_expired(old(self)@[t], now) ==> exists|k: int|
                    0 <= k < r@.len() && #[trigger] r@[k].0 == t,
            forall|j: int, k: int| 0 <= j < k < r@.len() ==> #[trigger] r@[j].0 != #[trigger] r@[k].0,
    {
        let ghost sessions = self.sessions@;
        let ghost files = self.files@;
        let ghost entries = self.entries@;
        let mut gone: Vec<u128> = Vec::new();
        let mut i: usize = 0;
        while i < self.entries.len()
            invariant
                self.wf(),
                self.entries@ == entries,
                i <= entries.len(),
                gone@ == expired_tokens(entries.take(i as int), now),
            decreases entries.len() - i,
        {
            let expired = match self.entries[i].deadline {
                Some(d) => d <= now,
                None => false,
            };
            if expired {
                gone.push(self.entries[i].token);
            }
            assert(entries.take(i + 1).drop_last() =~= entries.take(i as int));
            i = i + 1;
        }
        assert(entries.take(i as int) =~= entries);
        proof {
            lemma_expired_tokens(entries, now);
        }
        let mut out: Vec<(u128, F)> = Vec::new();
        let mut k: usize = 0;
        while k < gone.len()
            invariant
                self.wf(),
                self.ttl == old(self).ttl,
                gone@.no_duplicates(),
                forall|t: u128| #[trigger] gone@.contains(t) ==> sessions.contains_key(t) && is_expired(sessions[t], now),
                k <= gone@.len(),
                self@ == sessions.remove_keys(gone@.take(k as int).to_set()),
                self.files() == files.remove_keys(gone@.take(k as int).to_set()),
                out@.len() == k,
                forall|m: int| 0 <= m < k ==> #[trigger] out@[m] == (gone@[m], files[gone@[m]]),
            decreases gone@.len() - k,
        {
            let t = gone[k];
            proof {
                assert(gone@.contains(t));
                if gone@.take(k as int).contains(t) {
                    let m = choose|m: int| 0 <= m < k && gone@.take(k as int)[m] == t;
                    assert(gone@[m] == gone@[k as int]);
                }
            }
            let f = self.remove_entry(t);
            let f = f.unwrap();
            out.push((t, f));
            proof {
                let pre = gone@.take(k as int);
                let next = gone@.take(k + 1);
                assert(next =~= pre.push(t));
                assert forall|x: u128| next.contains(x) == (pre.contains(x) || x == t) by {
                    if next.contains(x) {
                        let m = choose|m: int| 0 <= m < next.len() && next[m] == x;
                        if m < pre.len() {
                            assert(pre[m] == x);
                        }
                    }
                    if pre.contains(x) {
                        let m = choose|m: int| 0 <= m < pre.len() && pre[m] == x;
                        assert(next[m] == x);
                    }
                    if x == t {
                        assert(next[k as int] == x);
                    }
                }
                assert(next.to_set() =~= pre.to_set().insert(t));
                assert(self@ =~= sessions.remove_keys(gone@.take(k + 1).to_set()));
                assert(self.files() =~= files.remove_keys(gone@.take(k + 1).to_set()));
            }
            k = k + 1;
        }
        proof {
            assert(gone@.take(k as int) =~= gone@);
            assert(self@ =~= expire_view(sessions, now)) by {
                assert forall|t: u128| sessions.contains_key(t) && !is_expired(sessions[t], now) implies !gone@.to_set().contains(t) by {}
                assert forall|t: u128| sessions.contains_key(t) && is_expired(sessions[t], now) implies gone@.to_set().contains(t) by {
                    let b = choose|b: int| 0 <= b < entries.len() && #[trigger] entries[b].token == t;
                    assert(old(self).entry_in(entries[b]));
                    assert(gone@.contains(t));
                }
            }
            assert(self.files() =~= files.restrict(self@.dom()));
            assert forall|t: u128|
                sessions.contains_key(t) && is_expired(sessions[t], now) implies exists|m: int|
                0 <= m < out@.len() && #[trigger] out@[m].0 == t by {
                let b = choose|b: int| 0 <= b < entries.len() && #[trigger] entries[b].token == t;
                assert(old(self).entry_in(entries[b]));
                assert(gone@.contains(t));
                let m = choose|m: int| 0 <= m < gone@.len() && gone@[m] == t;
                assert(out@[m].0 == t);
            }
            assert forall|m: int| 0 <= m < out@.len() implies {
                &&& sessions.contains_key(#[trigger] out@[m].0)
                &&& is_expired(sessions[out@[m].0], now)
                &&& sessions[out@[m].0].leases == 0
                &&& out@[m].1 == files[out@[m].0]
            } by {
                assert(gone@.contains(gone@[m]));
                assert(out@[m] == (gone@[m], files[gone@[m]]));
            }
        }
        out
    }
}

} // verus!
