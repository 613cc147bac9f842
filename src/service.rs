use vstd::prelude::*;

use crate::error::Error;
use crate::pending::saturate;
use crate::registry::{
    EntryView, FileQueue, armed_deadline, can_acquire, expire_view, is_expired, release_view,
    timed_iff_idle,
};
use crate::token::fresh_token;

verus! {

/// The upload service's bookkeeping: the registry of sessions in progress, each held through
/// a shared handle `F`. The file I/O between the steps below is the caller's: it writes a
/// chunk between `begin_chunk` and `put_chunk`, and syncs or deletes a file once
/// `finish_upload` has handed its session over. Times are plain numbers on one clock of the
/// caller's choosing (seconds since start, say), and the time to live is in the same unit.
pub struct State<F> {
    file_queue: FileQueue<F>,
}

impl<F: Clone> State<F> {
    pub closed spec fn wf(&self) -> bool {
        self.file_queue.wf()
    }

    /// The sessions in progress.
    pub closed spec fn sessions(&self) -> Map<u128, EntryView> {
        self.file_queue@
    }

    /// The shared handle of each session in progress.
    pub closed spec fn files(&self) -> Map<u128, F> {
        self.file_queue.files()
    }

    /// How long an idle session lives.
    pub closed spec fn spec_ttl(&self) -> u64 {
        self.file_queue.spec_ttl()
    }

    /// A service with no session, whose idle sessions live for `ttl`.
    pub fn new(ttl: u64) -> (r: Self)
        ensures
            r.wf(),
            r.sessions() == Map::<u128, EntryView>::empty(),
            r.spec_ttl() == ttl,
    {
        State { file_queue: FileQueue::new(ttl) }
    }

    /// A token for a new session, registered to none in progress: drawn at random, and where
    /// the draw is taken already, the first free token counting up from half of it.
    /// `start_upload` registers the session.
    pub fn new_token(&self) -> (r: u128)
        requires
            self.wf(),
        ensures
            !self.sessions().contains_key(r),
    {
        let drawn = fresh_token();
        if !self.file_queue.contains(drawn) {
            drawn
        } else {
            self.file_queue.unused_token(drawn / 2)
        }
    }

    /// The invariants the service keeps: a session is timed exactly when no lease on it is
    /// outstanding, each session has a handle, and there are finitely many sessions.
    pub proof fn wf_facts(&self)
        requires
            self.wf(),
        ensures
            timed_iff_idle(self.sessions()),
            self.sessions().dom() == self.files().dom(),
            self.sessions().dom().finite(),
    {
        self.file_queue.wf_facts();
    }

    /// Registers `file`, the handle on a session whose file was just created, under `token`
    /// at `now`, with its timer armed. A token already registered is refused: `file` comes
    /// back and nothing changes.
    pub fn start_upload(&mut self, token: u128, file: F, now: u64) -> (r: Result<(), F>)
        requires
            old(self).wf(),
        ensures
            final(self).wf(),
            final(self).spec_ttl() == old(self).spec_ttl(),
            !old(self).sessions().contains_key(token) ==> {
                &&& r is Ok
                &&& final(self).sessions() == old(self).sessions().insert(
                    token,
                    EntryView { leases: 0, deadline: Some(armed_deadline(now, old(self).spec_ttl())) },
                )
                &&& final(self).files() == old(self).files().insert(token, file)
            },
            old(self).sessions().contains_key(token) ==> {
                &&& r == Err::<(), F>(file)
                &&& final(self).sessions() == old(self).sessions()
                &&& final(self).files() == old(self).files()
            },
    {
        self.file_queue.add_file(token, file, now)
    }

    /// The first step of writing a chunk: a lease on the session under `token`, which
    /// disarms its timer. Fails with `InvalidFileToken` for an unknown token.
    pub fn begin_chunk(&mut self, token: u128) -> (r: Result<F, Error>)
        requires
            old(self).wf(),
        ensures
            final(self).wf(),
            final(self).spec_ttl() == old(self).spec_ttl(),
            final(self).files() == old(self).files(),
            r matches Ok(h) ==> cloned(old(self).files()[token], h),
            can_acquire(old(self).sessions(), token) ==> r is Ok && final(self).sessions()
                == old(self).sessions().insert(
                token,
                EntryView { leases: old(self).sessions()[token].leases + 1, deadline: None },
            ),
            !can_acquire(old(self).sessions(), token) ==> r == Err::<F, Error>(
                Error::InvalidFileToken,
            ) && final(self).sessions() == old(self).sessions(),
    {
        self.file_queue.acquire_file(token)
    }

    /// The last step of writing a chunk, given the write's `outcome` at `now`. After a file
    /// system failure (the caller has cancelled the session) the session leaves the registry;
    /// after any other outcome its lease is given back, which arms its timer again if no other
    /// lease is outstanding. Returns the outcome, or `InvalidFileToken` where the session is
    /// no longer registered (or, after a failure, holds no lease).
    pub fn put_chunk(&mut self, token: u128, outcome: Result<usize, Error>, now: u64) -> (r: Result<
        usize,
        Error,
    >)
        requires
            old(self).wf(),
        ensures
            final(self).wf(),
            final(self).spec_ttl() == old(self).spec_ttl(),
            outcome matches Err(Error::Io(_)) ==> {
                let held = old(self).sessions().contains_key(token) && old(self).sessions()[token].leases > 0;
                &&& held ==> r == outcome && final(self).sessions() == old(self).sessions().remove(token)
                    && final(self).files() == old(self).files().remove(token)
                &&& !held ==> r == Err::<usize, Error>(Error::InvalidFileToken) && final(self).sessions()
                    == old(self).sessions() && final(self).files() == old(self).files()
            },
            !(outcome matches Err(Error::Io(_))) ==> {
                &&& final(self).sessions() == release_view(old(self).sessions(), token, now, old(self).spec_ttl())
                &&& final(self).files() == old(self).files()
                &&& old(self).sessions().contains_key(token) ==> r == outcome
                &&& !old(self).sessions().contains_key(token) ==> r == Err::<usize, Error>(Error::InvalidFileToken)
            },
    {
        let failed = match &outcome {
            Err(e) => e.is_io(),
            Ok(_) => false,
        };
        if failed {
            if !self.file_queue.is_held(token) {
                return Err(Error::InvalidFileToken);
            }
            match self.file_queue.discard(token) {
                Ok(()) => outcome,
                Err(e) => Err(e),
            }
        } else {
            match self.file_queue.release_file(token, now) {
                Ok(_) => outcome,
                Err(e) => Err(e),
            }
        }
    }

    /// Detaches the session under `token` for finishing: takes a lease on it and removes it
    /// from the registry, so that it leaves whatever finishing then does. Fails with
    /// `InvalidFileToken` for an unknown token.
    pub fn finish_upload(&mut self, token: u128) -> (r: Result<F, Error>)
        requires
            old(self).wf(),
        ensures
            final(self).wf(),
            final(self).spec_ttl() == old(self).spec_ttl(),
            r matches Ok(h) ==> cloned(old(self).files()[token], h),
            can_acquire(old(self).sessions(), token) ==> r is Ok && final(self).sessions()
                == old(self).sessions().remove(token) && final(self).files() == old(self).files().remove(
                token,
            ),
            !can_acquire(old(self).sessions(), token) ==> r == Err::<F, Error>(
                Error::InvalidFileToken,
            ) && final(self).sessions() == old(self).sessions() && final(self).files() == old(
                self,
            ).files(),
    {
        let file = match self.file_queue.acquire_file(token) {
            Ok(file) => file,
            Err(e) => {
                return Err(e);
            },
        };
        match self.file_queue.discard(token) {
            Ok(()) => {},
            Err(e) => {
                return Err(e);
            },
        }
        proof {
            assert(self.file_queue@ =~= old(self).file_queue@.remove(token));
        }
        Ok(file)
    }

    /// One sweep at `now`: the sessions whose timer ran out, removed from the registry and
    /// handed back with their tokens for cancelling.
    pub fn expire(&mut self, now: u64) -> (r: Vec<(u128, F)>)
        requires
            old(self).wf(),
        ensures
            final(self).wf(),
            final(self).spec_ttl() == old(self).spec_ttl(),
            final(self).sessions() == expire_view(old(self).sessions(), now),
            final(self).files() == old(self).files().restrict(final(self).sessions().dom()),
            forall|k: int|
                0 <= k < r@.len() ==> {
                    &&& old(self).sessions().contains_key(#[trigger] r@[k].0)
                    &&& is_expired(old(self).sessions()[r@[k].0], now)
                    &&& old(self).sessions()[r@[k].0].leases == 0
                    &&& r@[k].1 == old(self).files()[r@[k].0]
                },
            forall|t: u128|
                old(self).sessions().contains_key(t) && is_expired(
                    old(self).sessions()[t],
                    now,
                ) ==> exists|k: int| 0 <= k < r@.len() && #[trigger] r@[k].0 == t,
            forall|j: int, k: int| 0 <= j < k < r@.len() ==> #[trigger] r@[j].0 != #[trigger] r@[k].0,
    {
        self.file_queue.expire(now)
    }
}

/// The outcome of a piece of `len` bytes arriving after `count` bytes of a body whose
/// declared size, if any, is `declared`: the new count, or `DataNotFitIn` with the count
/// reached where the body would overrun the declared size (or the counter).
pub open spec fn piece_outcome(declared: Option<usize>, count: nat, len: nat) -> Result<usize, Error> {
    if count + len > usize::MAX {
        Err(Error::DataNotFitIn(usize::MAX))
    } else if declared matches Some(s) && count + len > s {
        Err(Error::DataNotFitIn((count + len) as usize))
    } else {
        Ok((count + len) as usize)
    }
}

/// The outcome of a body of `count` bytes ending: the count, or `DataNotFitIn` with the
/// count where it falls short of the declared size.
pub open spec fn end_outcome(declared: Option<usize>, count: nat) -> Result<usize, Error> {
    if declared matches Some(s) && count != s {
        Err(Error::DataNotFitIn(saturate(count as int)))
    } else {
        Ok(saturate(count as int))
    }
}

/// The outcome of a body arriving as `pieces` after `count` bytes: the first piece that
/// overruns decides, else the end does.
pub open spec fn body_outcome(declared: Option<usize>, count: nat, pieces: Seq<Seq<u8>>) -> Result<
    usize,
    Error,
>
    decreases pieces.len(),
{
    if pieces.len() == 0 {
        end_outcome(declared, count)
    } else {
        match piece_outcome(declared, count, pieces[0].len()) {
            Err(e) => Err(e),
            Ok(c) => body_outcome(declared, c as nat, pieces.drop_first()),
        }
    }
}

/// The lengths of `pieces`, added up.
pub open spec fn total_len(pieces: Seq<Seq<u8>>) -> nat
    decreases pieces.len(),
{
    if pieces.len() == 0 {
        0
    } else {
        pieces[0].len() + total_len(pieces.drop_first())
    }
}

/// With a declared size, a body is accepted exactly when its length, however it is cut into
/// pieces, is the declared size; the count returned is then that size. A body shorter or
/// longer than declared is refused with `DataNotFitIn`.
pub proof fn lemma_declared_size_enforced(size: usize, count: nat, pieces: Seq<Seq<u8>>)
    requires
        count <= size,
    ensures
        body_outcome(Some(size), count, pieces) is Ok <==> count + total_len(pieces) == size,
        body_outcome(Some(size), count, pieces) is Ok ==> body_outcome(Some(size), count, pieces)
            == Ok::<usize, Error>(size),
        body_outcome(Some(size), count, pieces) is Err ==> body_outcome(Some(size), count, pieces)
            matches Err(Error::DataNotFitIn(_)),
    decreases pieces.len(),
{
    if pieces.len() > 0 {
        let len = pieces[0].len();
        if count + len <= size {
            lemma_declared_size_enforced(size, count + len, pieces.drop_first());
        } else {
            lemma_total_len_ge_first(pieces);
        }
    }
}

proof fn lemma_total_len_ge_first(pieces: Seq<Seq<u8>>)
    requires
        pieces.len() > 0,
    ensures
        total_len(pieces) >= pieces[0].len(),
{
}

/// A body being received whole, checked against its declared size as it arrives.
pub struct FullUpload {
    declared: Option<usize>,
    count: usize,
}

impl FullUpload {
    /// The declared size, if any.
    pub closed spec fn spec_declared(&self) -> Option<usize> {
        self.declared
    }

    /// The bytes accepted so far.
    pub closed spec fn spec_count(&self) -> nat {
        self.count as nat
    }

    /// A body with nothing received yet.
    pub fn new(declared: Option<usize>) -> (r: Self)
        ensures
            r.spec_declared() == declared,
            r.spec_count() == 0,
    {
        FullUpload { declared, count: 0 }
    }

    /// Takes the next piece of `len` bytes. Fails with `DataNotFitIn` at the count reached
    /// where the body would overrun the declared size; the piece is then not taken, and the
    /// caller deletes the partial file.
    pub fn accept(&mut self, len: usize) -> (r: Result<usize, Error>)
        ensures
            final(self).spec_declared() == old(self).spec_declared(),
            r == piece_outcome(old(self).spec_declared(), old(self).spec_count(), len as nat),
            r matches Ok(c) ==> final(self).spec_count() == c,
            r is Err ==> final(self).spec_count() == old(self).spec_count(),
    {
        let count = match self.count.checked_add(len) {
            Some(c) => c,
            None => {
                return Err(Error::DataNotFitIn(usize::MAX));
            },
        };
        match self.declared {
            Some(size) => {
                if count > size {
                    return Err(Error::DataNotFitIn(count));
                }
            },
            None => {},
        }
        self.count = count;
        Ok(count)
    }

    /// Ends the body: its length, or `DataNotFitIn` where it falls short of the declared
    /// size, in which case the caller deletes the partial file.
    pub fn finish(&self) -> (r: Result<usize, Error>)
        ensures
            r == end_outcome(self.spec_declared(), self.spec_count()),
    {
        match self.declared {
            Some(size) => {
                if self.count != size {
                    return Err(Error::DataNotFitIn(self.count));
                }
            },
            None => {},
        }
        Ok(self.count)
    }
}

} // verus!
